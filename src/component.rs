//! Reduction of a graph to its largest connected component.

use vstd::prelude::*;
use crate::builder::{RawNode, RawWay, built_model, lemma_built_symmetric, refs_present};
use crate::compact_array::{CompactVec, MAX_COMPACT_LEN};
use crate::graph::{
    GraphModel, Node, OpenStreetMap, has_neighbor, is_walk, model_wf, nodes_model, reaches,
    symmetric,
};

verus! {

/// The number of `false` entries.
pub open spec fn count_false(s: Seq<bool>) -> nat
    decreases s.len(),
{
    if s.len() == 0 {
        0
    } else {
        count_false(s.drop_last()) + if s.last() {
            0nat
        } else {
            1nat
        }
    }
}

proof fn lemma_count_false_set(s: Seq<bool>, i: int)
    requires
        0 <= i < s.len(),
        !s[i],
    ensures
        count_false(s.update(i, true)) + 1 == count_false(s),
    decreases s.len(),
{
    let t = s.update(i, true);
    if i == s.len() - 1 {
        assert(t.drop_last() =~= s.drop_last());
    } else {
        assert(t.drop_last() =~= s.drop_last().update(i, true));
        lemma_count_false_set(s.drop_last(), i);
    }
}

proof fn lemma_count_false_le(s: Seq<bool>)
    ensures
        count_false(s) <= s.len(),
    decreases s.len(),
{
    if s.len() > 0 {
        lemma_count_false_le(s.drop_last());
    }
}

/// The neighbor list `adj` renumbered through `slot`: entries whose slot is
/// empty are dropped, the others replaced by their slot, order kept.
pub open spec fn relabel(adj: Seq<u32>, slot: Seq<Option<u32>>) -> Seq<u32>
    decreases adj.len(),
{
    if adj.len() == 0 {
        Seq::empty()
    } else {
        let prev = relabel(adj.drop_last(), slot);
        match slot[adj.last() as int] {
            Some(n) => prev.push(n),
            None => prev,
        }
    }
}

/// `t` is the part of `m` made of the nodes `old` (new index `i` stands for
/// old index `old[i]`), `slot` giving the new index of each kept old index:
/// locations are kept and neighbor lists renumbered.
pub open spec fn trim_image(
    m: GraphModel,
    old: Seq<u32>,
    slot: Seq<Option<u32>>,
    t: GraphModel,
) -> bool {
    &&& old.len() == t.len()
    &&& slot.len() == m.len()
    &&& forall|i: int|
        0 <= i < old.len() ==> (#[trigger] old[i] as int) < m.len() && slot[old[i] as int]
            == Some(i as u32)
    &&& forall|x: int|
        0 <= x < m.len() && (#[trigger] slot[x]) is Some ==> (slot[x]->0 as int) < old.len()
            && old[slot[x]->0 as int] == x
    &&& forall|i: int|
        0 <= i < t.len() ==> (#[trigger] t[i]).0 == m[old[i] as int].0 && t[i].1 == relabel(
            m[old[i] as int].1,
            slot,
        )
}

proof fn lemma_relabel(adj: Seq<u32>, slot: Seq<Option<u32>>, bound: int)
    requires
        forall|j: int| 0 <= j < adj.len() ==> (#[trigger] adj[j] as int) < slot.len(),
        forall|x: int| 0 <= x < slot.len() && (#[trigger] slot[x]) is Some ==> (slot[x]->0 as int) < bound,
    ensures
        relabel(adj, slot).len() <= adj.len(),
        forall|j: int|
            0 <= j < relabel(adj, slot).len() ==> (#[trigger] relabel(adj, slot)[j] as int) < bound,
        (forall|j: int| 0 <= j < adj.len() ==> (#[trigger] slot[adj[j] as int]) is Some) ==> relabel(
            adj,
            slot,
        ).len() == adj.len(),
        forall|x: u32|
            adj.contains(x) && (#[trigger] slot[x as int]) is Some ==> relabel(adj, slot).contains(
                slot[x as int]->0,
            ),
    decreases adj.len(),
{
    if adj.len() > 0 {
        let d = adj.drop_last();
        lemma_relabel(d, slot, bound);
        let r = relabel(adj, slot);
        let p = relabel(d, slot);
        assert forall|x: u32| adj.contains(x) && (#[trigger] slot[x as int]) is Some implies r.contains(
            slot[x as int]->0,
        ) by {
            let k = choose|k: int| 0 <= k < adj.len() && adj[k] == x;
            if k == adj.len() - 1 {
                assert(r.last() == slot[x as int]->0);
            } else {
                assert(d[k] == x);
                assert(d.contains(x));
                let q = choose|q: int| 0 <= q < p.len() && p[q] == slot[x as int]->0;
                assert(r[q] == p[q]);
            }
        }
        if forall|j: int| 0 <= j < adj.len() ==> (#[trigger] slot[adj[j] as int]) is Some {
            assert forall|j: int| 0 <= j < d.len() implies (#[trigger] slot[d[j] as int]) is Some by {
                assert(d[j] == adj[j]);
            }
        }
    }
}

/// What a flood fill hands back: distinct node indices in discovery order,
/// each with a walk to it from the first that stays among them, and (in an
/// undirected graph) every neighbor of one of them is one of them.
pub open spec fn component_facts(m: GraphModel, elems: Seq<u32>, paths: Seq<Seq<u32>>) -> bool {
    &&& elems.len() >= 1
    &&& elems.len() <= m.len()
    &&& elems.no_duplicates()
    &&& forall|k: int| 0 <= k < elems.len() ==> (#[trigger] elems[k] as int) < m.len()
    &&& paths.len() == elems.len()
    &&& forall|k: int|
        0 <= k < elems.len() ==> is_walk(m, #[trigger] paths[k]) && paths[k][0] == elems[0]
            && paths[k].last() == elems[k]
    &&& forall|k: int, t: int|
        0 <= k < elems.len() && 0 <= t < paths[k].len() ==> elems.contains(#[trigger] paths[k][t])
    &&& symmetric(m) ==> forall|k: int, j: int|
        0 <= k < elems.len() && 0 <= j < m[elems[k] as int].1.len() ==> elems.contains(
            #[trigger] m[elems[k] as int].1[j],
        )
}

/// `t` is what trimming `m` gives: a nonempty part of `m`, renumbered, in
/// which every node has a neighbor and is reachable from node 0.
pub open spec fn trimmed_from(m: GraphModel, t: GraphModel) -> bool {
    &&& t.len() >= 1
    &&& forall|i: int| 0 <= i < t.len() ==> #[trigger] has_neighbor(t, i)
    &&& forall|i: u32| (i as int) < t.len() ==> #[trigger] reaches(t, 0, i)
    &&& exists|old: Seq<u32>, slot: Seq<Option<u32>>| #[trigger] trim_image(m, old, slot, t)
}

/// No list of distinct nodes that can all be reached from `v` is longer
/// than `b`: the component of `v` has at most `b` nodes.
pub open spec fn reach_bound(m: GraphModel, v: u32, b: int) -> bool {
    forall|s: Seq<u32>|
        #[trigger] s.no_duplicates() && (forall|i: int| 0 <= i < s.len() ==> #[trigger] reaches(m, v, s[i]))
            ==> s.len() <= b
}

proof fn lemma_bound_mono(m: GraphModel, v: u32, b1: int, b2: int)
    requires
        reach_bound(m, v, b1),
        b1 <= b2,
    ensures
        reach_bound(m, v, b2),
{
    assert forall|s: Seq<u32>|
        #[trigger] s.no_duplicates() && (forall|i: int| 0 <= i < s.len() ==> #[trigger] reaches(m, v, s[i]))
            implies s.len() <= b2 by {
        assert(s.len() <= b1);
    }
}

proof fn lemma_walk_stays(m: GraphModel, f: Seq<u32>, p: Seq<u32>)
    requires
        forall|k: int, j: int|
            0 <= k < f.len() && 0 <= j < m[f[k] as int].1.len() ==> f.contains(#[trigger] m[f[k] as int].1[j]),
        is_walk(m, p),
        f.contains(p[0]),
    ensures
        f.contains(p.last()),
    decreases p.len(),
{
    if p.len() > 1 {
        let d = p.drop_last();
        assert forall|i: int| 0 <= i < d.len() - 1 implies m[d[i] as int].1.contains(#[trigger] d[i + 1]) by {
            assert(d[i] == p[i] && d[i + 1] == p[i + 1]);
        }
        assert forall|i: int| 0 <= i < d.len() implies (#[trigger] d[i] as int) < m.len() by {
            assert(d[i] == p[i]);
        }
        lemma_walk_stays(m, f, d);
        let q = p.len() - 2;
        assert(m[p[q] as int].1.contains(p[q + 1]));
        let k = choose|k: int| 0 <= k < f.len() && f[k] == p[q];
        let j = choose|j: int| 0 <= j < m[p[q] as int].1.len() && m[p[q] as int].1[j] == p[q + 1];
        assert(f.contains(m[f[k] as int].1[j]));
    }
}

/// A set of distinct nodes closed under links bounds the component of each
/// of its nodes.
proof fn lemma_flood_bound(m: GraphModel, f: Seq<u32>, v: u32)
    requires
        f.no_duplicates(),
        f.contains(v),
        forall|k: int, j: int|
            0 <= k < f.len() && 0 <= j < m[f[k] as int].1.len() ==> f.contains(#[trigger] m[f[k] as int].1[j]),
    ensures
        reach_bound(m, v, f.len() as int),
{
    broadcast use vstd::seq_lib::seq_to_set_is_finite;
    assert forall|s: Seq<u32>|
        #[trigger] s.no_duplicates() && (forall|i: int| 0 <= i < s.len() ==> #[trigger] reaches(m, v, s[i]))
            implies s.len() <= f.len() by {
        assert forall|x: u32| s.to_set().contains(x) implies f.to_set().contains(x) by {
            let i = choose|i: int| 0 <= i < s.len() && s[i] == x;
            assert(reaches(m, v, s[i]));
            let p = choose|p: Seq<u32>| #[trigger] is_walk(m, p) && p[0] == v && p.last() == s[i];
            lemma_walk_stays(m, f, p);
        }
        s.unique_seq_to_set();
        f.unique_seq_to_set();
        vstd::set_lib::lemma_len_subset(s.to_set(), f.to_set());
    }
}

/// When every link is a self-link, a walk never leaves its first node.
proof fn lemma_self_links_walk(m: GraphModel, p: Seq<u32>, i: int)
    requires
        only_self_links(m),
        is_walk(m, p),
        0 <= i < p.len(),
    ensures
        p[i] == p[0],
    decreases i,
{
    if i > 0 {
        lemma_self_links_walk(m, p, i - 1);
        let q = i - 1;
        assert(m[p[q] as int].1.contains(p[q + 1]));
        let j = choose|j: int| 0 <= j < m[p[q] as int].1.len() && m[p[q] as int].1[j] == p[q + 1];
    }
}

/// Every link leads from a node to itself: no two distinct nodes are joined.
pub open spec fn only_self_links(m: GraphModel) -> bool {
    forall|i: int, j: int| 0 <= i < m.len() && 0 <= j < m[i].1.len() ==> m[i].1[j] == i as u32
}

/// Whether every neighbor of every marked node is marked too.
pub open spec fn closed_marks(m: GraphModel, marked: Seq<bool>) -> bool {
    forall|x: int, j: int|
        0 <= x < m.len() && marked[x] && 0 <= j < m[x].1.len() ==> #[trigger] marked[m[x].1[j] as int]
}

impl OpenStreetMap {
    /// Breadth-first flood fill from `s` over nodes not yet marked; marks
    /// and returns them in discovery order, with a walk from `s` to each.
    fn flood(&self, s: u32, assigned: &mut Vec<bool>) -> (r: (Vec<u32>, Ghost<Seq<Seq<u32>>>))
        requires
            self.wf(),
            (s as int) < self@.len(),
            old(assigned)@.len() == self@.len(),
            !old(assigned)@[s as int],
            closed_marks(self@, old(assigned)@),
        ensures
            final(assigned)@.len() == self@.len(),
            closed_marks(self@, final(assigned)@),
            r.0@.len() >= 1,
            r.0@.len() <= self@.len(),
            r.0@[0] == s,
            r.0@.no_duplicates(),
            forall|k: int| 0 <= k < r.0@.len() ==> (#[trigger] r.0@[k] as int) < self@.len(),
            forall|x: int|
                0 <= x < self@.len() ==> (#[trigger] final(assigned)@[x] == (old(assigned)@[x]
                    || r.0@.contains(x as u32))),
            forall|k: int| 0 <= k < r.0@.len() ==> !old(assigned)@[#[trigger] r.0@[k] as int],
            r.1@.len() == r.0@.len(),
            forall|k: int|
                0 <= k < r.0@.len() ==> is_walk(self@, #[trigger] r.1@[k]) && r.1@[k][0] == s
                    && r.1@[k].last() == r.0@[k],
            forall|k: int, t: int|
                0 <= k < r.0@.len() && 0 <= t < r.1@[k].len() ==> r.0@.contains(
                    #[trigger] r.1@[k][t],
                ),
            symmetric(self@) ==> forall|k: int, j: int|
                0 <= k < r.0@.len() && 0 <= j < self@[r.0@[k] as int].1.len() ==> r.0@.contains(
                    #[trigger] self@[r.0@[k] as int].1[j],
                ),
    {
        let ghost m = self@;
        let ghost before = assigned@;
        proof {
            lemma_count_false_set(assigned@, s as int);
        }
        assigned.set(s as usize, true);
        let mut elems: Vec<u32> = Vec::new();
        elems.push(s);
        let ghost mut paths: Seq<Seq<u32>> = seq![seq![s]];
        let ghost total = count_false(assigned@) + 1;
        assert(total == count_false(before));
        let mut head: usize = 0;
        proof {
            assert(is_walk(m, seq![s]));
            assert forall|x: int| 0 <= x < m.len() implies (#[trigger] assigned@[x] == (before[x]
                || elems@.contains(x as u32))) by {
                if x == s as int {
                    assert(elems@[0] == s);
                } else if elems@.contains(x as u32) {
                    let k = choose|k: int| 0 <= k < elems@.len() && elems@[k] == x as u32;
                }
            }
        }
        while head < elems.len()
            invariant
                m == self@,
                self.wf(),
                before == old(assigned)@,
                before.len() == m.len(),
                closed_marks(m, before),
                assigned@.len() == m.len(),
                0 <= head <= elems@.len(),
                elems@.len() + count_false(assigned@) == total,
                elems@.len() >= 1,
                elems@[0] == s,
                elems@.no_duplicates(),
                forall|k: int|
                    0 <= k < elems@.len() ==> (#[trigger] elems@[k] as int) < m.len()
                        && assigned@[elems@[k] as int] && !before[elems@[k] as int],
                forall|x: int|
                    0 <= x < m.len() ==> (#[trigger] assigned@[x] == (before[x] || elems@.contains(
                        x as u32,
                    ))),
                forall|k: int, j: int|
                    0 <= k < head && 0 <= j < m[elems@[k] as int].1.len() ==> #[trigger] assigned@[m[elems@[k] as int].1[j] as int],
                paths.len() == elems@.len(),
                forall|k: int|
                    0 <= k < elems@.len() ==> is_walk(m, #[trigger] paths[k]) && paths[k][0] == s
                        && paths[k].last() == elems@[k],
                forall|k: int, t: int|
                    0 <= k < elems@.len() && 0 <= t < paths[k].len() ==> assigned@[#[trigger] paths[k][t] as int]
                        && !before[paths[k][t] as int],
            decreases total - head,
        {
            let u = elems[head];
            let node = self.get(u);
            let len = node.connected.len();
            let mut j: u8 = 0;
            let ghost elems_before = elems@;
            while j < len
                invariant
                    m == self@,
                    self.wf(),
                    before == old(assigned)@,
                    before.len() == m.len(),
                before.len() == m.len(),
                    closed_marks(m, before),
                    assigned@.len() == m.len(),
                    0 <= head < elems@.len(),
                    elems@[head as int] == u,
                    (u as int) < m.len(),
                    node.connected@ == m[u as int].1,
                    len as int == m[u as int].1.len(),
                    0 <= j <= len,
                    elems@.len() + count_false(assigned@) == total,
                    elems@.len() >= 1,
                    elems@[0] == s,
                    elems@.no_duplicates(),
                    forall|k: int|
                        0 <= k < elems@.len() ==> (#[trigger] elems@[k] as int) < m.len()
                            && assigned@[elems@[k] as int] && !before[elems@[k] as int],
                    forall|x: int|
                        0 <= x < m.len() ==> (#[trigger] assigned@[x] == (before[x]
                            || elems@.contains(x as u32))),
                    forall|k: int, i: int|
                        0 <= k < head && 0 <= i < m[elems@[k] as int].1.len() ==> #[trigger] assigned@[m[elems@[k] as int].1[i] as int],
                    forall|i: int| 0 <= i < j ==> #[trigger] assigned@[m[u as int].1[i] as int],
                    paths.len() == elems@.len(),
                    forall|k: int|
                        0 <= k < elems@.len() ==> is_walk(m, #[trigger] paths[k]) && paths[k][0]
                            == s && paths[k].last() == elems@[k],
                    forall|k: int, t: int|
                        0 <= k < elems@.len() && 0 <= t < paths[k].len() ==> assigned@[#[trigger] paths[k][t] as int]
                            && !before[paths[k][t] as int],
                decreases len - j,
            {
                let v = *node.connected.get(j);
                if !assigned[v as usize] {
                    proof {
                        lemma_count_false_set(assigned@, v as int);
                        let p = paths[head as int];
                        let q = p.push(v);
                        assert(m[u as int].1.contains(v)) by {
                            assert(m[u as int].1[j as int] == v);
                        }
                        assert(is_walk(m, q)) by {
                            assert forall|i: int| 0 <= i < q.len() - 1 implies m[q[i] as int].1.contains(
                                #[trigger] q[i + 1],
                            ) by {
                                if i < p.len() - 1 {
                                    assert(q[i] == p[i] && q[i + 1] == p[i + 1]);
                                }
                            }
                        }
                        paths = paths.push(q);
                    }
                    let ghost prev = elems@;
                    assigned.set(v as usize, true);
                    elems.push(v);
                    proof {
                        assert forall|x: int| 0 <= x < m.len() implies (#[trigger] assigned@[x] == (
                        before[x] || elems@.contains(x as u32))) by {
                            if x == v as int {
                                assert(elems@[elems@.len() - 1] == v);
                            } else {
                                if elems@.contains(x as u32) {
                                    let k = choose|k: int| 0 <= k < elems@.len() && elems@[k] == x as u32;
                                    assert(k < elems@.len() - 1);
                                    assert(elems@.drop_last()[k] == x as u32);
                                }
                                if prev.contains(x as u32) {
                                    let k = choose|k: int| 0 <= k < prev.len() && prev[k] == x as u32;
                                    assert(elems@[k] == x as u32);
                                }
                            }
                        }
                        assert forall|k: int, t: int|
                            0 <= k < elems@.len() && 0 <= t < paths[k].len() implies assigned@[#[trigger] paths[k][t] as int]
                                && !before[paths[k][t] as int] by {
                            if k == elems@.len() - 1 {
                                let p = paths[head as int];
                                if t < p.len() {
                                    assert(paths[k][t] == p[t]);
                                }
                            }
                        }
                    }
                }
                j = j + 1;
            }
            head = head + 1;
        }
        proof {
            lemma_count_false_le(before);
            assert forall|k: int, t: int|
                0 <= k < elems@.len() && 0 <= t < paths[k].len() implies elems@.contains(
                #[trigger] paths[k][t],
            ) by {
                let x = paths[k][t] as int;
                assert(assigned@[x] == (before[x] || elems@.contains(x as u32)));
            }
            assert forall|x: int, j: int|
                0 <= x < m.len() && assigned@[x] && 0 <= j < m[x].1.len() implies #[trigger] assigned@[m[x].1[j] as int] by {
                if !before[x] {
                    assert(elems@.contains(x as u32));
                    let k = choose|k: int| 0 <= k < elems@.len() && elems@[k] == x as u32;
                    assert(assigned@[m[elems@[k] as int].1[j] as int]);
                } else {
                    assert(before[m[x].1[j] as int]);
                }
            }
            if symmetric(m) {
                assert forall|k: int, j: int|
                    0 <= k < elems@.len() && 0 <= j < m[elems@[k] as int].1.len() implies elems@.contains(
                    #[trigger] m[elems@[k] as int].1[j],
                ) by {
                    let u = elems@[k];
                    let v = m[u as int].1[j];
                    assert(assigned@[v as int]);
                    if !elems@.contains(v) {
                        assert(before[v as int]);
                        assert(m[u as int].1.contains(v));
                        assert(m[v as int].1.contains(u));
                        let i = choose|i: int| 0 <= i < m[v as int].1.len() && m[v as int].1[i] == u;
                        assert(before[m[v as int].1[i] as int]);
                    }
                }
            }
        }
        (elems, Ghost(paths))
    }

    /// The largest connected component, renumbered densely in the order a
    /// breadth-first flood fill discovers it. A kept node left without
    /// neighbors is a construction error, reported as `None`; in an
    /// undirected graph that happens exactly when the graph is empty, or no
    /// link joins two distinct nodes and node 0 has no link at all.
    pub fn trim(&self) -> (r: Option<OpenStreetMap>)
        requires
            self.wf(),
        ensures
            r matches Some(t) ==> t.wf() && trimmed_from(self@, t@),
            r matches Some(t) ==> (symmetric(self@) ==> forall|v: u32|
                (v as int) < self@.len() ==> #[trigger] reach_bound(self@, v, t@.len() as int)),
            r is None ==> !symmetric(self@) || only_self_links(self@),
            symmetric(self@) ==> (r is None <==> (self@.len() == 0 || (only_self_links(self@)
                && self@[0].1.len() == 0))),
    {
        let ghost m = self@;
        proof {
            self.lemma_view();
        }
        let n = self.idx_to_node.len();
        let mut assigned: Vec<bool> = Vec::new();
        let mut i: usize = 0;
        while i < n
            invariant
                m == self@,
                n == m.len(),
                0 <= i <= n,
                assigned@.len() == i,
                forall|k: int| 0 <= k < i ==> !#[trigger] assigned@[k],
            decreases n - i,
        {
            assigned.push(false);
            i = i + 1;
        }
        let mut best: Vec<u32> = Vec::new();
        let ghost mut best_paths: Seq<Seq<u32>> = Seq::empty();
        let mut s: usize = 0;
        while s < n
            invariant
                m == self@,
                self.wf(),
                n == m.len(),
                0 <= s <= n,
                assigned@.len() == n,
                closed_marks(m, assigned@),
                s == 0 ==> forall|k: int| 0 <= k < n ==> !#[trigger] assigned@[k],
                s > 0 ==> best@.len() > 0,
                best@.len() > 0 ==> component_facts(m, best@, best_paths),
                forall|x: int| 0 <= x < s ==> #[trigger] assigned@[x],
                symmetric(m) ==> forall|u: int, j: int|
                    0 <= u < n && assigned@[u] && 0 <= j < m[u].1.len() && #[trigger] m[u].1[j]
                        != u as u32 ==> best@.len() >= 2,
                symmetric(m) ==> forall|v: int|
                    0 <= v < n && #[trigger] assigned@[v] ==> reach_bound(m, v as u32, best@.len() as int),
                only_self_links(m) && s > 0 ==> best@.len() == 1 && best@[0] == 0,
                s == 0 ==> best@.len() == 0,
            decreases n - s,
        {
            if !assigned[s] {
                let ghost before = assigned@;
                let (elems, Ghost(paths)) = self.flood(s as u32, &mut assigned);
                proof {
                    if only_self_links(m) {
                        assert forall|q: int| 0 <= q < elems@.len() implies elems@[q] == s as u32 by {
                            lemma_self_links_walk(m, paths[q], paths[q].len() - 1);
                        }
                        if elems@.len() > 1 {
                            assert(elems@[1] == elems@[0]);
                        }
                    }
                    if symmetric(m) {
                        assert forall|u: int, j: int|
                            0 <= u < n && assigned@[u] && 0 <= j < m[u].1.len() && #[trigger] m[u].1[j]
                                != u as u32 && !before[u] implies elems@.len() >= 2 by {
                            assert(elems@.contains(u as u32));
                            let a = choose|a: int| 0 <= a < elems@.len() && elems@[a] == u as u32;
                            assert(elems@.contains(m[elems@[a] as int].1[j]));
                            let b = choose|b: int| 0 <= b < elems@.len() && elems@[b] == m[u].1[j];
                            assert(a != b);
                        }
                    }
                }
                let ghost old_best = best@.len() as int;
                if elems.len() > best.len() {
                    best = elems;
                    proof {
                        best_paths = paths;
                    }
                }
                proof {
                    if symmetric(m) {
                        assert forall|v: int|
                            0 <= v < n && #[trigger] assigned@[v] implies reach_bound(m, v as u32, best@.len() as int) by {
                            if before[v] {
                                lemma_bound_mono(m, v as u32, old_best, best@.len() as int);
                            } else {
                                assert(elems@.contains(v as u32));
                                lemma_flood_bound(m, elems@, v as u32);
                                lemma_bound_mono(m, v as u32, elems@.len() as int, best@.len() as int);
                            }
                        }
                    }
                }
            }
            s = s + 1;
        }
        if best.len() == 0 {
            return None;
        }
        proof {
            if symmetric(m) && !only_self_links(m) {
                let (u2, j2) = choose|u2: int, j2: int|
                    0 <= u2 < m.len() && 0 <= j2 < m[u2].1.len() && m[u2].1[j2] != u2 as u32;
                assert(assigned@[u2]);
                assert(m[u2].1[j2] != u2 as u32);
            }
            if symmetric(m) && best@.len() >= 2 {
                assert forall|k: int| 0 <= k < best@.len() implies #[trigger] has_neighbor(m, best@[k] as int) by {
                    if k == 0 {
                        let p = best_paths[1];
                        assert(best@[1] != best@[0]);
                        assert(p.len() >= 2);
                        let z: int = 0;
                        assert(m[p[z] as int].1.contains(p[z + 1]));
                    } else {
                        let p = best_paths[k];
                        assert(best@[k] != best@[0]);
                        assert(p.len() >= 2);
                        let q = p.len() - 2;
                        assert(m[p[q] as int].1.contains(p[q + 1]));
                        assert(p[q + 1] == best@[k]);
                        assert(m[best@[k] as int].1.contains(p[q]));
                    }
                }
            }
        }
        let bl = best.len();
        let mut slot: Vec<Option<u32>> = Vec::new();
        let mut i: usize = 0;
        while i < n
            invariant
                0 <= i <= n,
                slot@.len() == i,
                forall|k: int| 0 <= k < i ==> #[trigger] slot@[k] is None,
            decreases n - i,
        {
            slot.push(None);
            i = i + 1;
        }
        let mut k: usize = 0;
        while k < bl
            invariant
                m == self@,
                self.wf(),
                n == m.len(),
                bl == best@.len(),
                component_facts(m, best@, best_paths),
                0 <= k <= bl,
                slot@.len() == n,
                forall|x: int|
                    0 <= x < n && (#[trigger] slot@[x]) is Some ==> (slot@[x]->0 as int) < k
                        && best@[slot@[x]->0 as int] == x,
                forall|i: int| 0 <= i < k ==> slot@[#[trigger] best@[i] as int] == Some(i as u32),
            decreases bl - k,
        {
            let b = best[k];
            proof {
                assert forall|i: int| 0 <= i < k implies best@[i] != b by {
                    assert(best@.no_duplicates());
                }
            }
            slot.set(b as usize, Some(k as u32));
            k = k + 1;
        }
        let mut nodes: Vec<Node> = Vec::new();
        let mut k: usize = 0;
        while k < bl
            invariant
                m == self@,
                self.wf(),
                n == m.len(),
                bl == best@.len(),
                component_facts(m, best@, best_paths),
                0 <= k <= bl,
                slot@.len() == n,
                forall|x: int|
                    0 <= x < n && (#[trigger] slot@[x]) is Some ==> (slot@[x]->0 as int) < bl
                        && best@[slot@[x]->0 as int] == x,
                forall|i: int| 0 <= i < bl ==> slot@[#[trigger] best@[i] as int] == Some(i as u32),
                nodes@.len() == k,
                symmetric(m) && !only_self_links(m) ==> bl >= 2,
                only_self_links(m) ==> bl == 1 && best@[0] == 0,
                symmetric(m) && bl >= 2 ==> forall|q: int| 0 <= q < bl ==> #[trigger] has_neighbor(m, best@[q] as int),
                forall|i: int|
                    0 <= i < k ==> (#[trigger] nodes_model(nodes@)[i]).0 == m[best@[i] as int].0
                        && nodes_model(nodes@)[i].1 == relabel(m[best@[i] as int].1, slot@)
                        && nodes_model(nodes@)[i].1.len() > 0,
            decreases bl - k,
        {
            let u = best[k];
            let node = self.get(u);
            let len = node.connected.len();
            let ghost adj = m[u as int].1;
            let mut out: Vec<u32> = Vec::new();
            let mut j: u8 = 0;
            while j < len
                invariant
                    slot@.len() == n,
                    n == m.len(),
                    self.wf(),
                    m == self@,
                    (u as int) < n,
                    adj == m[u as int].1,
                    node.connected@ == adj,
                    len as int == adj.len(),
                    0 <= j <= len,
                    out@ == relabel(adj.subrange(0, j as int), slot@),
                decreases len - j,
            {
                let x = *node.connected.get(j);
                proof {
                    assert(adj.subrange(0, j + 1).drop_last() =~= adj.subrange(0, j as int));
                    assert(adj.subrange(0, j + 1).last() == x);
                }
                match slot[x as usize] {
                    Some(y) => {
                        out.push(y);
                    },
                    None => {},
                }
                j = j + 1;
            }
            proof {
                assert(adj.subrange(0, len as int) =~= adj);
                lemma_relabel(adj, slot@, bl as int);
            }
            if out.len() == 0 {
                proof {
                    if symmetric(m) && !only_self_links(m) {
                        assert forall|j: int| 0 <= j < adj.len() implies (#[trigger] slot@[adj[j] as int]) is Some by {
                            assert(best@.contains(m[best@[k as int] as int].1[j]));
                            let q = choose|q: int| 0 <= q < bl && best@[q] == adj[j];
                            assert(slot@[best@[q] as int] == Some(q as u32));
                        }
                        assert(!has_neighbor(m, u as int));
                        assert(has_neighbor(m, best@[k as int] as int));
                    }
                    if symmetric(m) {
                        assert(only_self_links(m));
                        assert(k == 0);
                        assert forall|j: int| 0 <= j < adj.len() implies (#[trigger] slot@[adj[j] as int]) is Some by {
                            assert(adj[j] == u);
                            assert(slot@[best@[0] as int] == Some(0u32));
                        }
                    }
                }
                return None;
            }
            let ghost before_push = nodes@;
            nodes.push(Node { connected: CompactVec::from_vec(out), location: node.location });
            proof {
                assert forall|i: int| 0 <= i < k implies (#[trigger] nodes_model(nodes@)[i]) == nodes_model(before_push)[i] by {
                    assert(nodes@[i] == before_push[i]);
                }
            }
            k = k + 1;
        }
        let t = OpenStreetMap { idx_to_node: nodes };
        proof {
            if only_self_links(m) {
                lemma_relabel(m[0].1, slot@, bl as int);
                assert(nodes_model(nodes@)[0].1.len() > 0);
            }
            let tm = t@;
            t.lemma_view();
            assert(trim_image(m, best@, slot@, tm));
            assert forall|i: int| 0 <= i < tm.len() implies #[trigger] tm[i].1.len() <= MAX_COMPACT_LEN by {
                lemma_relabel(m[best@[i] as int].1, slot@, bl as int);
            }
            assert forall|i: int, j: int|
                0 <= i < tm.len() && 0 <= j < tm[i].1.len() implies (#[trigger] tm[i].1[j] as int) < tm.len() by {
                lemma_relabel(m[best@[i] as int].1, slot@, bl as int);
            }
            assert(model_wf(tm));
            if symmetric(m) {
                assert forall|v: u32| (v as int) < m.len() implies #[trigger] reach_bound(m, v, tm.len() as int) by {
                    assert(assigned@[v as int]);
                }
            }
            assert forall|i: int| 0 <= i < tm.len() implies #[trigger] has_neighbor(tm, i) by {}
            assert forall|i: u32| (i as int) < tm.len() implies #[trigger] reaches(tm, 0, i) by {
                let p = best_paths[i as int];
                let q = Seq::new(p.len(), |t: int| slot@[p[t] as int]->0);
                assert forall|t: int| 0 <= t < p.len() implies (#[trigger] slot@[p[t] as int]) is Some
                    && best@[slot@[p[t] as int]->0 as int] == p[t] by {
                    assert(best@.contains(p[t]));
                    let z = choose|z: int| 0 <= z < bl && best@[z] == p[t];
                    assert(slot@[best@[z] as int] == Some(z as u32));
                }
                assert forall|t: int| 0 <= t < q.len() - 1 implies tm[q[t] as int].1.contains(#[trigger] q[t + 1]) by {
                    assert(m[p[t] as int].1.contains(p[t + 1]));
                    assert(slot@[p[t + 1] as int] is Some);
                    lemma_relabel(m[p[t] as int].1, slot@, bl as int);
                    assert(best@[q[t] as int] == p[t]);
                }
                assert forall|t: int| 0 <= t < q.len() implies (#[trigger] q[t] as int) < tm.len() by {
                    assert(slot@[p[t] as int] is Some);
                }
                assert(is_walk(tm, q));
                assert(slot@[best@[0] as int] == Some(0u32));
                assert(slot@[best@[i as int] as int] == Some(i));
                assert(q[0] == 0);
                assert(q.last() == i);
            }
        }
        Some(t)
    }
}

proof fn lemma_relabel_back(adj: Seq<u32>, slot: Seq<Option<u32>>, y: u32)
    requires
        relabel(adj, slot).contains(y),
    ensures
        exists|x: u32| adj.contains(x) && #[trigger] slot[x as int] == Some(y),
    decreases adj.len(),
{
    let d = adj.drop_last();
    let p = relabel(d, slot);
    let r = relabel(adj, slot);
    let i = choose|i: int| 0 <= i < r.len() && r[i] == y;
    if i < p.len() && r[i] == p[i] {
        assert(p.contains(y));
        lemma_relabel_back(d, slot, y);
        let x = choose|x: u32| d.contains(x) && #[trigger] slot[x as int] == Some(y);
        let j = choose|j: int| 0 <= j < d.len() && d[j] == x;
        assert(adj[j] == x);
    } else {
        assert(slot[adj.last() as int] == Some(y));
        assert(adj[adj.len() - 1] == adj.last());
    }
}

/// Trimming an undirected graph gives an undirected graph.
pub proof fn lemma_trim_symmetric(m: GraphModel, t: GraphModel)
    requires
        model_wf(m),
        symmetric(m),
        trimmed_from(m, t),
    ensures
        symmetric(t),
{
    let (old, slot) = choose|old: Seq<u32>, slot: Seq<Option<u32>>| #[trigger] trim_image(m, old, slot, t);
    assert forall|a: int, b: u32| 0 <= a < t.len() && #[trigger] t[a].1.contains(b) implies t[b as int].1.contains(
        a as u32,
    ) by {
        let u = old[a];
        lemma_relabel_back(m[u as int].1, slot, b);
        let x = choose|x: u32| m[u as int].1.contains(x) && #[trigger] slot[x as int] == Some(b);
        let j = choose|j: int| 0 <= j < m[u as int].1.len() && m[u as int].1[j] == x;
        assert((x as int) < m.len());
        assert(old[b as int] == x);
        assert(m[x as int].1.contains(u));
        assert(slot[u as int] == Some(a as u32));
        lemma_relabel(m[x as int].1, slot, old.len() as int);
    }
}

proof fn lemma_walk_reverse(m: GraphModel, p: Seq<u32>)
    requires
        symmetric(m),
        is_walk(m, p),
    ensures
        is_walk(m, p.reverse()),
        p.reverse()[0] == p.last(),
        p.reverse().last() == p[0],
{
    let r = p.reverse();
    let n = p.len();
    assert forall|i: int| 0 <= i < r.len() implies (#[trigger] r[i] as int) < m.len() by {
        assert(r[i] == p[n - 1 - i]);
    }
    assert forall|i: int| 0 <= i < r.len() - 1 implies m[r[i] as int].1.contains(#[trigger] r[i + 1]) by {
        let k = n - 2 - i;
        assert(r[i] == p[k + 1]);
        assert(r[i + 1] == p[k]);
        assert(m[p[k] as int].1.contains(p[k + 1]));
    }
}

proof fn lemma_walk_concat(m: GraphModel, p: Seq<u32>, q: Seq<u32>)
    requires
        is_walk(m, p),
        is_walk(m, q),
        p.last() == q[0],
    ensures
        is_walk(m, p + q.drop_first()),
        (p + q.drop_first())[0] == p[0],
        (p + q.drop_first()).last() == q.last(),
{
    let c = p + q.drop_first();
    let n = p.len();
    assert forall|i: int| 0 <= i < c.len() implies (#[trigger] c[i] as int) < m.len() by {
        if i >= n {
            assert(c[i] == q[i - n + 1]);
        }
    }
    assert forall|i: int| 0 <= i < c.len() - 1 implies m[c[i] as int].1.contains(#[trigger] c[i + 1]) by {
        if i < n - 1 {
            assert(c[i] == p[i] && c[i + 1] == p[i + 1]);
        } else {
            assert(c[i] == q[i - n + 1]);
            assert(c[i + 1] == q[i - n + 2]);
        }
    }
    if q.len() > 1 {
        assert(c.last() == q[q.len() - 1]);
    }
}

/// In an undirected graph where every node can be reached from node 0, every
/// node can be reached from every other.
pub proof fn lemma_all_reach(t: GraphModel, a: u32, b: u32)
    requires
        symmetric(t),
        forall|i: u32| (i as int) < t.len() ==> #[trigger] reaches(t, 0, i),
        (a as int) < t.len(),
        (b as int) < t.len(),
    ensures
        reaches(t, a, b),
{
    assert(reaches(t, 0, a));
    assert(reaches(t, 0, b));
    let p = choose|p: Seq<u32>| #[trigger] is_walk(t, p) && p[0] == 0 && p.last() == a;
    let q = choose|q: Seq<u32>| #[trigger] is_walk(t, q) && q[0] == 0 && q.last() == b;
    lemma_walk_reverse(t, p);
    lemma_walk_concat(t, p.reverse(), q);
    assert(is_walk(t, p.reverse() + q.drop_first()));
}

/// A graph built from map records and then trimmed is one connected piece:
/// every node has a neighbor, and a flood fill from any node reaches every
/// other node.
pub proof fn lemma_trimmed_graph_connected(nodes: Seq<RawNode>, ways: Seq<RawWay>, t: GraphModel)
    requires
        refs_present(nodes, ways),
        model_wf(built_model(nodes, ways)),
        trimmed_from(built_model(nodes, ways), t),
    ensures
        forall|i: int| 0 <= i < t.len() ==> #[trigger] has_neighbor(t, i),
        forall|a: u32, b: u32| (a as int) < t.len() && (b as int) < t.len() ==> #[trigger] reaches(t, a, b),
{
    lemma_built_symmetric(nodes, ways);
    lemma_trim_symmetric(built_model(nodes, ways), t);
    assert forall|a: u32, b: u32| (a as int) < t.len() && (b as int) < t.len() implies #[trigger] reaches(t, a, b) by {
        lemma_all_reach(t, a, b);
    }
}

} // verus!
