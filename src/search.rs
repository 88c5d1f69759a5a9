//! The state of one A* exploration: best known costs, predecessors and the
//! frontier, with the step that expands one node.

use vstd::prelude::*;
use vstd::multiset::Multiset;
use crate::frontier::Frontier;
use crate::graph::{GraphModel, MAX_DIST2, Node, OpenStreetMap, model_wf};
use crate::params::Params;

verus! {

/// What a search has found: for each node reached, the node it was reached
/// from on its best known route. The root has no predecessor.
pub struct Track {
    pub(crate) root: u32,
    pub(crate) preds: Vec<Option<u32>>,
    pub(crate) cost: Ghost<Seq<int>>,
    pub(crate) stamp: Ghost<Seq<int>>,
    pub(crate) graph: Ghost<GraphModel>,
}

impl View for Track {
    type V = Seq<Option<u32>>;

    open(crate) spec fn view(&self) -> Seq<Option<u32>> {
        self.preds@
    }
}

impl Track {
    /// The node the search started from.
    pub open(crate) spec fn spec_root(&self) -> u32 {
        self.root
    }

    /// The graph the search ran on.
    pub closed spec fn model(&self) -> GraphModel {
        self.graph@
    }

    /// The track is well formed for the graph it was made on.
    pub closed spec fn valid(&self) -> bool {
        self.wf(self.graph@)
    }

    pub(crate) proof fn lemma_valid(&self, m: GraphModel)
        requires
            self.wf(m),
            self.graph@ == m,
        ensures
            self.valid(),
            self.model() == m,
    {
    }

    pub(crate) proof fn lemma_root_free(&self, m: GraphModel)
        requires
            self.wf(m),
        ensures
            self@[self.root as int] is None,
    {
    }

    pub(crate) proof fn lemma_wf(&self)
        requires
            self.valid(),
        ensures
            self.wf(self.model()),
            model_wf(self.model()),
            self@.len() == self.model().len(),
            (self.spec_root() as int) < self.model().len(),
    {
    }

    /// Node `k` has been reached.
    pub open spec fn knows(&self, k: u32) -> bool {
        k == self.spec_root() || self@[k as int] is Some
    }

    /// Every predecessor link is an edge of `m` into a reached node, and the
    /// links form no cycle (each leads to a node of smaller cost, or of equal
    /// cost and earlier update).
    pub closed spec fn wf(&self, m: GraphModel) -> bool {
        &&& model_wf(m)
        &&& self.preds@.len() == m.len()
        &&& self.cost@.len() == m.len()
        &&& self.stamp@.len() == m.len()
        &&& (self.root as int) < m.len()
        &&& self.preds@[self.root as int] is None
        &&& forall|k: int| 0 <= k < m.len() ==> 0 <= #[trigger] self.cost@[k] && 0 <= self.stamp@[k]
        &&& forall|k: int|
            0 <= k < m.len() && (#[trigger] self.preds@[k]) is Some ==> {
                let p = self.preds@[k]->0 as int;
                &&& 0 <= p < m.len()
                &&& m[p].1.contains(k as u32)
                &&& (p == self.root || self.preds@[p] is Some)
                &&& self.cost@[p] <= self.cost@[k]
                &&& (self.cost@[p] == self.cost@[k] ==> self.stamp@[p] < self.stamp@[k])
            }
    }

    /// The root, as a value.
    pub fn root(&self) -> (r: u32)
        ensures
            r == self.spec_root(),
    {
        self.root
    }

    /// Whether node `k` has been reached.
    pub fn reached(&self, k: u32) -> (r: bool)
        requires
            (k as int) < self@.len(),
        ensures
            r == self.knows(k),
    {
        k == self.root || self.preds[k as usize].is_some()
    }

    /// Node `a` ranks above node `b`: it costs more, or as much but was
    /// updated later. Predecessor links always lead down in rank.
    pub(crate) closed spec fn ranks_above(&self, a: u32, b: u32) -> bool {
        self.cost@[a as int] > self.cost@[b as int] || (self.cost@[a as int] == self.cost@[b as int]
            && self.stamp@[a as int] > self.stamp@[b as int])
    }

    /// The chain of predecessors from `from` back to the root: `from` first,
    /// each next node the predecessor of the one before, the root last.
    pub(crate) fn path_trace(&self, from: u32, Ghost(m): Ghost<GraphModel>) -> (r: Vec<u32>)
        requires
            self.wf(m),
            (from as int) < m.len(),
            self.knows(from),
        ensures
            is_chain(*self, from, r@),
            r@.no_duplicates(),
            r@.last() == self.spec_root(),
            forall|i: int| 0 <= i < r@.len() ==> (#[trigger] r@[i] as int) < m.len(),
            forall|i: int| 0 <= i < r@.len() - 1 ==> m[r@[i + 1] as int].1.contains(#[trigger] r@[i]),
    {
        let mut out: Vec<u32> = Vec::new();
        out.push(from);
        let mut on = from;
        loop
            invariant
                self.wf(m),
                (on as int) < m.len(),
                self.knows(on),
                out@.len() >= 1,
                out@[0] == from,
                out@.last() == on,
                out@.no_duplicates(),
                forall|i: int| 0 <= i < out@.len() - 1 ==> self.ranks_above(#[trigger] out@[i], on),
                forall|i: int| 0 <= i < out@.len() ==> (#[trigger] out@[i] as int) < m.len(),
                forall|i: int|
                    0 <= i < out@.len() - 1 ==> self@[out@[i] as int] == Some(#[trigger] out@[i + 1]),
                forall|i: int|
                    0 <= i < out@.len() - 1 ==> m[out@[i + 1] as int].1.contains(#[trigger] out@[i]),
            ensures
                is_chain(*self, from, out@),
                out@.no_duplicates(),
                out@.last() == self.spec_root(),
                forall|i: int| 0 <= i < out@.len() ==> (#[trigger] out@[i] as int) < m.len(),
                forall|i: int|
                    0 <= i < out@.len() - 1 ==> m[out@[i + 1] as int].1.contains(#[trigger] out@[i]),
            decreases self.cost@[on as int], self.stamp@[on as int],
        {
            match self.preds[on as usize] {
                Some(p) => {
                    let ghost prev = out@;
                    out.push(p);
                    proof {
                        assert(self.ranks_above(on, p));
                        assert forall|i: int| 0 <= i < out@.len() - 1 implies m[out@[i + 1] as int].1.contains(
                            #[trigger] out@[i],
                        ) by {
                            if i < prev.len() - 1 {
                                assert(out@[i] == prev[i] && out@[i + 1] == prev[i + 1]);
                            } else {
                                assert(out@[i] == on);
                            }
                        }
                        assert forall|i: int| 0 <= i < out@.len() - 1 implies self@[out@[i] as int] == Some(
                            #[trigger] out@[i + 1],
                        ) by {
                            if i < prev.len() - 1 {
                                assert(out@[i] == prev[i] && out@[i + 1] == prev[i + 1]);
                            } else {
                                assert(out@[i] == on);
                            }
                        }
                        assert forall|i: int| 0 <= i < out@.len() - 1 implies self.ranks_above(
                            #[trigger] out@[i],
                            p,
                        ) by {
                            assert(out@[i] == prev[i]);
                            if i < prev.len() - 1 {
                                assert(self.ranks_above(prev[i], on));
                            } else {
                                assert(prev[i] == on);
                            }
                        }
                        assert forall|i: int, j: int|
                            0 <= i < out@.len() && 0 <= j < out@.len() && i != j implies out@[i] != out@[j] by {
                            if i < prev.len() && j < prev.len() {
                                assert(out@[i] == prev[i] && out@[j] == prev[j]);
                            } else if i == prev.len() {
                                assert(self.ranks_above(out@[j], p));
                            } else {
                                assert(self.ranks_above(out@[i], p));
                            }
                        }
                    }
                    on = p;
                },
                None => {
                    break ;
                },
            }
        }
        out
    }
}

/// `c` is the chain of predecessors in `t` from `from`: it starts at `from`,
/// each next node is the predecessor of the one before, and the last node
/// has none.
pub open spec fn is_chain(t: Track, from: u32, c: Seq<u32>) -> bool {
    &&& c.len() >= 1
    &&& c[0] == from
    &&& forall|i: int| 0 <= i < c.len() ==> (#[trigger] c[i] as int) < t@.len()
    &&& forall|i: int| 0 <= i < c.len() - 1 ==> t@[c[i] as int] == Some(#[trigger] c[i + 1])
    &&& t@[c.last() as int] is None
}

proof fn lemma_chain_prefix(t: Track, from: u32, c1: Seq<u32>, c2: Seq<u32>, i: int)
    requires
        is_chain(t, from, c1),
        is_chain(t, from, c2),
        0 <= i < c1.len(),
        0 <= i < c2.len(),
    ensures
        c1[i] == c2[i],
    decreases i,
{
    if i > 0 {
        lemma_chain_prefix(t, from, c1, c2, i - 1);
        let j = i - 1;
        assert(t@[c1[j] as int] == Some(c1[j + 1]));
        assert(t@[c2[j] as int] == Some(c2[j + 1]));
    }
}

/// There is one chain of predecessors from a node: following the links is
/// deterministic and stops at the first node without one.
pub proof fn lemma_chain_unique(t: Track, from: u32, c1: Seq<u32>, c2: Seq<u32>)
    requires
        is_chain(t, from, c1),
        is_chain(t, from, c2),
    ensures
        c1 == c2,
{
    if c1.len() < c2.len() {
        lemma_chain_prefix(t, from, c1, c2, c1.len() - 1);
        let j = c1.len() - 1;
        assert(t@[c2[j] as int] == Some(c2[j + 1]));
    } else if c2.len() < c1.len() {
        lemma_chain_prefix(t, from, c1, c2, c2.len() - 1);
        let j = c2.len() - 1;
        assert(t@[c1[j] as int] == Some(c1[j + 1]));
    } else {
        assert forall|i: int| 0 <= i < c1.len() implies c1[i] == c2[i] by {
            lemma_chain_prefix(t, from, c1, c2, i);
        }
        assert(c1 =~= c2);
    }
}

/// Whether the frontier holds an entry for node `k`.
pub open spec fn queued(q: Multiset<(u128, u32)>, k: u32) -> bool {
    exists|f: u128| #[trigger] q.contains((f, k))
}

/// The number of nodes with a known cost.
pub open spec fn known_count(g: Seq<Option<u128>>) -> nat
    decreases g.len(),
{
    if g.len() == 0 {
        0
    } else {
        known_count(g.drop_last()) + if g.last() is Some {
            1nat
        } else {
            0nat
        }
    }
}

/// What a cost entry weighs in the termination measure: its cost if known,
/// `top` (more than any cost) if not.
pub open spec fn weight(x: Option<u128>, top: int) -> int {
    match x {
        Some(v) => v as int,
        None => top,
    }
}

/// The sum of the weights of all cost entries.
pub open spec fn potential(g: Seq<Option<u128>>, top: int) -> int
    decreases g.len(),
{
    if g.len() == 0 {
        0
    } else {
        potential(g.drop_last(), top) + weight(g.last(), top)
    }
}

proof fn lemma_update(g: Seq<Option<u128>>, i: int, x: Option<u128>, top: int)
    requires
        0 <= i < g.len(),
    ensures
        potential(g.update(i, x), top) == potential(g, top) - weight(g[i], top) + weight(x, top),
        known_count(g.update(i, x)) == known_count(g) - (if g[i] is Some {
            1int
        } else {
            0int
        }) + (if x is Some {
            1int
        } else {
            0int
        }),
    decreases g.len(),
{
    let t = g.update(i, x);
    if i == g.len() - 1 {
        assert(t.drop_last() =~= g.drop_last());
    } else {
        assert(t.drop_last() =~= g.drop_last().update(i, x));
        lemma_update(g.drop_last(), i, x, top);
    }
}

proof fn lemma_potential_nonneg(g: Seq<Option<u128>>, top: int)
    requires
        top >= 0,
    ensures
        potential(g, top) >= 0,
        known_count(g) <= g.len(),
    decreases g.len(),
{
    if g.len() > 0 {
        lemma_potential_nonneg(g.drop_last(), top);
    }
}

proof fn lemma_none_count(g: Seq<Option<u128>>)
    requires
        forall|k: int| 0 <= k < g.len() ==> (#[trigger] g[k]) is None,
    ensures
        known_count(g) == 0,
    decreases g.len(),
{
    if g.len() > 0 {
        lemma_none_count(g.drop_last());
    }
}

proof fn lemma_count_below(g: Seq<Option<u128>>, i: int)
    requires
        0 <= i < g.len(),
        g[i] is None,
    ensures
        known_count(g) < g.len(),
    decreases g.len(),
{
    if i == g.len() - 1 {
        lemma_potential_nonneg(g.drop_last(), 0);
    } else {
        lemma_count_below(g.drop_last(), i);
    }
}

/// The termination measure of a search is never negative.
pub(crate) proof fn lemma_measure_nonneg(s: &Search, m: GraphModel)
    ensures
        s.measure(m) >= 0,
{
    lemma_potential_nonneg(s.g@, Search::top(m));
}

/// One A* exploration in progress.
pub(crate) struct Search {
    pub(crate) g: Vec<Option<u128>>,
    pub(crate) track: Track,
    pub(crate) queue: Frontier,
    pub(crate) clock: Ghost<int>,
}

impl Search {
    /// The weight of an unknown cost: above every cost a search can record
    /// in `m`.
    pub(crate) open spec fn top(m: GraphModel) -> int {
        m.len() * MAX_DIST2 + 1
    }

    /// Decreases with every step; bounds the number of steps.
    pub(crate) open spec fn measure(&self, m: GraphModel) -> int {
        potential(self.g@, Self::top(m)) + self.queue@.len()
    }

    /// All invariants but the one about the node `x` being expanded.
    pub(crate) open spec fn inv_except(&self, m: GraphModel, x: int) -> bool {
        let n = m.len();
        let g = self.g@;
        let t = self.track;
        &&& t.wf(m)
        &&& t.graph@ == m
        &&& g.len() == n
        &&& g[t.root as int] == Some(0u128)
        &&& forall|k: int| 0 <= k < n ==> (#[trigger] t.preds@[k] is Some ==> g[k] is Some)
        &&& forall|k: int|
            0 <= k < n && k != t.root && (#[trigger] g[k]) is Some ==> t.preds@[k] is Some
        &&& forall|k: int|
            0 <= k < n && (#[trigger] g[k]) is Some ==> t.cost@[k] == g[k]->0 as int && (g[k]->0 as int)
                <= known_count(g) * MAX_DIST2
        &&& forall|k: int| 0 <= k < n ==> #[trigger] t.stamp@[k] < self.clock@
        &&& forall|e: (u128, u32)|
            #[trigger] self.queue@.contains(e) ==> (e.1 as int) < n && g[e.1 as int] is Some
        &&& forall|k: int|
            0 <= k < n && k != x && (#[trigger] g[k]) is Some ==> queued(self.queue@, k as u32)
                || forall|j: int|
                0 <= j < m[k].1.len() ==> (#[trigger] g[m[k].1[j] as int]) is Some
    }

    pub(crate) open spec fn inv(&self, m: GraphModel) -> bool {
        self.inv_except(m, -1)
    }

    /// A search from `root`: only the root is known, at cost 0, and it is
    /// the one frontier entry, under the largest key.
    pub(crate) fn new(map: &OpenStreetMap, root: u32) -> (r: Search)
        requires
            map.wf(),
            (root as int) < map@.len(),
        ensures
            r.inv(map@),
            r.track.valid(),
            r.track.model() == map@,
            r.track.root == root,
            r.queue@ == Multiset::<(u128, u32)>::empty().insert((u128::MAX, root)),
            forall|k: int| 0 <= k < map@.len() ==> (#[trigger] r.g@[k] is Some <==> k == root),
            forall|k: int| 0 <= k < map@.len() ==> (#[trigger] r.track@[k]) is None,
    {
        let n = map.node_count();
        let mut g: Vec<Option<u128>> = Vec::new();
        let mut preds: Vec<Option<u32>> = Vec::new();
        let mut i: usize = 0;
        while i < n
            invariant
                0 <= i <= n,
                g@.len() == i,
                preds@.len() == i,
                forall|k: int| 0 <= k < i ==> (#[trigger] g@[k]) is None,
                forall|k: int| 0 <= k < i ==> (#[trigger] preds@[k]) is None,
            decreases n - i,
        {
            g.push(None);
            preds.push(None);
            i = i + 1;
        }
        let ghost g0 = g@;
        g.set(root as usize, Some(0));
        proof {
            lemma_update(g0, root as int, Some(0u128), 0);
            assert(g0 =~= Seq::new(n as nat, |k: int| None::<u128>));
            lemma_none_count(g0);
        }
        let mut queue = Frontier::new();
        queue.push(u128::MAX, root);
        let track = Track {
            root,
            preds,
            cost: Ghost(Seq::new(n as nat, |k: int| 0int)),
            stamp: Ghost(Seq::new(n as nat, |k: int| 0int)),
            graph: Ghost(map@),
        };
        let r = Search { g, track, queue, clock: Ghost(1) };
        proof {
            assert(r.track.wf(map@));
            assert(known_count(r.g@) == 1);
            assert forall|k: int|
                0 <= k < n && (#[trigger] r.g@[k]) is Some implies r.track.cost@[k] == r.g@[k]->0 as int && (r.g@[k]->0 as int)
                    <= known_count(r.g@) * MAX_DIST2 by {
                assert(k == root);
            }
            assert forall|e: (u128, u32)| #[trigger] r.queue@.contains(e) implies (e.1 as int) < n
                && r.g@[e.1 as int] is Some by {
                if e != (u128::MAX, root) {
                    assert(Multiset::<(u128, u32)>::empty().count(e) == 0);
                }
            }
            assert forall|k: int| 0 <= k < n && k != -1 && (#[trigger] r.g@[k]) is Some implies queued(
                r.queue@,
                k as u32,
            ) || forall|j: int|
                0 <= j < map@[k].1.len() ==> (#[trigger] r.g@[map@[k].1[j] as int]) is Some by {
                assert(k == root);
                assert(r.queue@.contains((u128::MAX, root)));
            }
        }
        r
    }

    /// Takes an entry of least key off the frontier.
    pub(crate) fn pop(&mut self, Ghost(m): Ghost<GraphModel>) -> (r: Option<(u128, u32)>)
        requires
            old(self).inv(m),
        ensures
            final(self).g@ == old(self).g@,
            final(self).track == old(self).track,
            final(self).clock == old(self).clock,
            r is None ==> old(self).queue@.len() == 0 && final(self).queue@ == old(self).queue@
                && final(self).inv(m),
            r matches Some(e) ==> (old(self).queue@.contains(e) && final(self).queue@ == old(self).queue@.remove(e) && final(self).queue@.len() == old(self).queue@.len() - 1
                && final(self).inv_except(m, e.1 as int) && (e.1 as int) < m.len()
                && final(self).g@[e.1 as int] is Some),
    {
        let ghost q0 = self.queue@;
        let r = self.queue.pop();
        proof {
            if let Some(e) = r {
                let q1 = self.queue@;
                assert forall|d: (u128, u32)| #[trigger] q1.contains(d) implies q0.contains(d) by {
                    if d != e {
                        assert(q1.count(d) == q0.count(d));
                    }
                }
                assert forall|k: int|
                    0 <= k < m.len() && k != e.1 as int && (#[trigger] self.g@[k]) is Some implies queued(
                    q1,
                    k as u32,
                ) || forall|j: int|
                    0 <= j < m[k].1.len() ==> (#[trigger] self.g@[m[k].1[j] as int]) is Some by {
                    if queued(q0, k as u32) {
                        let f = choose|f: u128| #[trigger] q0.contains((f, k as u32));
                        assert(q1.count((f, k as u32)) == q0.count((f, k as u32)));
                        assert(q1.contains((f, k as u32)));
                    }
                }
            }
        }
        r
    }

    /// Expands node `x`: each neighbor whose cost through `x` is strictly
    /// better than its known cost (or that has none) gets that cost, `x` as
    /// predecessor, and a frontier entry keyed by cost plus heuristic.
    /// Returns the neighbors given a predecessor for the first time, in the
    /// order they were reached.
    pub(crate) fn expand<P: Params<Node>>(
        &mut self,
        map: &OpenStreetMap,
        params: &P,
        x: u32,
        goal: &Node,
    ) -> (found: Vec<u32>)
        requires
            map.wf(),
            old(self).inv_except(map@, x as int),
            (x as int) < map@.len(),
            old(self).g@[x as int] is Some,
        ensures
            final(self).inv(map@),
            final(self).measure(map@) <= old(self).measure(map@),
            final(self).track.root == old(self).track.root,
            forall|k: int|
                0 <= k < map@.len() && (#[trigger] old(self).g@[k]) is Some ==> final(self).g@[k] is Some,
            forall|k: int|
                0 <= k < map@.len() && #[trigger] final(self).g@[k] != old(self).g@[k] ==> queued(
                    final(self).queue@,
                    k as u32,
                ),
            forall|k: u32| #[trigger] queued(old(self).queue@, k) ==> queued(final(self).queue@, k),
            forall|j: int|
                0 <= j < map@[x as int].1.len() ==> (#[trigger] final(self).g@[map@[x as int].1[j] as int]) is Some,
            found@.no_duplicates(),
            forall|i: int|
                0 <= i < found@.len() ==> (#[trigger] found@[i] as int) < map@.len() && old(self).track@[found@[i] as int] is None
                    && final(self).track@[found@[i] as int] is Some,
            forall|k: int|
                0 <= k < map@.len() && (#[trigger] old(self).track@[k]) is None && final(self).track@[k] is Some
                    ==> found@.contains(k as u32),
    {
        let ghost m = map@;
        let ghost n = m.len();
        let ghost top = Self::top(m);
        let ghost g0 = self.g@;
        let ghost q0 = self.queue@;
        let ghost p0 = self.track.preds@;
        let ghost pot0 = potential(g0, top);
        let gx = match self.g[x as usize] {
            Some(v) => v,
            None => 0,
        };
        let xn = map.get(x);
        let len = xn.connected.len();
        let mut found: Vec<u32> = Vec::new();
        let mut j: u8 = 0;
        proof {
            lemma_potential_nonneg(g0, top);
        }
        while j < len
            invariant
                map.wf(),
                m == map@,
                n == m.len(),
                top == Self::top(m),
                (x as int) < n,
                xn.connected@ == m[x as int].1,
                len as int == m[x as int].1.len(),
                0 <= j <= len,
                self.g@[x as int] == Some(gx),
                self.inv_except(m, x as int),
                self.track.root == old(self).track.root,
                g0 == old(self).g@,
                q0 == old(self).queue@,
                p0 == old(self).track@,
                pot0 == potential(g0, top),
                forall|k: int| 0 <= k < n && (#[trigger] p0[k]) is Some ==> g0[k] is Some,
                g0.len() == n,
                forall|i: int| 0 <= i < j ==> (#[trigger] self.g@[m[x as int].1[i] as int]) is Some,
                self.queue@.len() >= q0.len(),
                potential(self.g@, top) + (self.queue@.len() - q0.len()) <= pot0,
                forall|k: int| 0 <= k < n && (#[trigger] g0[k]) is Some ==> self.g@[k] is Some,
                forall|k: int|
                    0 <= k < n && #[trigger] self.g@[k] != g0[k] ==> queued(self.queue@, k as u32),
                forall|e: (u128, u32)| q0.count(e) <= #[trigger] self.queue@.count(e),
                found@.no_duplicates(),
                forall|i: int|
                    0 <= i < found@.len() ==> (#[trigger] found@[i] as int) < n && p0[found@[i] as int] is None
                        && self.track@[found@[i] as int] is Some,
                forall|k: int|
                    0 <= k < n && (#[trigger] p0[k]) is None && self.track@[k] is Some ==> found@.contains(
                        k as u32,
                    ),
            decreases len - j,
        {
            let nb = *xn.connected.get(j);
            let nn = map.get(nb);
            let w = params.neighbor_dist(xn, nn);
            proof {
                lemma_potential_nonneg(self.g@, top);
            }
            let tentative: u128 = gx + w;
            let improve: bool = match self.g[nb as usize] {
                Some(prev) => tentative < prev,
                None => true,
            };
            if improve {
                let ghost gb = self.g@;
                let ghost qb = self.queue@;
                let ghost tb = self.track;
                let ghost c = known_count(gb);
                let first = self.track.preds[nb as usize].is_none();
                proof {
                    lemma_update(gb, nb as int, Some(tentative), top);
                    if gb[nb as int] is None {
                        lemma_count_below(gb, nb as int);
                    }
                    assert(nb as int != x as int);
                    assert(nb != self.track.root);
                }
                self.g.set(nb as usize, Some(tentative));
                self.track.preds.set(nb as usize, Some(x));
                self.track.cost = Ghost(self.track.cost@.update(nb as int, tentative as int));
                self.track.stamp = Ghost(self.track.stamp@.update(nb as int, self.clock@));
                self.clock = Ghost(self.clock@ + 1);
                let h = params.heuristic(nn, goal);
                let key: u128 = tentative + h;
                self.queue.push(key, nb);
                let ghost fb = found@;
                if first {
                    found.push(nb);
                }
                proof {
                    let g1 = self.g@;
                    let q1 = self.queue@;
                    let t1 = self.track;
                    assert(q1.contains((key, nb)));
                    assert(queued(q1, nb));
                    assert forall|e: (u128, u32)| #[trigger] q1.contains(e) implies (e.1 as int) < n
                        && g1[e.1 as int] is Some by {
                        if e != (key, nb) {
                            assert(qb.contains(e));
                        }
                    }
                    assert forall|k: u32| #[trigger] queued(qb, k) implies queued(q1, k) by {
                        let f = choose|f: u128| #[trigger] qb.contains((f, k));
                        assert(q1.contains((f, k)));
                    }
                    assert(t1.wf(m)) by {
                        assert forall|k: int| 0 <= k < m.len() && (#[trigger] t1.preds@[k]) is Some implies {
                            let p = t1.preds@[k]->0 as int;
                            &&& 0 <= p < m.len()
                            &&& m[p].1.contains(k as u32)
                            &&& (p == t1.root || t1.preds@[p] is Some)
                            &&& t1.cost@[p] <= t1.cost@[k]
                            &&& (t1.cost@[p] == t1.cost@[k] ==> t1.stamp@[p] < t1.stamp@[k])
                        } by {
                            if k == nb as int {
                                assert(m[x as int].1[j as int] == nb);
                                assert(m[x as int].1.contains(nb));
                            } else {
                                let p = tb.preds@[k]->0 as int;
                                if p == nb as int {
                                    assert(gb[p] is Some);
                                }
                            }
                        }
                    }
                    assert forall|k: int|
                        0 <= k < n && (#[trigger] g1[k]) is Some implies t1.cost@[k] == g1[k]->0 as int
                            && (g1[k]->0 as int) <= known_count(g1) * MAX_DIST2 by {
                        if k != nb as int {
                            assert(gb[k] is Some);
                        }
                    }
                    assert forall|k: int|
                        0 <= k < n && k != x as int && (#[trigger] g1[k]) is Some implies queued(
                            q1,
                            k as u32,
                        ) || forall|i: int|
                            0 <= i < m[k].1.len() ==> (#[trigger] g1[m[k].1[i] as int]) is Some by {
                        if k != nb as int {
                            assert(gb[k] is Some);
                            if queued(qb, k as u32) {
                            } else {
                                assert forall|i: int| 0 <= i < m[k].1.len() implies (#[trigger] g1[m[k].1[i] as int]) is Some by {
                                    assert(gb[m[k].1[i] as int] is Some);
                                }
                            }
                        }
                    }
                    assert forall|k: int|
                        0 <= k < n && #[trigger] g1[k] != g0[k] implies queued(q1, k as u32) by {
                        if k != nb as int {
                            assert(gb[k] == g1[k]);
                        }
                    }
                    assert forall|e: (u128, u32)| q0.count(e) <= #[trigger] q1.count(e) by {
                        assert(qb.count(e) <= q1.count(e));
                    }
                    assert forall|i: int|
                        0 <= i < found@.len() implies (#[trigger] found@[i] as int) < n && p0[found@[i] as int] is None
                            && t1@[found@[i] as int] is Some by {
                        if i < found@.len() - 1 || !first {
                        } else {
                            assert(found@[i] == nb);
                            assert(tb@[nb as int] is None);
                            if p0[nb as int] is Some {
                                assert(g0[nb as int] is Some);
                                assert(gb[nb as int] is Some);
                            }
                        }
                    }
                    assert forall|i: int, j: int|
                        0 <= i < found@.len() && 0 <= j < found@.len() && i != j implies found@[i] != found@[j] by {
                        if first && (i == found@.len() - 1 || j == found@.len() - 1) {
                            let o = if i == found@.len() - 1 { j } else { i };
                            assert(found@[o] == fb[o]);
                            assert(tb@[fb[o] as int] is Some);
                        } else {
                            assert(found@[i] == fb[i] && found@[j] == fb[j]);
                        }
                    }
                    assert forall|k: int|
                        0 <= k < n && (#[trigger] p0[k]) is None && t1@[k] is Some implies found@.contains(
                            k as u32,
                        ) by {
                        if k == nb as int && first {
                            assert(found@[found@.len() - 1] == nb);
                        } else if tb@[k] is Some {
                            let i = choose|i: int| 0 <= i < fb.len() && fb[i] == k as u32;
                            assert(found@[i] == k as u32);
                        }
                    }
                    assert forall|i: int| 0 <= i <= j implies (#[trigger] g1[m[x as int].1[i] as int]) is Some by {
                        if i < j {
                            assert(gb[m[x as int].1[i] as int] is Some);
                        }
                    }
                }
            }
            j = j + 1;
        }
        proof {
            assert forall|k: int|
                0 <= k < n && k != -1 && (#[trigger] self.g@[k]) is Some implies queued(
                    self.queue@,
                    k as u32,
                ) || forall|i: int|
                    0 <= i < m[k].1.len() ==> (#[trigger] self.g@[m[k].1[i] as int]) is Some by {
                if k != x as int {
                }
            }
            assert forall|k: u32| #[trigger] queued(q0, k) implies queued(self.queue@, k) by {
                let f = choose|f: u128| #[trigger] q0.contains((f, k));
                assert(q0.count((f, k)) <= self.queue@.count((f, k)));
                assert(self.queue@.contains((f, k)));
            }
        }
        found
    }
}

} // verus!
