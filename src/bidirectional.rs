//! Bidirectional A*: two searches, one from each end, whose newly reached
//! nodes go to an arbiter that reports the first node reached twice; the
//! route is stitched together through that node.

use vstd::prelude::*;
use vstd::multiset::Multiset;
use std::collections::HashSet;
use std::sync::mpsc::Sender;
use crate::a_star::reversed;
use crate::graph::{GraphModel, Node, OpenStreetMap, is_trail, is_walk, linked, reaches, symmetric};
use crate::params::Params;
use crate::search::{Search, Track, is_chain, queued};

verus! {

broadcast use vstd::std_specs::hash::group_hash_axioms;

/// The sending side of a `std::sync::mpsc` channel, carried as an opaque
/// value: a search hands its reports to the arbiter through it.
#[verifier::external_type_specification]
#[verifier::external_body]
#[verifier::reject_recursive_types(T)]
pub struct ExSender<T>(Sender<T>);

/// Relies on `std::sync::mpsc::Sender::send`, which fails only once the
/// receiving side has been dropped; whether it has depends on another
/// thread, so nothing is promised of the result.
#[verifier::external_body]
fn send_index(sender: &Sender<u32>, idx: u32) -> (delivered: bool) {
    sender.send(idx).is_ok()
}

/// The arbiter of a bidirectional search: remembers every node reported so
/// far and records the first one reported twice.
pub struct Middleman {
    traversed: HashSet<u32>,
    split: Option<u32>,
}

impl Middleman {
    /// The nodes reported so far.
    pub closed spec fn seen(&self) -> Set<u32> {
        self.traversed@
    }

    /// The first node reported twice, once there is one.
    pub closed spec fn spec_split(&self) -> Option<u32> {
        self.split
    }

    /// An arbiter that has seen nothing.
    pub fn new() -> (r: Middleman)
        ensures
            r.seen() == Set::<u32>::empty(),
            r.spec_split() is None,
    {
        Middleman { traversed: HashSet::new(), split: None }
    }

    /// Takes one report. Returns `true` once a meeting point is known (the
    /// searches should then stop); after that, reports change nothing.
    pub fn observe(&mut self, elem: u32) -> (stop: bool)
        ensures
            old(self).spec_split() is Some ==> stop && final(self).seen() == old(self).seen()
                && final(self).spec_split() == old(self).spec_split(),
            old(self).spec_split() is None && old(self).seen().contains(elem) ==> stop && final(self).seen() == old(self).seen() && final(self).spec_split() == Some(elem),
            old(self).spec_split() is None && !old(self).seen().contains(elem) ==> !stop && final(self).seen() == old(self).seen().insert(elem) && final(self).spec_split() is None,
    {
        if self.split.is_some() {
            return true;
        }
        let was_new = self.traversed.insert(elem);
        if !was_new {
            self.split = Some(elem);
            return true;
        }
        false
    }

    /// The meeting point, if one was found.
    pub fn get_split(&self) -> (r: Option<u32>)
        ensures
            r == self.spec_split(),
    {
        self.split
    }
}

/// Stitches the two halves of a bidirectional search together.
pub struct PathConstructor;

impl PathConstructor {
    /// The route from the root of `forward` to `split` (following its
    /// predecessors backwards), then on from `split` to the root of
    /// `backward`; `split` stands in it once.
    pub fn build_path(forward: &Track, backward: &Track, split: u32) -> (r: Vec<u32>)
        requires
            forward.valid(),
            backward.valid(),
            forward.model() == backward.model(),
            (split as int) < forward.model().len(),
            forward.knows(split),
            backward.knows(split),
        ensures
            exists|f: Seq<u32>, b: Seq<u32>|
                #![trigger is_chain(*forward, split, f), is_chain(*backward, split, b)]
                is_chain(*forward, split, f) && is_chain(*backward, split, b) && r@ == f.reverse()
                    + b.drop_first(),
            is_trail(forward.model(), r@),
            r@[0] == forward.spec_root(),
            r@.last() == backward.spec_root(),
            r@.contains(split),
            forall|i: int, j: int|
                0 <= i < r@.len() && 0 <= j < r@.len() && r@[i] == split && r@[j] == split ==> i == j,
    {
        let ghost m = forward.model();
        proof {
            forward.lemma_wf();
            backward.lemma_wf();
        }
        let fwd = forward.path_trace(split, Ghost(m));
        let mut vec = reversed(&fwd);
        let bwd = backward.path_trace(split, Ghost(m));
        let ghost head = vec@;
        let k = vec.len();
        let n = bwd.len();
        let mut i: usize = 1;
        proof {
            assert(head.last() == split);
        }
        while i < n
            invariant
                n == bwd@.len(),
                1 <= i <= n,
                k == head.len(),
                head == fwd@.reverse(),
                vec@ =~= head + bwd@.subrange(1, i as int),
            decreases n - i,
        {
            vec.push(bwd[i]);
            i = i + 1;
            proof {
                assert(vec@ =~= head + bwd@.subrange(1, i as int));
            }
        }
        proof {
            let r = vec@;
            let f = fwd@;
            let b = bwd@;
            let fl = f.len();
            assert(r[0] == f.last());
            assert forall|j: int| 0 <= j < r.len() implies (#[trigger] r[j] as int) < m.len() by {
                if j < k {
                    assert(r[j] == f[fl - 1 - j]);
                } else {
                    assert(r[j] == b[j - k + 1]);
                }
            }
            assert forall|j: int| 0 <= j < r.len() - 1 implies linked(m, r[j], #[trigger] r[j + 1]) by {
                if j < k - 1 {
                    let q = fl - 2 - j;
                    assert(r[j] == f[q + 1]);
                    assert(r[j + 1] == f[q]);
                    assert(m[f[q + 1] as int].1.contains(f[q]));
                } else if j == k - 1 {
                    assert(r[j] == f[0]);
                    assert(r[j + 1] == b[1]);
                    assert(m[b[1] as int].1.contains(b[0]));
                } else {
                    let q = j - k + 1;
                    assert(r[j] == b[q]);
                    assert(r[j + 1] == b[q + 1]);
                    assert(m[b[q + 1] as int].1.contains(b[q]));
                }
            }
            if n > 1 {
                assert(r.last() == b[n - 1]);
            } else {
                assert(r.last() == f[0]);
            }
            assert(r[k - 1] == f[0]);
            assert(b.drop_first() =~= b.subrange(1, n as int));
            assert(r == f.reverse() + b.drop_first());
            assert(is_chain(*forward, split, f) && is_chain(*backward, split, b));
            assert forall|i: int, j: int|
                0 <= i < r.len() && 0 <= j < r.len() && r[i] == split && r[j] == split implies i == j by {
                assert forall|q: int| 0 <= q < r.len() && r[q] == split implies q == k - 1 by {
                    if q < k {
                        assert(r[q] == f[fl - 1 - q]);
                        assert(f[0] == split);
                        if fl - 1 - q != 0 {
                            assert(f[fl - 1 - q] != f[0]);
                        }
                    } else {
                        assert(r[q] == b[q - k + 1]);
                        assert(b[0] == split);
                        assert(b[q - k + 1] != b[0]);
                    }
                }
            }
        }
        vec
    }
}

/// One half of a bidirectional search: A* from `init_node_id` toward
/// `goal_node_id` that reports each node the first time it is given a
/// predecessor. Stops when a report cannot be delivered (the arbiter has
/// found a meeting point), when it takes `goal_node_id` off its frontier,
/// or when the frontier runs empty. Returns what it found, whether every
/// report was delivered, and (as a ghost value) the reports handed to the
/// channel, in order.
///
/// The start is always expanded before anything is reported, so its
/// neighbors are always reached. When every report went through, the
/// search either reached `goal_node_id` or ran out of frontier, having
/// reached every neighbor of every node it reached. Each node is reported at
/// most once, the start never; every reported node has a predecessor, and
/// when every report went through, every node with a predecessor was
/// reported.
pub fn bi_path_helper<P: Params<Node>>(
    map: &OpenStreetMap,
    init_node_id: u32,
    goal_node_id: u32,
    node_sender: Sender<u32>,
    params: &P,
) -> (r: (Track, bool, Ghost<Seq<u32>>))
    requires
        map.wf(),
        (init_node_id as int) < map@.len(),
        (goal_node_id as int) < map@.len(),
    ensures
        r.0.valid(),
        r.0.model() == map@,
        r.0.spec_root() == init_node_id,
        init_node_id != goal_node_id ==> forall|j: int|
            0 <= j < map@[init_node_id as int].1.len() ==> r.0.knows(#[trigger] map@[init_node_id as int].1[j]),
        r.2@.no_duplicates(),
        forall|q: int|
            0 <= q < r.2@.len() ==> (#[trigger] r.2@[q] as int) < map@.len() && r.2@[q] != init_node_id
                && r.0@[r.2@[q] as int] is Some,
        r.1 ==> forall|k: u32| (k as int) < map@.len() && #[trigger] r.0@[k as int] is Some ==> r.2@.contains(k),
        r.1 ==> (r.0.knows(goal_node_id) || forall|k: u32, j: int|
            (k as int) < map@.len() && r.0.knows(k) && 0 <= j < map@[k as int].1.len() ==> r.0.knows(
                #[trigger] map@[k as int].1[j],
            )),
{
    let ghost m = map@;
    let mut search = Search::new(map, init_node_id);
    let goal_node = map.get(goal_node_id);
    let ghost init_queue = search.queue@;
    let ghost mut x_ex: int = -1;
    let ghost mut started: bool = false;
    let ghost mut sent: Seq<u32> = Seq::empty();
    let mut delivered = true;
    loop
        invariant_except_break
            search.inv(m),
            x_ex == -1,
            delivered,
            !started ==> search.queue@ == init_queue,
            forall|k: u32| (k as int) < m.len() && #[trigger] search.track@[k as int] is Some ==> sent.contains(k),
        invariant
            map.wf(),
            m == map@,
            (init_node_id as int) < m.len(),
            (goal_node_id as int) < m.len(),
            goal_node.location == m[goal_node_id as int].0,
            goal_node.connected@ == m[goal_node_id as int].1,
            search.inv_except(m, x_ex),
            search.track.root == init_node_id,
            init_queue == Multiset::<(u128, u32)>::empty().insert((u128::MAX, init_node_id)),
            sent.no_duplicates(),
            forall|q: int|
                0 <= q < sent.len() ==> (#[trigger] sent[q] as int) < m.len() && sent[q] != init_node_id
                    && search.track@[sent[q] as int] is Some,
            started && init_node_id != goal_node_id ==> forall|j: int|
                0 <= j < m[init_node_id as int].1.len() ==> (#[trigger] search.g@[m[init_node_id as int].1[j] as int]) is Some,
        ensures
            search.inv_except(m, x_ex),
            search.track.root == init_node_id,
            init_node_id != goal_node_id ==> started,
            started && init_node_id != goal_node_id ==> forall|j: int|
                0 <= j < m[init_node_id as int].1.len() ==> (#[trigger] search.g@[m[init_node_id as int].1[j] as int]) is Some,
            delivered ==> (search.g@[goal_node_id as int] is Some || (x_ex == -1 && search.queue@.len()
                == 0)),
            sent.no_duplicates(),
            forall|q: int|
                0 <= q < sent.len() ==> (#[trigger] sent[q] as int) < m.len() && sent[q] != init_node_id
                    && search.track@[sent[q] as int] is Some,
            delivered ==> forall|k: u32| (k as int) < m.len() && #[trigger] search.track@[k as int] is Some ==> sent.contains(k),
        decreases search.measure(m),
    {
        proof {
            crate::search::lemma_measure_nonneg(&search, m);
        }
        let ghost q0 = search.queue@;
        let ghost g0 = search.g@;
        match search.pop(Ghost(m)) {
            None => {
                proof {
                    if !started {
                        assert(init_queue.contains((u128::MAX, init_node_id)));
                    }
                }
                break ;
            },
            Some(e) => {
                let id = e.1;
                proof {
                    x_ex = id as int;
                    if !started {
                        assert(init_queue.count(e) > 0);
                        assert(e == (u128::MAX, init_node_id));
                    }
                }
                if id == goal_node_id {
                    break ;
                }
                let ghost t0 = search.track@;
                proof {
                    search.track.lemma_root_free(m);
                }
                let found = search.expand(map, params, id, goal_node);
                let ghost sent0 = sent;
                proof {
                    search.track.lemma_root_free(m);
                    assert forall|k: u32| (k as int) < m.len() && #[trigger] t0[k as int] is Some implies search.track@[k as int] is Some by {
                        assert(g0[k as int] is Some);
                        assert(k != init_node_id);
                    }
                    x_ex = -1;
                    crate::search::lemma_measure_nonneg(&search, m);
                    if started && init_node_id != goal_node_id {
                        assert forall|j: int| 0 <= j < m[init_node_id as int].1.len() implies (#[trigger] search.g@[m[init_node_id as int].1[j] as int]) is Some by {
                            assert(g0[m[init_node_id as int].1[j] as int] is Some);
                        }
                    }
                    started = true;
                }
                let mut i: usize = 0;
                while i < found.len()
                    invariant_except_break
                        delivered,
                        sent.len() == sent0.len() + i,
                    invariant
                        0 <= i <= found@.len(),
                        sent0.len() <= sent.len() <= sent0.len() + found@.len(),
                        forall|q: int| 0 <= q < sent0.len() ==> #[trigger] sent[q] == sent0[q],
                        forall|q: int|
                            sent0.len() <= q < sent.len() ==> #[trigger] sent[q] == found@[q - sent0.len()],
                    ensures
                        delivered ==> sent.len() == sent0.len() + found@.len(),
                        sent0.len() <= sent.len() <= sent0.len() + found@.len(),
                        forall|q: int| 0 <= q < sent0.len() ==> #[trigger] sent[q] == sent0[q],
                        forall|q: int|
                            sent0.len() <= q < sent.len() ==> #[trigger] sent[q] == found@[q - sent0.len()],
                    decreases found@.len() - i,
                {
                    proof {
                        sent = sent.push(found@[i as int]);
                    }
                    if !send_index(&node_sender, found[i]) {
                        delivered = false;
                        break ;
                    }
                    i = i + 1;
                }
                proof {
                    assert forall|q: int| 0 <= q < sent.len() implies (#[trigger] sent[q] as int) < m.len()
                        && sent[q] != init_node_id && search.track@[sent[q] as int] is Some by {
                        if q >= sent0.len() {
                            assert(sent[q] == found@[q - sent0.len()]);
                        } else {
                            assert(sent[q] == sent0[q]);
                            assert(t0[sent0[q] as int] is Some);
                        }
                    }
                    assert forall|a: int, b: int| 0 <= a < sent.len() && 0 <= b < sent.len() && a != b implies sent[a] != sent[b] by {
                        if a >= sent0.len() && b >= sent0.len() {
                            assert(sent[a] == found@[a - sent0.len()] && sent[b] == found@[b - sent0.len()]);
                        } else if a >= sent0.len() {
                            assert(sent[a] == found@[a - sent0.len()]);
                            assert(sent[b] == sent0[b]);
                            assert(t0[sent0[b] as int] is Some);
                        } else if b >= sent0.len() {
                            assert(sent[b] == found@[b - sent0.len()]);
                            assert(sent[a] == sent0[a]);
                            assert(t0[sent0[a] as int] is Some);
                        } else {
                            assert(sent[a] == sent0[a] && sent[b] == sent0[b]);
                        }
                    }
                    if delivered {
                        assert forall|k: u32| (k as int) < m.len() && #[trigger] search.track@[k as int] is Some implies sent.contains(k) by {
                            if t0[k as int] is Some {
                                assert(sent0.contains(k));
                                let q = choose|q: int| 0 <= q < sent0.len() && sent0[q] == k;
                                assert(sent[q] == k);
                            } else {
                                assert(found@.contains(k));
                                let q = choose|q: int| 0 <= q < found@.len() && found@[q] == k;
                                assert(sent[sent0.len() + q] == k);
                            }
                        }
                    }
                }
                if !delivered {
                    break ;
                }
            },
        }
    }
    proof {
        search.track.lemma_valid(m);
        let t = search.track;
        assert forall|k: u32| (k as int) < m.len() && (#[trigger] search.g@[k as int]) is Some implies t.knows(k) by {
            if k != init_node_id {
                assert(t@[k as int] is Some);
            }
        }
        assert forall|k: u32| (k as int) < m.len() && t.knows(k) implies (#[trigger] search.g@[k as int]) is Some by {
            if k != init_node_id {
                assert(t.preds@[k as int] is Some);
            }
        }
        if init_node_id != goal_node_id {
            assert forall|j: int| 0 <= j < m[init_node_id as int].1.len() implies t.knows(
                #[trigger] m[init_node_id as int].1[j],
            ) by {
                assert(search.g@[m[init_node_id as int].1[j] as int] is Some);
                assert((m[init_node_id as int].1[j] as int) < m.len());
            }
        }
        if delivered && !t.knows(goal_node_id) {
            assert(search.g@[goal_node_id as int] is None);
            assert forall|k: u32, j: int|
                (k as int) < m.len() && t.knows(k) && 0 <= j < m[k as int].1.len() implies t.knows(
                #[trigger] m[k as int].1[j],
            ) by {
                assert(search.g@[k as int] is Some);
                if queued(search.queue@, k) {
                    let f = choose|f: u128| #[trigger] search.queue@.contains((f, k));
                }
                assert(search.g@[m[k as int].1[j] as int] is Some);
                assert((m[k as int].1[j] as int) < m.len());
            }
        }
    }
    (search.track, delivered, Ghost(sent))
}

/// In an undirected graph, a route stitched by the bidirectional search is
/// also a walk along neighbor lists, so the one-sided search between the
/// same two nodes finds a route as well.
pub proof fn lemma_stitched_route_is_walk(m: GraphModel, p: Seq<u32>)
    requires
        symmetric(m),
        is_trail(m, p),
    ensures
        is_walk(m, p),
        reaches(m, p[0], p.last()),
{
    assert forall|i: int| 0 <= i < p.len() - 1 implies m[p[i] as int].1.contains(#[trigger] p[i + 1]) by {
        assert(linked(m, p[i], p[i + 1]));
        assert((p[i] as int) < m.len());
    }
    assert(is_walk(m, p));
}

} // verus!
