//! Single-directional A* search.

use vstd::prelude::*;
use crate::graph::{GraphModel, Location, OpenStreetMap, is_walk, reaches};
use crate::params::SimpleParams;
use crate::search::{Search, Track, is_chain, queued};

verus! {

/// `ids` is a walk of `m` from `from` to `to`.
pub open spec fn is_route(m: GraphModel, ids: Seq<u32>, from: u32, to: u32) -> bool {
    is_walk(m, ids) && ids[0] == from && ids.last() == to
}

/// A route through a graph: node indices from origin to destination, both
/// included, and the graph that gives them coordinates.
pub struct Path<'a> {
    pub ids: Vec<u32>,
    pub parent_map: &'a OpenStreetMap,
}

/// The elements of `v` in reverse order.
pub fn reversed(v: &Vec<u32>) -> (r: Vec<u32>)
    ensures
        r@ == v@.reverse(),
{
    let n = v.len();
    let mut r: Vec<u32> = Vec::new();
    let mut i: usize = n;
    while i > 0
        invariant
            n == v@.len(),
            0 <= i <= n,
            r@.len() == n - i,
            forall|k: int| 0 <= k < n - i ==> #[trigger] r@[k] == v@[n - 1 - k],
        decreases i,
    {
        i = i - 1;
        r.push(v[i]);
    }
    proof {
        assert(r@ =~= v@.reverse());
    }
    r
}

/// Reversing a walk that goes against the links gives a walk.
proof fn lemma_reverse_walk(m: GraphModel, back: Seq<u32>)
    requires
        back.len() >= 1,
        forall|i: int| 0 <= i < back.len() ==> (#[trigger] back[i] as int) < m.len(),
        forall|i: int| 0 <= i < back.len() - 1 ==> m[back[i + 1] as int].1.contains(#[trigger] back[i]),
    ensures
        is_walk(m, back.reverse()),
        back.reverse()[0] == back.last(),
        back.reverse().last() == back[0],
{
    let r = back.reverse();
    let n = back.len();
    assert forall|i: int| 0 <= i < r.len() - 1 implies m[r[i] as int].1.contains(#[trigger] r[i + 1]) by {
        let k = n - 2 - i;
        assert(r[i] == back[k + 1]);
        assert(r[i + 1] == back[k]);
    }
    assert forall|i: int| 0 <= i < r.len() implies (#[trigger] r[i] as int) < m.len() by {
        assert(r[i] == back[n - 1 - i]);
    }
}

/// Reversing twice gives the sequence back, and reversing keeps a sequence
/// free of repeats.
proof fn lemma_reverse_facts(s: Seq<u32>)
    ensures
        s.reverse().reverse() == s,
        s.no_duplicates() ==> s.reverse().no_duplicates(),
{
    assert(s.reverse().reverse() =~= s);
    let r = s.reverse();
    if s.no_duplicates() {
        assert forall|i: int, j: int| 0 <= i < r.len() && 0 <= j < r.len() && i != j implies r[i] != r[j] by {
            assert(r[i] == s[s.len() - 1 - i] && r[j] == s[s.len() - 1 - j]);
        }
    }
}

/// The route from the root of `track` to `init`, as a path of `osm`: the
/// chain of predecessors from `init`, reversed.
fn construct_path<'a>(init: u32, track: &Track, osm: &'a OpenStreetMap) -> (r: Path<'a>)
    requires
        track.wf(osm@),
        (init as int) < osm@.len(),
        track.knows(init),
    ensures
        r.parent_map == osm,
        is_chain(*track, init, r.ids@.reverse()),
        r.ids@.no_duplicates(),
        is_route(osm@, r.ids@, track.spec_root(), init),
{
    let back = track.path_trace(init, Ghost(osm@));
    let ids = reversed(&back);
    proof {
        lemma_reverse_walk(osm@, back@);
        lemma_reverse_facts(back@);
    }
    Path { ids, parent_map: osm }
}

/// Every walk that starts inside a set of nodes closed under the neighbor
/// relation stays inside it.
proof fn lemma_closed_walk(m: GraphModel, g: Seq<Option<u128>>, p: Seq<u32>)
    requires
        g.len() == m.len(),
        is_walk(m, p),
        g[p[0] as int] is Some,
        forall|k: int|
            0 <= k < m.len() && (#[trigger] g[k]) is Some ==> forall|j: int|
                0 <= j < m[k].1.len() ==> (#[trigger] g[m[k].1[j] as int]) is Some,
    ensures
        g[p.last() as int] is Some,
    decreases p.len(),
{
    if p.len() > 1 {
        let d = p.drop_last();
        assert forall|i: int| 0 <= i < d.len() - 1 implies m[d[i] as int].1.contains(#[trigger] d[i + 1]) by {
            assert(d[i] == p[i] && d[i + 1] == p[i + 1]);
        }
        assert forall|i: int| 0 <= i < d.len() implies (#[trigger] d[i] as int) < m.len() by {
            assert(d[i] == p[i]);
        }
        lemma_closed_walk(m, g, d);
        let a = p[p.len() - 2];
        assert(d.last() == a);
        let i = p.len() - 2;
        assert(m[p[i] as int].1.contains(p[i + 1]));
        let j = choose|j: int| 0 <= j < m[a as int].1.len() && m[a as int].1[j] == p.last();
        assert(g[m[a as int].1[j] as int] is Some);
    }
}

/// A* from `init_node` to `goal_node`, with squared planar distance as step
/// cost and as heuristic. Returns a route between them exactly when one
/// exists.
pub fn path<'a>(map: &'a OpenStreetMap, init_node: u32, goal_node: u32) -> (r: Option<Path<'a>>)
    requires
        map.wf(),
        (init_node as int) < map@.len(),
        (goal_node as int) < map@.len(),
    ensures
        r matches Some(p) ==> p.parent_map == map && is_route(map@, p.ids@, init_node, goal_node),
        r matches Some(p) ==> p.ids@.no_duplicates(),
        r is None <==> !reaches(map@, init_node, goal_node),
{
    let ghost m = map@;
    let mut search = Search::new(map, init_node);
    let goal = map.get(goal_node);
    let params = SimpleParams;
    proof {
        if goal_node == init_node {
            assert(search.queue@.contains((u128::MAX, init_node)));
        }
    }
    loop
        invariant
            map.wf(),
            m == map@,
            (goal_node as int) < m.len(),
            goal.location == m[goal_node as int].0,
            goal.connected@ == m[goal_node as int].1,
            search.inv(m),
            search.track.root == init_node,
            search.g@[goal_node as int] is Some ==> queued(search.queue@, goal_node),
        decreases search.measure(m),
    {
        proof {
            crate::search::lemma_measure_nonneg(&search, m);
        }
        let ghost q0 = search.queue@;
        match search.pop(Ghost(m)) {
            None => {
                proof {
                    assert(search.g@[goal_node as int] is None) by {
                        if search.g@[goal_node as int] is Some {
                            let f = choose|f: u128| #[trigger] q0.contains((f, goal_node));
                        }
                    }
                    assert forall|k: int|
                        0 <= k < m.len() && (#[trigger] search.g@[k]) is Some implies forall|j: int|
                            0 <= j < m[k].1.len() ==> (#[trigger] search.g@[m[k].1[j] as int]) is Some by {
                        if queued(search.queue@, k as u32) {
                            let f = choose|f: u128| #[trigger] search.queue@.contains((f, k as u32));
                        }
                    }
                    assert forall|p: Seq<u32>| #[trigger] is_walk(m, p) && p[0] == init_node implies p.last() != goal_node by {
                        lemma_closed_walk(m, search.g@, p);
                    }
                }
                return None;
            },
            Some(e) => {
                let id = e.1;
                if id == goal_node {
                    let p = construct_path(id, &search.track, map);
                    proof {
                        assert(is_walk(m, p.ids@));
                    }
                    return Some(p);
                }
                proof {
                    if search.g@[goal_node as int] is Some {
                        let f = choose|f: u128| #[trigger] q0.contains((f, goal_node));
                        assert(search.queue@.count((f, goal_node)) == q0.count((f, goal_node)));
                        assert(search.queue@.contains((f, goal_node)));
                    }
                }
                let ghost g1 = search.g@;
                let ghost q1 = search.queue@;
                search.expand(map, &params, id, goal);
                proof {
                    if search.g@[goal_node as int] is Some {
                        if search.g@[goal_node as int] == g1[goal_node as int] {
                            assert(queued(q1, goal_node));
                        }
                    }
                }
                proof {
                    crate::search::lemma_measure_nonneg(&search, m);
                }
            },
        }
    }
}

/// The length of a route: the sum of `step` over consecutive nodes'
/// locations.
pub open spec fn route_length(
    m: GraphModel,
    ids: Seq<u32>,
    step: spec_fn(Location, Location) -> int,
) -> int
    decreases ids.len(),
{
    if ids.len() < 2 {
        0
    } else {
        route_length(m, ids.drop_last(), step) + step(m[ids[ids.len() - 2] as int].0, m[ids.last() as int].0)
    }
}

proof fn lemma_length_front(m: GraphModel, x: u32, s: Seq<u32>, step: spec_fn(Location, Location) -> int)
    requires
        s.len() >= 1,
    ensures
        route_length(m, seq![x] + s, step) == step(m[x as int].0, m[s[0] as int].0) + route_length(m, s, step),
    decreases s.len(),
{
    let c = seq![x] + s;
    if s.len() >= 2 {
        assert(c.drop_last() =~= seq![x] + s.drop_last());
        lemma_length_front(m, x, s.drop_last(), step);
        assert(c[c.len() - 2] == s[s.len() - 2]);
        assert(c.last() == s.last());
        assert(s.drop_last()[0] == s[0]);
        assert(route_length(m, s, step) == route_length(m, s.drop_last(), step) + step(m[s[s.len() - 2] as int].0, m[s.last() as int].0));
    } else {
        assert(c.drop_last() =~= seq![x]);
        assert(c[0] == x && c[1] == s[0]);
        assert(route_length(m, seq![x], step) == 0);
        assert(route_length(m, s, step) == 0);
    }
}

/// A route and its reverse have the same length, for any step length that
/// does not depend on direction (the planar distance, or its square).
pub proof fn lemma_length_reverse(m: GraphModel, ids: Seq<u32>, step: spec_fn(Location, Location) -> int)
    requires
        forall|a: Location, b: Location| #[trigger] step(a, b) == step(b, a),
    ensures
        route_length(m, ids.reverse(), step) == route_length(m, ids, step),
    decreases ids.len(),
{
    if ids.len() >= 2 {
        let d = ids.drop_last();
        lemma_length_reverse(m, d, step);
        assert(ids.reverse() =~= seq![ids.last()] + d.reverse());
        lemma_length_front(m, ids.last(), d.reverse(), step);
        assert(d.reverse()[0] == ids[ids.len() - 2]);
        assert(step(m[ids.last() as int].0, m[ids[ids.len() - 2] as int].0) == step(m[ids[ids.len() - 2] as int].0, m[ids.last() as int].0));
    } else if ids.len() == 1 {
        assert(ids.reverse() =~= ids);
    } else {
        assert(ids.reverse() =~= ids);
    }
}

} // verus!
