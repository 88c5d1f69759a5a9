//! Construction of a graph from raw map records: nodes that lie on a
//! highway way are indexed in the order they come, and each highway way
//! links each of its nodes to the nodes before and after it.

use vstd::prelude::*;
use std::collections::{HashMap, HashSet};
use crate::compact_array::{CompactVec, MAX_COMPACT_LEN};
use crate::graph::{GraphModel, Location, Node, OpenStreetMap, symmetric};

verus! {

broadcast use vstd::std_specs::hash::group_hash_axioms;

/// A node record of the map source: its map identifier and location.
pub struct RawNode {
    pub id: i64,
    pub location: Location,
}

/// A way record of the map source: the identifiers of its nodes, in order,
/// and its tags as key/value pairs.
pub struct RawWay {
    pub refs: Vec<i64>,
    pub tags: Vec<(String, String)>,
}

/// Why raw records could not be made into a graph.
#[derive(Debug, Clone, Copy, PartialEq, Eq, Structural)]
pub enum BuildError {
    /// More nodes lie on highway ways than `u32` indices can number.
    TooManyNodes,
    /// A highway way names a node that no node record gives.
    MissingNode,
    /// A node would have more than 255 neighbor entries.
    DegreeOverflow,
}

/// The tag set marks a road: some key is `highway`.
pub open spec fn is_highway(tags: Seq<(String, String)>) -> bool {
    exists|i: int| 0 <= i < tags.len() && (#[trigger] tags[i]).0@ == "highway"@
}

/// Way `a` is a highway and its `b`-th node is `id`.
pub open spec fn ref_at(ways: Seq<RawWay>, a: int, b: int, id: i64) -> bool {
    &&& 0 <= a < ways.len()
    &&& is_highway(ways[a].tags@)
    &&& 0 <= b < ways[a].refs@.len()
    &&& ways[a].refs@[b] == id
}

/// The identifiers named by highway ways before way `w`, and by way `w`
/// before its `j`-th node.
pub open spec fn ids_upto(ways: Seq<RawWay>, w: int, j: int) -> Set<i64> {
    Set::new(|id: i64| exists|a: int, b: int| #[trigger] ref_at(ways, a, b, id) && (a < w || (a == w && b < j)))
}

/// The identifiers named by some highway way.
pub open spec fn highway_ids(ways: Seq<RawWay>) -> Set<i64> {
    ids_upto(ways, ways.len() as int, 0)
}

/// The node records whose identifier is in `valid`, in order.
pub open spec fn kept(nodes: Seq<RawNode>, valid: Set<i64>) -> Seq<RawNode>
    decreases nodes.len(),
{
    if nodes.len() == 0 {
        Seq::empty()
    } else {
        let prev = kept(nodes.drop_last(), valid);
        if valid.contains(nodes.last().id) {
            prev.push(nodes.last())
        } else {
            prev
        }
    }
}

/// The index given to each identifier: its last position among `k`.
pub open spec fn idx_map(k: Seq<RawNode>) -> Map<i64, u32>
    decreases k.len(),
{
    if k.len() == 0 {
        Map::empty()
    } else {
        idx_map(k.drop_last()).insert(k.last().id, (k.len() - 1) as u32)
    }
}

/// What node at position `t` of a way `r` (of two nodes or more) gains:
/// the nodes next to it in the way.
pub open spec fn gain(r: Seq<u32>, t: int) -> Seq<u32> {
    let k = r.len() - 1;
    if t == 0 {
        seq![r[1]]
    } else if t == k {
        seq![r[k - 1]]
    } else {
        seq![r[t - 1], r[t + 1]]
    }
}

/// Neighbor lists after the nodes at positions before `t` of way `r` have
/// gained their neighbors.
pub open spec fn add_steps(adj: Seq<Seq<u32>>, r: Seq<u32>, t: nat) -> Seq<Seq<u32>>
    decreases t,
{
    if t == 0 {
        adj
    } else {
        let a = add_steps(adj, r, (t - 1) as nat);
        let v = r[t - 1] as int;
        a.update(v, a[v] + gain(r, t - 1))
    }
}

/// Neighbor lists after way `r` (renumbered) is added.
pub open spec fn add_way(adj: Seq<Seq<u32>>, r: Seq<u32>) -> Seq<Seq<u32>> {
    if r.len() <= 1 {
        adj
    } else {
        add_steps(adj, r, r.len())
    }
}

/// The nodes of a way renumbered through `idx`.
pub open spec fn mapped(r: Seq<i64>, idx: Map<i64, u32>) -> Seq<u32> {
    r.map_values(|x: i64| idx[x])
}

/// Neighbor lists of `n` nodes after the first `w` ways.
pub open spec fn adj_after(ways: Seq<RawWay>, w: nat, idx: Map<i64, u32>, n: nat) -> Seq<Seq<u32>>
    decreases w,
{
    if w == 0 {
        Seq::new(n, |i: int| Seq::<u32>::empty())
    } else {
        let a = adj_after(ways, (w - 1) as nat, idx, n);
        if is_highway(ways[w - 1].tags@) {
            add_way(a, mapped(ways[w - 1].refs@, idx))
        } else {
            a
        }
    }
}

/// The indexed node records of a construction.
pub open spec fn built_nodes(nodes: Seq<RawNode>, ways: Seq<RawWay>) -> Seq<RawNode> {
    kept(nodes, highway_ids(ways))
}

/// The final neighbor lists of a construction.
pub open spec fn built_adj(nodes: Seq<RawNode>, ways: Seq<RawWay>) -> Seq<Seq<u32>> {
    let k = built_nodes(nodes, ways);
    adj_after(ways, ways.len(), idx_map(k), k.len())
}

/// The graph a construction yields.
pub open spec fn built_model(nodes: Seq<RawNode>, ways: Seq<RawWay>) -> GraphModel {
    let k = built_nodes(nodes, ways);
    let adj = built_adj(nodes, ways);
    Seq::new(k.len(), |i: int| (k[i].location, adj[i]))
}

/// Every node a highway way names has a node record.
pub open spec fn refs_present(nodes: Seq<RawNode>, ways: Seq<RawWay>) -> bool {
    forall|a: int, b: int, id: i64|
        #[trigger] ref_at(ways, a, b, id) ==> idx_map(built_nodes(nodes, ways)).contains_key(id)
}

/// No node gets more than 255 neighbor entries.
pub open spec fn degrees_fit(adj: Seq<Seq<u32>>) -> bool {
    forall|i: int| 0 <= i < adj.len() ==> (#[trigger] adj[i]).len() <= MAX_COMPACT_LEN
}

/// Whether the tags mark a road.
pub fn valid_way(tags: &Vec<(String, String)>) -> (r: bool)
    ensures
        r == is_highway(tags@),
{
    let highway = "highway".to_owned();
    let mut i: usize = 0;
    while i < tags.len()
        invariant
            0 <= i <= tags@.len(),
            highway@ == "highway"@,
            forall|k: int| 0 <= k < i ==> (#[trigger] tags@[k]).0@ != "highway"@,
        decreases tags@.len() - i,
    {
        if tags[i].0 == highway {
            return true;
        }
        i = i + 1;
    }
    false
}

/// The identifiers of all nodes that highway ways name.
pub fn parse_highway_nodes(ways: &Vec<RawWay>) -> (r: HashSet<i64>)
    ensures
        r@ == highway_ids(ways@),
{
    let ghost w = ways@;
    let mut valid: HashSet<i64> = HashSet::new();
    let mut a: usize = 0;
    proof {
        assert(valid@ =~= ids_upto(w, 0, 0));
    }
    while a < ways.len()
        invariant
            w == ways@,
            0 <= a <= w.len(),
            valid@ == ids_upto(w, a as int, 0),
        decreases w.len() - a,
    {
        let way = &ways[a];
        if valid_way(&way.tags) {
            let mut b: usize = 0;
            while b < way.refs.len()
                invariant
                    w == ways@,
                    0 <= a < w.len(),
                    *way == w[a as int],
                    is_highway(way.tags@),
                    0 <= b <= way.refs@.len(),
                    valid@ == ids_upto(w, a as int, b as int),
                decreases way.refs@.len() - b,
            {
                let id = way.refs[b];
                valid.insert(id);
                proof {
                    assert(ref_at(w, a as int, b as int, id));
                    assert(valid@ =~= ids_upto(w, a as int, b + 1));
                }
                b = b + 1;
            }
            proof {
                assert(valid@ =~= ids_upto(w, a + 1, 0));
            }
        } else {
            proof {
                assert(valid@ =~= ids_upto(w, a + 1, 0));
            }
        }
        a = a + 1;
    }
    valid
}

/// The neighbor lists of a list of nodes.
pub open spec fn adj_of(nodes: Seq<Node>) -> Seq<Seq<u32>> {
    Seq::new(nodes.len(), |i: int| nodes[i].connected@)
}

proof fn lemma_kept_prefix(s: Seq<RawNode>, valid: Set<i64>, i: int)
    requires
        0 <= i <= s.len(),
    ensures
        kept(s.subrange(0, i), valid).len() <= kept(s, valid).len(),
    decreases s.len(),
{
    if i < s.len() {
        assert(s.drop_last().subrange(0, i) =~= s.subrange(0, i));
        lemma_kept_prefix(s.drop_last(), valid, i);
    } else {
        assert(s.subrange(0, i) =~= s);
    }
}

proof fn lemma_idx_bound(k: Seq<RawNode>)
    ensures
        forall|id: i64| #[trigger] idx_map(k).contains_key(id) ==> (idx_map(k)[id] as int) < k.len(),
    decreases k.len(),
{
    if k.len() > 0 {
        lemma_idx_bound(k.drop_last());
        assert forall|id: i64| #[trigger] idx_map(k).contains_key(id) implies (idx_map(k)[id] as int) < k.len() by {
            if id != k.last().id {
                assert(idx_map(k.drop_last()).contains_key(id));
            }
        }
    }
}

/// All of `r` are below `n`.
pub open spec fn below(r: Seq<u32>, n: int) -> bool {
    forall|t: int| 0 <= t < r.len() ==> (#[trigger] r[t] as int) < n
}

proof fn lemma_steps_mono(adj: Seq<Seq<u32>>, r: Seq<u32>, t1: nat, t2: nat, v: int)
    requires
        t1 <= t2 <= r.len(),
        r.len() >= 2,
        below(r, adj.len() as int),
        0 <= v < adj.len(),
    ensures
        add_steps(adj, r, t2).len() == adj.len(),
        add_steps(adj, r, t1)[v].len() <= add_steps(adj, r, t2)[v].len(),
    decreases t2,
{
    if t2 > 0 {
        let t1b: nat = if t1 < t2 {
            t1
        } else {
            (t2 - 1) as nat
        };
        lemma_steps_mono(adj, r, t1b, (t2 - 1) as nat, v);
    }
}

proof fn lemma_after_mono(ways: Seq<RawWay>, w1: nat, w2: nat, idx: Map<i64, u32>, n: nat, v: int)
    requires
        w1 <= w2 <= ways.len(),
        0 <= v < n,
        forall|a: int|
            0 <= a < ways.len() && is_highway(ways[a].tags@) ==> below(
                #[trigger] mapped(ways[a].refs@, idx),
                n as int,
            ),
    ensures
        adj_after(ways, w2, idx, n).len() == n,
        adj_after(ways, w1, idx, n)[v].len() <= adj_after(ways, w2, idx, n)[v].len(),
    decreases w2,
{
    if w2 > 0 {
        let w1b: nat = if w1 < w2 {
            w1
        } else {
            (w2 - 1) as nat
        };
        lemma_after_mono(ways, w1b, (w2 - 1) as nat, idx, n, v);
        let a = adj_after(ways, (w2 - 1) as nat, idx, n);
        if is_highway(ways[w2 - 1].tags@) {
            let r = mapped(ways[w2 - 1].refs@, idx);
            if r.len() > 1 {
                lemma_steps_mono(a, r, 0, r.len(), v);
            }
        }
    }
}

fn lookup(map: &HashMap<i64, u32>, id: i64) -> (r: u32)
    requires
        map@.contains_key(id),
    ensures
        r == map@[id],
{
    match map.get(&id) {
        Some(v) => *v,
        None => 0,
    }
}

/// Adds the links of one way: if its tags mark a highway, each of its nodes
/// gets the nodes before and after it in the way. Fails, leaving the lists
/// partly extended, when a list would grow past 255 entries.
fn process_way(
    id_to_idx: &HashMap<i64, u32>,
    idx_to_node: &mut Vec<Node>,
    way: &RawWay,
    Ghost(idx): Ghost<Map<i64, u32>>,
    Ghost(n): Ghost<nat>,
) -> (r: Result<(), BuildError>)
    requires
        idx == id_to_idx@,
        old(idx_to_node)@.len() == n,
        is_highway(way.tags@) ==> forall|b: int| 0 <= b < way.refs@.len() ==> idx.contains_key(#[trigger] way.refs@[b]),
        is_highway(way.tags@) ==> below(mapped(way.refs@, idx), n as int),
        forall|q: int| 0 <= q < n ==> (#[trigger] adj_of(old(idx_to_node)@)[q]).len() <= MAX_COMPACT_LEN,
        forall|q: int, j: int|
            0 <= q < n && 0 <= j < adj_of(old(idx_to_node)@)[q].len() ==> (#[trigger] adj_of(old(idx_to_node)@)[q][j] as int) < n,
    ensures
        final(idx_to_node)@.len() == n,
        forall|q: int| 0 <= q < n ==> (#[trigger] final(idx_to_node)@[q]).location == old(idx_to_node)@[q].location,
        r is Ok ==> adj_of(final(idx_to_node)@) == (if is_highway(way.tags@) {
            add_way(adj_of(old(idx_to_node)@), mapped(way.refs@, idx))
        } else {
            adj_of(old(idx_to_node)@)
        }),
        r is Ok ==> forall|q: int| 0 <= q < n ==> (#[trigger] adj_of(final(idx_to_node)@)[q]).len() <= MAX_COMPACT_LEN,
        r is Ok ==> forall|q: int, j: int|
            0 <= q < n && 0 <= j < adj_of(final(idx_to_node)@)[q].len() ==> (#[trigger] adj_of(final(idx_to_node)@)[q][j] as int) < n,
        r is Err ==> r == Err::<(), BuildError>(BuildError::DegreeOverflow) && is_highway(way.tags@) && exists|v: int|
            0 <= v < n && #[trigger] add_way(adj_of(old(idx_to_node)@), mapped(way.refs@, idx))[v].len() > MAX_COMPACT_LEN,
{
    if !valid_way(&way.tags) {
        return Ok(());
    }
    let mut r: Vec<u32> = Vec::new();
    let mut b: usize = 0;
    while b < way.refs.len()
        invariant
            idx == id_to_idx@,
            is_highway(way.tags@),
            forall|c: int| 0 <= c < way.refs@.len() ==> idx.contains_key(#[trigger] way.refs@[c]),
            0 <= b <= way.refs@.len(),
            r@ =~= Seq::new(b as nat, |t: int| idx[way.refs@[t]]),
        decreases way.refs@.len() - b,
    {
        r.push(lookup(id_to_idx, way.refs[b]));
        b = b + 1;
    }
    let ghost rs = r@;
    proof {
        assert(rs =~= mapped(way.refs@, idx));
    }
    let rl = r.len();
    if rl <= 1 {
        return Ok(());
    }
    let ghost base = adj_of(idx_to_node@);
    let mut t: usize = 0;
    while t < rl
        invariant
            is_highway(way.tags@),
            rs == mapped(way.refs@, idx),
            rs == r@,
            rl == rs.len(),
            rl >= 2,
            below(rs, n as int),
            base == adj_of(old(idx_to_node)@),
            base.len() == n,
            0 <= t <= rl,
            idx_to_node@.len() == n,
            forall|q: int| 0 <= q < n ==> (#[trigger] idx_to_node@[q]).location == old(idx_to_node)@[q].location,
            adj_of(idx_to_node@) == add_steps(base, rs, t as nat),
            forall|q: int| 0 <= q < n ==> (#[trigger] adj_of(idx_to_node@)[q]).len() <= MAX_COMPACT_LEN,
            forall|q: int, j: int|
                0 <= q < n && 0 <= j < adj_of(idx_to_node@)[q].len() ==> (#[trigger] adj_of(
                    idx_to_node@,
                )[q][j] as int) < n,
        decreases rl - t,
    {
        let v = r[t] as usize;
        let cur = idx_to_node[v].connected.len();
        let ghost before = idx_to_node@;
        let room: u8 = if t == 0 || t == rl - 1 {
            1
        } else {
            2
        };
        if cur as usize + room as usize > MAX_COMPACT_LEN {
            proof {
                assert(adj_of(before)[v as int].len() == cur);
                lemma_steps_mono(base, rs, (t + 1) as nat, rl as nat, v as int);
                assert(add_way(base, rs)[v as int].len() > MAX_COMPACT_LEN);
                assert((v as int) < n);
            }
            return Err(BuildError::DegreeOverflow);
        }
        if t == 0 {
            idx_to_node[v].connected.push(r[1]);
        } else if t == rl - 1 {
            idx_to_node[v].connected.push(r[rl - 2]);
        } else {
            idx_to_node[v].connected.push2(r[t - 1], r[t + 1]);
        }
        proof {
            assert(adj_of(idx_to_node@) =~= add_steps(base, rs, (t + 1) as nat)) by {
                assert forall|q: int| 0 <= q < n implies #[trigger] adj_of(idx_to_node@)[q] == add_steps(base, rs, (t + 1) as nat)[q] by {
                    if q != v as int {
                        assert(idx_to_node@[q] == before[q]);
                    }
                }
            }
            assert forall|q: int, j: int|
                0 <= q < n && 0 <= j < adj_of(idx_to_node@)[q].len() implies (#[trigger] adj_of(
                    idx_to_node@,
                )[q][j] as int) < n by {
                if q != v as int {
                    assert(idx_to_node@[q] == before[q]);
                } else if j >= adj_of(before)[q].len() {
                    assert(below(rs, n as int));
                } else {
                    assert(adj_of(idx_to_node@)[q][j] == adj_of(before)[q][j]);
                }
            }
            assert forall|q: int| 0 <= q < n implies (#[trigger] adj_of(idx_to_node@)[q]).len() <= MAX_COMPACT_LEN by {
                if q != v as int {
                    assert(idx_to_node@[q] == before[q]);
                }
            }
            assert forall|q: int| 0 <= q < n implies (#[trigger] idx_to_node@[q]).location == old(idx_to_node)@[q].location by {
                if q != v as int {
                    assert(idx_to_node@[q] == before[q]);
                }
            }
        }
        t = t + 1;
    }
    Ok(())
}

impl OpenStreetMap {
    /// Builds the graph of the highway network that the records describe:
    /// nodes named by a highway way are indexed in record order, and along
    /// each highway way every node gets the nodes before and after it as
    /// neighbors (repeats kept).
    pub fn parse(nodes: &Vec<RawNode>, ways: &Vec<RawWay>) -> (r: Result<OpenStreetMap, BuildError>)
        ensures
            (r == Err::<OpenStreetMap, BuildError>(BuildError::TooManyNodes)) <==> built_nodes(
                nodes@,
                ways@,
            ).len() > u32::MAX,
            (r == Err::<OpenStreetMap, BuildError>(BuildError::MissingNode)) <==> (built_nodes(
                nodes@,
                ways@,
            ).len() <= u32::MAX && !refs_present(nodes@, ways@)),
            (r == Err::<OpenStreetMap, BuildError>(BuildError::DegreeOverflow)) <==> (built_nodes(
                nodes@,
                ways@,
            ).len() <= u32::MAX && refs_present(nodes@, ways@) && !degrees_fit(
                built_adj(nodes@, ways@),
            )),
            r matches Ok(g) ==> g.wf() && g@ == built_model(nodes@, ways@),
    {
        let ghost ns = nodes@;
        let ghost ws = ways@;
        let valid = parse_highway_nodes(ways);
        let ghost vs = valid@;
        let ghost k = kept(ns, vs);
        let mut id_to_idx: HashMap<i64, u32> = HashMap::new();
        let mut idx_to_node: Vec<Node> = Vec::new();
        let mut i: usize = 0;
        proof {
            assert(ns.subrange(0, 0) =~= Seq::<RawNode>::empty());
            assert(id_to_idx@ =~= idx_map(kept(ns.subrange(0, 0), vs)));
        }
        while i < nodes.len()
            invariant
                ns == nodes@,
                vs == valid@,
                vs == highway_ids(ways@),
                0 <= i <= ns.len(),
                idx_to_node@.len() == kept(ns.subrange(0, i as int), vs).len(),
                idx_to_node@.len() <= u32::MAX,
                forall|q: int|
                    0 <= q < idx_to_node@.len() ==> (#[trigger] idx_to_node@[q]).location == kept(
                        ns.subrange(0, i as int),
                        vs,
                    )[q].location && idx_to_node@[q].connected@ == Seq::<u32>::empty(),
                id_to_idx@ == idx_map(kept(ns.subrange(0, i as int), vs)),
            decreases ns.len() - i,
        {
            let rn = &nodes[i];
            proof {
                assert(ns.subrange(0, i + 1).drop_last() =~= ns.subrange(0, i as int));
                assert(ns.subrange(0, i + 1).last() == *rn);
            }
            if valid.contains(&rn.id) {
                let len = idx_to_node.len();
                if len == u32::MAX as usize {
                    proof {
                        lemma_kept_prefix(ns, vs, i + 1);
                        assert(kept(ns.subrange(0, i + 1), vs).len() == len + 1);
                    }
                    return Err(BuildError::TooManyNodes);
                }
                let ghost kb = kept(ns.subrange(0, i as int), vs);
                id_to_idx.insert(rn.id, len as u32);
                idx_to_node.push(Node { connected: CompactVec::empty(), location: rn.location });
                proof {
                    assert(kept(ns.subrange(0, i + 1), vs) == kb.push(*rn));
                    assert(kb.push(*rn).drop_last() =~= kb);
                }
            }
            i = i + 1;
        }
        proof {
            assert(ns.subrange(0, ns.len() as int) =~= ns);
            lemma_idx_bound(k);
        }
        let ghost idx = id_to_idx@;
        let n = idx_to_node.len();
        let mut a: usize = 0;
        while a < ways.len()
            invariant
                ws == ways@,
                vs == valid@,
                vs == highway_ids(ws),
                k == kept(ns, vs),
                ns == nodes@,
                idx == id_to_idx@,
                idx == idx_map(k),
                n == k.len(),
                n <= u32::MAX,
                0 <= a <= ws.len(),
                forall|x: int, b: int, id: i64| x < a && #[trigger] ref_at(ws, x, b, id) ==> idx.contains_key(id),
            decreases ws.len() - a,
        {
            let way = &ways[a];
            if valid_way(&way.tags) {
                let mut b: usize = 0;
                while b < way.refs.len()
                    invariant
                        ws == ways@,
                        vs == highway_ids(ws),
                        k == kept(ns, vs),
                        ns == nodes@,
                        idx == idx_map(k),
                        n == k.len(),
                        n <= u32::MAX,
                        idx == id_to_idx@,
                        0 <= a < ws.len(),
                        *way == ws[a as int],
                        is_highway(way.tags@),
                        0 <= b <= way.refs@.len(),
                        forall|x: int, c: int, id: i64|
                            (x < a || (x == a && c < b)) && #[trigger] ref_at(ws, x, c, id) ==> idx.contains_key(id),
                    decreases way.refs@.len() - b,
                {
                    if !id_to_idx.contains_key(&way.refs[b]) {
                        proof {
                            assert(ref_at(ws, a as int, b as int, way.refs@[b as int]));
                            assert(!idx.contains_key(way.refs@[b as int]));
                            assert(built_nodes(ns, ws) == k);
                        }
                        return Err(BuildError::MissingNode);
                    }
                    b = b + 1;
                }
            }
            a = a + 1;
        }
        proof {
            assert(refs_present(ns, ws));
            assert(built_nodes(ns, ws) == k);
            assert forall|x: int|
                0 <= x < ws.len() && is_highway(ws[x].tags@) implies below(
                #[trigger] mapped(ws[x].refs@, idx),
                n as int,
            ) by {
                assert forall|t: int| 0 <= t < mapped(ws[x].refs@, idx).len() implies (#[trigger] mapped(ws[x].refs@, idx)[t] as int) < n by {
                    assert(ref_at(ws, x, t, ws[x].refs@[t]));
                }
            }
            assert(adj_of(idx_to_node@) =~= adj_after(ws, 0, idx, n as nat));
        }
        let mut a: usize = 0;
        while a < ways.len()
            invariant
                ws == ways@,
                vs == highway_ids(ws),
                k == kept(ns, vs),
                ns == nodes@,
                idx == id_to_idx@,
                idx == idx_map(k),
                n == k.len(),
                n <= u32::MAX,
                built_nodes(ns, ws) == k,
                refs_present(ns, ws),
                0 <= a <= ws.len(),
                idx_to_node@.len() == n,
                forall|q: int| 0 <= q < n ==> (#[trigger] idx_to_node@[q]).location == k[q].location,
                adj_of(idx_to_node@) == adj_after(ws, a as nat, idx, n as nat),
                forall|q: int| 0 <= q < n ==> (#[trigger] adj_of(idx_to_node@)[q]).len() <= MAX_COMPACT_LEN,
                forall|q: int, j: int|
                    0 <= q < n && 0 <= j < adj_of(idx_to_node@)[q].len() ==> (#[trigger] adj_of(
                        idx_to_node@,
                    )[q][j] as int) < n,
                forall|x: int|
                    0 <= x < ws.len() && is_highway(ws[x].tags@) ==> below(
                        #[trigger] mapped(ws[x].refs@, idx),
                        n as int,
                    ),
            decreases ws.len() - a,
        {
            let ghost before = idx_to_node@;
            proof {
                if is_highway(ws[a as int].tags@) {
                    assert forall|b: int| 0 <= b < ws[a as int].refs@.len() implies idx.contains_key(#[trigger] ws[a as int].refs@[b]) by {
                        assert(ref_at(ws, a as int, b, ws[a as int].refs@[b]));
                    }
                }
            }
            let step = process_way(&id_to_idx, &mut idx_to_node, &ways[a], Ghost(idx), Ghost(n as nat));
            if step.is_err() {
                proof {
                    let v = choose|v: int| 0 <= v < n && #[trigger] add_way(adj_of(before), mapped(ws[a as int].refs@, idx))[v].len() > MAX_COMPACT_LEN;
                    lemma_after_mono(ws, (a + 1) as nat, ws.len(), idx, n as nat, v);
                    assert(!degrees_fit(built_adj(ns, ws))) by {
                        assert(built_adj(ns, ws)[v].len() > MAX_COMPACT_LEN);
                    }
                }
                return Err(BuildError::DegreeOverflow);
            }
            a = a + 1;
        }
        let g = OpenStreetMap { idx_to_node };
        proof {
            g.lemma_view();
            assert(ws.subrange(0, ws.len() as int) =~= ws);
            assert(g@ =~= built_model(ns, ws)) by {
                assert forall|q: int| 0 <= q < n implies #[trigger] g@[q] == built_model(ns, ws)[q] by {
                    assert(adj_of(g.idx_to_node@)[q] == g.idx_to_node@[q].connected@);
                }
            }
            assert(degrees_fit(built_adj(ns, ws)));
            assert forall|q: int, j: int|
                0 <= q < g@.len() && 0 <= j < g@[q].1.len() implies (#[trigger] g@[q].1[j] as int) < g@.len() by {
                assert(g@[q].1 == adj_of(g.idx_to_node@)[q]);
            }
            assert forall|q: int| 0 <= q < g@.len() implies #[trigger] g@[q].1.len() <= MAX_COMPACT_LEN by {
                assert(g@[q].1 == adj_of(g.idx_to_node@)[q]);
            }
        }
        Ok(g)
    }
}

/// Every link of the neighbor lists has its reverse.
pub open spec fn symmetric_adj(adj: Seq<Seq<u32>>) -> bool {
    forall|a: int, b: u32|
        0 <= a < adj.len() && #[trigger] adj[a].contains(b) ==> (b as int) < adj.len() && adj[b as int].contains(
            a as u32,
        )
}

proof fn lemma_concat_contains(p: Seq<u32>, q: Seq<u32>, x: u32)
    ensures
        (p + q).contains(x) <==> (p.contains(x) || q.contains(x)),
{
    if (p + q).contains(x) {
        let i = choose|i: int| 0 <= i < (p + q).len() && (p + q)[i] == x;
        if i >= p.len() {
            assert(q[i - p.len()] == x);
        }
    }
    if p.contains(x) {
        let i = choose|i: int| 0 <= i < p.len() && p[i] == x;
        assert((p + q)[i] == x);
    }
    if q.contains(x) {
        let i = choose|i: int| 0 <= i < q.len() && q[i] == x;
        assert((p + q)[p.len() + i] == x);
    }
}

proof fn lemma_steps_contains(adj: Seq<Seq<u32>>, r: Seq<u32>, t: nat, v: int, x: u32)
    requires
        t <= r.len(),
        r.len() >= 2,
        below(r, adj.len() as int),
        0 <= v < adj.len(),
    ensures
        add_steps(adj, r, t)[v].contains(x) <==> (adj[v].contains(x) || exists|s: int|
            0 <= s < t && r[s] as int == v && #[trigger] gain(r, s).contains(x)),
    decreases t,
{
    if t > 0 {
        lemma_steps_contains(adj, r, (t - 1) as nat, v, x);
        lemma_steps_mono(adj, r, 0, (t - 1) as nat, v);
        let a = add_steps(adj, r, (t - 1) as nat);
        let u = r[t - 1] as int;
        if u == v {
            lemma_concat_contains(a[v], gain(r, t - 1), x);
        }
        if exists|s: int| 0 <= s < t && r[s] as int == v && #[trigger] gain(r, s).contains(x) {
            let s = choose|s: int| 0 <= s < t && r[s] as int == v && #[trigger] gain(r, s).contains(x);
            if s < t - 1 {
                assert(exists|s: int| 0 <= s < t - 1 && r[s] as int == v && #[trigger] gain(r, s).contains(x));
            }
        }
    }
}

proof fn lemma_single_contains(a: u32, x: u32)
    ensures
        seq![a].contains(x) <==> x == a,
{
    if x == a {
        assert(seq![a][0] == x);
    }
}

proof fn lemma_pair_contains(a: u32, b: u32, x: u32)
    ensures
        seq![a, b].contains(x) <==> (x == a || x == b),
{
    if x == a {
        assert(seq![a, b][0] == x);
    }
    if x == b {
        assert(seq![a, b][1] == x);
    }
}

/// Position `s` of the way gains `r[s']` exactly when `s'` is next to `s`.
proof fn lemma_gain(r: Seq<u32>, s: int, x: u32)
    requires
        r.len() >= 2,
        0 <= s < r.len(),
    ensures
        gain(r, s).contains(x) <==> ((s > 0 && x == r[s - 1]) || (s < r.len() - 1 && x == r[s + 1])),
{
    let k = r.len() - 1;
    if s == 0 {
        lemma_single_contains(r[1], x);
    } else if s == k {
        lemma_single_contains(r[k - 1], x);
    } else {
        lemma_pair_contains(r[s - 1], r[s + 1], x);
    }
}

proof fn lemma_add_way_symmetric(adj: Seq<Seq<u32>>, r: Seq<u32>)
    requires
        symmetric_adj(adj),
        below(r, adj.len() as int),
    ensures
        symmetric_adj(add_way(adj, r)),
        add_way(adj, r).len() == adj.len(),
{
    if r.len() > 1 {
        let t = r.len();
        let w = add_way(adj, r);
        if adj.len() > 0 {
            lemma_steps_mono(adj, r, 0, t, 0);
        }
        assert forall|a: int, b: u32| 0 <= a < w.len() && #[trigger] w[a].contains(b) implies (b as int) < w.len()
            && w[b as int].contains(a as u32) by {
            lemma_steps_contains(adj, r, t, a, b);
            if adj[a].contains(b) {
                lemma_steps_contains(adj, r, t, b as int, a as u32);
            } else {
                let s = choose|s: int| 0 <= s < t && r[s] as int == a && #[trigger] gain(r, s).contains(b);
                lemma_gain(r, s, b);
                if s > 0 && b == r[s - 1] {
                    lemma_gain(r, s - 1, a as u32);
                    assert(gain(r, s - 1).contains(a as u32));
                    lemma_steps_contains(adj, r, t, b as int, a as u32);
                } else {
                    lemma_gain(r, s + 1, a as u32);
                    assert(gain(r, s + 1).contains(a as u32));
                    lemma_steps_contains(adj, r, t, b as int, a as u32);
                }
            }
        }
    }
}

proof fn lemma_after_symmetric(ways: Seq<RawWay>, w: nat, idx: Map<i64, u32>, n: nat)
    requires
        w <= ways.len(),
        forall|a: int|
            0 <= a < ways.len() && is_highway(ways[a].tags@) ==> below(
                #[trigger] mapped(ways[a].refs@, idx),
                n as int,
            ),
    ensures
        symmetric_adj(adj_after(ways, w, idx, n)),
        adj_after(ways, w, idx, n).len() == n,
    decreases w,
{
    if w > 0 {
        lemma_after_symmetric(ways, (w - 1) as nat, idx, n);
        let a = adj_after(ways, (w - 1) as nat, idx, n);
        if is_highway(ways[w - 1].tags@) {
            lemma_add_way_symmetric(a, mapped(ways[w - 1].refs@, idx));
        }
    } else {
        let e = adj_after(ways, 0, idx, n);
        assert forall|a: int, b: u32| 0 <= a < e.len() && #[trigger] e[a].contains(b) implies (b as int) < e.len()
            && e[b as int].contains(a as u32) by {
            assert(e[a].len() == 0);
        }
    }
}

/// The graph built from any records that build without error is
/// undirected: every link has its reverse.
pub proof fn lemma_built_symmetric(nodes: Seq<RawNode>, ways: Seq<RawWay>)
    requires
        refs_present(nodes, ways),
    ensures
        symmetric(built_model(nodes, ways)),
{
    let k = built_nodes(nodes, ways);
    let idx = idx_map(k);
    lemma_idx_bound(k);
    assert forall|x: int|
        0 <= x < ways.len() && is_highway(ways[x].tags@) implies below(
        #[trigger] mapped(ways[x].refs@, idx),
        k.len() as int,
    ) by {
        assert forall|t: int| 0 <= t < mapped(ways[x].refs@, idx).len() implies (#[trigger] mapped(ways[x].refs@, idx)[t] as int) < k.len() by {
            assert(ref_at(ways, x, t, ways[x].refs@[t]));
        }
    }
    lemma_after_symmetric(ways, ways.len(), idx, k.len());
    let m = built_model(nodes, ways);
    let adj = built_adj(nodes, ways);
    assert forall|a: int, b: u32| 0 <= a < m.len() && #[trigger] m[a].1.contains(b) implies m[b as int].1.contains(a as u32) by {
        assert(m[a].1 == adj[a]);
        assert(m[b as int].1 == adj[b as int]);
    }
}

} // verus!
