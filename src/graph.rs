//! The road graph: nodes with fixed-point coordinates and packed neighbor
//! lists, addressed by dense `u32` indices.

use vstd::prelude::*;
use rand::Rng;
use crate::compact_array::{CompactVec, CompactVecIterator, MAX_COMPACT_LEN};

verus! {

/// A coordinate pair in units of 1e-7 degree (the resolution map data is
/// stored in): `lat` then `lon`.
#[derive(Debug, Clone, Copy, PartialEq, Eq, Structural)]
pub struct Location {
    pub lat: i32,
    pub lon: i32,
}

/// Squared planar distance between two locations.
pub open spec fn spec_dist2(a: Location, b: Location) -> int {
    (a.lat - b.lat) * (a.lat - b.lat) + (a.lon - b.lon) * (a.lon - b.lon)
}

/// An upper bound on `spec_dist2` for any two locations: each squared
/// difference is below 2^64.
pub const MAX_DIST2: u128 = 0x2_0000_0000_0000_0000;

/// The squared distance is never negative, fits under `MAX_DIST2`, and does
/// not depend on the order of its arguments.
pub proof fn lemma_dist2_bounds(a: Location, b: Location)
    ensures
        0 <= spec_dist2(a, b) <= MAX_DIST2,
        spec_dist2(a, b) == spec_dist2(b, a),
{
    let dx: int = a.lat - b.lat;
    let dy: int = a.lon - b.lon;
    assert(-0x1_0000_0000 < dx < 0x1_0000_0000);
    assert(-0x1_0000_0000 < dy < 0x1_0000_0000);
    assert(0 <= dx * dx <= 0x1_0000_0000_0000_0000) by (nonlinear_arith)
        requires -0x1_0000_0000 < dx < 0x1_0000_0000;
    assert(0 <= dy * dy <= 0x1_0000_0000_0000_0000) by (nonlinear_arith)
        requires -0x1_0000_0000 < dy < 0x1_0000_0000;
    assert((b.lat - a.lat) * (b.lat - a.lat) == dx * dx) by (nonlinear_arith)
        requires dx == a.lat - b.lat;
    assert((b.lon - a.lon) * (b.lon - a.lon) == dy * dy) by (nonlinear_arith)
        requires dy == a.lon - b.lon;
}

impl Location {
    /// Squared planar distance to `other`.
    pub fn dist2(&self, other: Location) -> (r: u128)
        ensures
            r as int == spec_dist2(*self, other),
            r <= MAX_DIST2,
    {
        proof {
            lemma_dist2_bounds(*self, other);
        }
        let dx: i64 = self.lat as i64 - other.lat as i64;
        let dy: i64 = self.lon as i64 - other.lon as i64;
        let ax: u128 = if dx < 0 { (-dx) as u128 } else { dx as u128 };
        let ay: u128 = if dy < 0 { (-dy) as u128 } else { dy as u128 };
        assert(ax * ax == dx * dx) by (nonlinear_arith)
            requires ax == dx || ax == -dx;
        assert(ay * ay == dy * dy) by (nonlinear_arith)
            requires ay == dy || ay == -dy;
        assert(ax * ax <= 0x1_0000_0000_0000_0000) by (nonlinear_arith)
            requires ax < 0x1_0000_0000;
        assert(ay * ay <= 0x1_0000_0000_0000_0000) by (nonlinear_arith)
            requires ay < 0x1_0000_0000;
        ax * ax + ay * ay
    }

    /// The latitude.
    pub fn x(&self) -> (r: i32)
        ensures
            r == self.lat,
    {
        self.lat
    }

    /// The longitude.
    pub fn y(&self) -> (r: i32)
        ensures
            r == self.lon,
    {
        self.lon
    }
}

/// One node of the graph: where it is and which node indices it links to.
/// A neighbor may appear more than once.
#[derive(Debug)]
pub struct Node {
    pub connected: CompactVec<u32>,
    pub location: Location,
}

impl Node {
    /// Squared planar distance to `other`.
    pub fn dist2(&self, other: &Node) -> (r: u128)
        ensures
            r as int == spec_dist2(self.location, other.location),
            r <= MAX_DIST2,
    {
        self.location.dist2(other.location)
    }
}

/// The mathematical model of a graph: for each index, its location and its
/// neighbor list.
pub type GraphModel = Seq<(Location, Seq<u32>)>;

/// Every neighbor index names a node, neighbor lists fit in one byte, and
/// every index fits in a `u32`.
pub open spec fn model_wf(m: GraphModel) -> bool {
    &&& m.len() <= u32::MAX
    &&& forall|i: int| 0 <= i < m.len() ==> #[trigger] m[i].1.len() <= MAX_COMPACT_LEN
    &&& forall|i: int, j: int|
        0 <= i < m.len() && 0 <= j < m[i].1.len() ==> (#[trigger] m[i].1[j] as int) < m.len()
}

/// `p` is a nonempty walk in `m`: each step goes from a node to one of its
/// neighbors.
pub open spec fn is_walk(m: GraphModel, p: Seq<u32>) -> bool {
    &&& p.len() >= 1
    &&& forall|i: int| 0 <= i < p.len() ==> (#[trigger] p[i] as int) < m.len()
    &&& forall|i: int| 0 <= i < p.len() - 1 ==> m[p[i] as int].1.contains(#[trigger] p[i + 1])
}

/// `a` and `b` are joined by a link in either direction.
pub open spec fn linked(m: GraphModel, a: u32, b: u32) -> bool {
    m[a as int].1.contains(b) || m[b as int].1.contains(a)
}

/// `p` is a nonempty sequence of nodes of `m`, each linked to the next in
/// one direction or the other.
pub open spec fn is_trail(m: GraphModel, p: Seq<u32>) -> bool {
    &&& p.len() >= 1
    &&& forall|i: int| 0 <= i < p.len() ==> (#[trigger] p[i] as int) < m.len()
    &&& forall|i: int| 0 <= i < p.len() - 1 ==> linked(m, p[i], #[trigger] p[i + 1])
}

/// Node `b` can be reached from node `a` by following neighbor lists.
pub open spec fn reaches(m: GraphModel, a: u32, b: u32) -> bool {
    exists|p: Seq<u32>| #[trigger] is_walk(m, p) && p[0] == a && p.last() == b
}

/// Every link has its reverse: the graph is undirected.
pub open spec fn symmetric(m: GraphModel) -> bool {
    forall|a: int, b: u32|
        0 <= a < m.len() && #[trigger] m[a].1.contains(b) ==> m[b as int].1.contains(a as u32)
}

/// Nodes that have at least one neighbor.
pub open spec fn has_neighbor(m: GraphModel, i: int) -> bool {
    m[i].1.len() > 0
}

/// The node found nearest to a query point, with its squared distance.
#[derive(Debug)]
pub struct ClosestResult {
    pub dist: u128,
    pub id: u32,
}

/// A road graph: an index-addressed array of nodes.
pub struct OpenStreetMap {
    pub(crate) idx_to_node: Vec<Node>,
}

impl View for OpenStreetMap {
    type V = GraphModel;

    closed spec fn view(&self) -> GraphModel {
        Seq::new(
            self.idx_to_node@.len(),
            |i: int| (self.idx_to_node@[i].location, self.idx_to_node@[i].connected@),
        )
    }
}

/// The model of a list of nodes.
pub open spec fn nodes_model(nodes: Seq<Node>) -> GraphModel {
    Seq::new(nodes.len(), |i: int| (nodes[i].location, nodes[i].connected@))
}

impl OpenStreetMap {
    /// The graph is well formed.
    pub open spec fn wf(&self) -> bool {
        model_wf(self@)
    }

    pub(crate) proof fn lemma_view(&self)
        ensures
            self@ == nodes_model(self.idx_to_node@),
    {
    }

    /// A graph of the given nodes, or `None` when some neighbor index names
    /// no node or there are `u32::MAX` nodes or more.
    pub fn from_nodes(nodes: Vec<Node>) -> (r: Option<OpenStreetMap>)
        ensures
            r is Some <==> model_wf(nodes_model(nodes@)),
            r matches Some(g) ==> g@ == nodes_model(nodes@) && g.wf(),
    {
        let n = nodes.len();
        if n > u32::MAX as usize {
            return None;
        }
        let ghost m = nodes_model(nodes@);
        let mut i: usize = 0;
        while i < n
            invariant
                n == nodes@.len(),
                m == nodes_model(nodes@),
                n <= u32::MAX,
                0 <= i <= n,
                forall|a: int| 0 <= a < i ==> #[trigger] m[a].1.len() <= MAX_COMPACT_LEN,
                forall|a: int, j: int|
                    0 <= a < i && 0 <= j < m[a].1.len() ==> (#[trigger] m[a].1[j] as int) < n,
            decreases n - i,
        {
            let node = &nodes[i];
            let len = node.connected.len();
            let mut j: u8 = 0;
            while j < len
                invariant
                    n == nodes@.len(),
                    m == nodes_model(nodes@),
                    0 <= i < n,
                    node == nodes@[i as int],
                    len as int == m[i as int].1.len(),
                    0 <= j <= len,
                    forall|a: int| 0 <= a < i ==> #[trigger] m[a].1.len() <= MAX_COMPACT_LEN,
                    forall|a: int, k: int|
                        0 <= a < i && 0 <= k < m[a].1.len() ==> (#[trigger] m[a].1[k] as int) < n,
                    forall|k: int| 0 <= k < j ==> (#[trigger] m[i as int].1[k] as int) < n,
                decreases len - j,
            {
                let x = *node.connected.get(j);
                if x as usize >= n {
                    return None;
                }
                j = j + 1;
            }
            i = i + 1;
        }
        let g = OpenStreetMap { idx_to_node: nodes };
        proof {
            assert(g@ =~= m);
        }
        Some(g)
    }

    /// The node at index `id`.
    pub fn get(&self, id: u32) -> (r: &Node)
        requires
            (id as int) < self@.len(),
        ensures
            r.location == self@[id as int].0,
            r.connected@ == self@[id as int].1,
    {
        &self.idx_to_node[id as usize]
    }

    /// The number of nodes.
    pub fn node_count(&self) -> (r: usize)
        ensures
            r == self@.len(),
    {
        self.idx_to_node.len()
    }

    /// A cursor over the neighbors of node `from_id`.
    pub fn next_to_id(&self, from_id: u32) -> (r: CompactVecIterator<'_, u32>)
        requires
            (from_id as int) < self@.len(),
        ensures
            r.view() == (self@[from_id as int].1, 0int),
    {
        self.get(from_id).connected.iterator()
    }

    /// The nodes, in index order.
    pub fn iterator(&self) -> (r: std::slice::Iter<'_, Node>)
        ensures
            nodes_model(vstd::std_specs::slice::into_iter_elts(r)) == self@,
    {
        let r = self.idx_to_node.as_slice().iter();
        proof {
            broadcast use vstd::std_specs::slice::axiom_spec_slice_iter;
            assert(vstd::std_specs::slice::into_iter_elts(r) =~= self.idx_to_node@);
        }
        r
    }

    /// A node picked at random, with its index.
    pub fn random(&self) -> (r: (u32, &Node))
        requires
            self.wf(),
            self@.len() > 0,
        ensures
            (r.0 as int) < self@.len(),
            r.1.location == self@[r.0 as int].0,
            r.1.connected@ == self@[r.0 as int].1,
    {
        let idx = random_below(self.idx_to_node.len());
        (idx as u32, &self.idx_to_node[idx])
    }

    /// The node nearest to `(lat, long)` by squared planar distance among
    /// the nodes that have a neighbor (the lowest index among equals), or
    /// `None` when no node has one.
    pub fn closest(&self, lat: i32, long: i32) -> (r: Option<ClosestResult>)
        requires
            self.wf(),
        ensures
            r is None <==> forall|i: int| 0 <= i < self@.len() ==> !#[trigger] has_neighbor(self@, i),
            r matches Some(c) ==> ((c.id as int) < self@.len() && has_neighbor(self@, c.id as int)
                && (c.dist as int) == spec_dist2(self@[c.id as int].0, Location { lat, lon: long })
                && (forall|i: int|
                0 <= i < self@.len() && #[trigger] has_neighbor(self@, i) ==> (c.dist as int)
                    <= spec_dist2(self@[i].0, Location { lat, lon: long })) && (forall|i: int|
                0 <= i < c.id && #[trigger] has_neighbor(self@, i) ==> (c.dist as int)
                    < spec_dist2(self@[i].0, Location { lat, lon: long }))),
    {
        let ghost m = self@;
        let q = Location { lat, lon: long };
        let n = self.idx_to_node.len();
        let mut min_id: Option<usize> = None;
        let mut min_val: u128 = 0;
        let mut i: usize = 0;
        while i < n
            invariant
                m == self@,
                self.wf(),
                n == m.len(),
                0 <= i <= n,
                min_id is None ==> forall|k: int| 0 <= k < i ==> !#[trigger] has_neighbor(m, k),
                min_id matches Some(b) ==> (b < i && has_neighbor(m, b as int) && (min_val as int)
                    == spec_dist2(m[b as int].0, q) && (forall|k: int|
                    0 <= k < i && #[trigger] has_neighbor(m, k) ==> (min_val as int) <= spec_dist2(
                        m[k].0,
                        q,
                    )) && (forall|k: int|
                    0 <= k < b && #[trigger] has_neighbor(m, k) ==> (min_val as int) < spec_dist2(
                        m[k].0,
                        q,
                    ))),
            decreases n - i,
        {
            let node = &self.idx_to_node[i];
            proof {
                self.lemma_view();
            }
            if node.connected.len() != 0 {
                let d = node.location.dist2(q);
                match min_id {
                    None => {
                        min_id = Some(i);
                        min_val = d;
                    },
                    Some(_) => {
                        if d < min_val {
                            min_id = Some(i);
                            min_val = d;
                        }
                    },
                }
            }
            i = i + 1;
        }
        match min_id {
            Some(b) => Some(ClosestResult { dist: min_val, id: b as u32 }),
            None => None,
        }
    }
}

/// Relies on rand's `thread_rng().gen_range(low, high)`, which returns a
/// value in `low..high` (and panics when that range is empty).
#[verifier::external_body]
fn random_below(n: usize) -> (r: usize)
    requires
        n > 0,
    ensures
        r < n,
{
    rand::thread_rng().gen_range(0, n)
}

} // verus!
