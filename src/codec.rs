//! The persisted form of a graph: big-endian, a `u32` node count, then per
//! node its latitude and longitude (`i32`, two's complement), a `u8`
//! neighbor count and that many `u32` neighbor indices.

use vstd::prelude::*;
use crate::compact_array::CompactVec;
use crate::graph::{GraphModel, Location, Node, OpenStreetMap, model_wf, nodes_model};

verus! {

/// The four big-endian bytes of `v`.
pub open spec fn be32(v: u32) -> Seq<u8> {
    seq![(v >> 24u32) as u8, (v >> 16u32) as u8, (v >> 8u32) as u8, v as u8]
}

/// The big-endian `u32` at offset `at` of `b`.
pub open spec fn read_u32(b: Seq<u8>, at: int) -> u32 {
    ((b[at] as u32) << 24u32) | ((b[at + 1] as u32) << 16u32) | ((b[at + 2] as u32) << 8u32) | (b[
        at + 3
    ] as u32)
}

/// The two's complement bit pattern of `x`.
pub open spec fn from_i32(x: i32) -> u32 {
    if x < 0 {
        (x + 0x1_0000_0000) as u32
    } else {
        x as u32
    }
}

/// The `i32` whose two's complement bit pattern is `v`.
pub open spec fn to_i32(v: u32) -> i32 {
    if v >= 0x8000_0000 {
        (v - 0x1_0000_0000) as i32
    } else {
        v as i32
    }
}

/// The bytes of a list of `u32`.
pub open spec fn words(s: Seq<u32>) -> Seq<u8> {
    s.map_values(|x: u32| be32(x)).flatten()
}

/// The bytes of a list of nodes.
pub open spec fn records(m: GraphModel) -> Seq<u8> {
    m.map_values(|nd: (Location, Seq<u32>)| node_bytes(nd)).flatten()
}

/// The bytes of one node.
pub open spec fn node_bytes(node: (Location, Seq<u32>)) -> Seq<u8> {
    be32(from_i32(node.0.lat)) + be32(from_i32(node.0.lon)) + seq![node.1.len() as u8] + words(node.1)
}

/// The bytes of a whole graph.
pub open spec fn encoding(m: GraphModel) -> Seq<u8> {
    be32(m.len() as u32) + records(m)
}

/// Reads the node record at offset `at`: the node and the offset after it,
/// or `None` when the bytes end first.
pub open spec fn parse_record(b: Seq<u8>, at: int) -> Option<((Location, Seq<u32>), int)> {
    if at + 9 > b.len() {
        None
    } else {
        let k = b[at + 8] as int;
        if at + 9 + 4 * k > b.len() {
            None
        } else {
            let loc = Location { lat: to_i32(read_u32(b, at)), lon: to_i32(read_u32(b, at + 4)) };
            let adj = Seq::new(k as nat, |j: int| read_u32(b, at + 9 + 4 * j));
            Some(((loc, adj), at + 9 + 4 * k))
        }
    }
}

/// Reads `count` node records from offset `at`, after the nodes `acc`.
pub open spec fn parse_nodes(b: Seq<u8>, at: int, count: nat, acc: GraphModel) -> Option<GraphModel>
    decreases count,
{
    if count == 0 {
        Some(acc)
    } else {
        match parse_record(b, at) {
            None => None,
            Some((node, next)) => parse_nodes(b, next, (count - 1) as nat, acc.push(node)),
        }
    }
}

/// The graph whose bytes `b` begins with, if `b` is long enough to hold
/// one; bytes after it are not read.
pub open spec fn parse(b: Seq<u8>) -> Option<GraphModel> {
    if b.len() < 4 {
        None
    } else {
        parse_nodes(b, 4, read_u32(b, 0) as nat, Seq::empty())
    }
}

/// Why bytes could not be read back as a graph.
#[derive(Debug, Clone, Copy, PartialEq, Eq, Structural)]
pub enum DecodeError {
    /// The bytes end before the records they announce.
    Truncated,
    /// A neighbor index names no node.
    BadNeighbor,
}

proof fn lemma_be32(v: u32)
    ensures
        read_u32(be32(v), 0) == v,
{
    let b = be32(v);
    assert(((((v >> 24u32) as u8) as u32) << 24u32) | ((((v >> 16u32) as u8) as u32) << 16u32) | ((((
    v >> 8u32) as u8) as u32) << 8u32) | ((v as u8) as u32) == v) by (bit_vector);
}

proof fn lemma_i32(x: i32)
    ensures
        to_i32(from_i32(x)) == x,
{
}

proof fn lemma_read_at(b: Seq<u8>, at: int, v: u32)
    requires
        0 <= at,
        at + 4 <= b.len(),
        b.subrange(at, at + 4) == be32(v),
    ensures
        read_u32(b, at) == v,
{
    lemma_be32(v);
    let s = b.subrange(at, at + 4);
    assert(b[at] == s[0] && b[at + 1] == s[1] && b[at + 2] == s[2] && b[at + 3] == s[3]);
}

/// The bytes of a list of `u32` hold each one at four times its position.
proof fn lemma_words(s: Seq<u32>)
    ensures
        words(s).len() == 4 * s.len(),
        forall|j: int, t: int| 0 <= j < s.len() && 0 <= t < 4 ==> #[trigger] words(s)[4 * j + t] == be32(s[j])[t],
    decreases s.len(),
{
    let f = s.map_values(|x: u32| be32(x));
    if s.len() > 0 {
        let d = s.drop_first();
        lemma_words(d);
        assert(f.drop_first() =~= d.map_values(|x: u32| be32(x)));
        assert(f.flatten() == f[0] + f.drop_first().flatten());
        assert forall|j: int, t: int| 0 <= j < s.len() && 0 <= t < 4 implies #[trigger] f.flatten()[4
            * j + t] == be32(s[j])[t] by {
            if j > 0 {
                assert(f.flatten()[4 * j + t] == words(d)[4 * (j - 1) + t]);
                assert(d[j - 1] == s[j]);
            }
        }
    }
}

proof fn lemma_parse_record(b: Seq<u8>, at: int, node: (Location, Seq<u32>))
    requires
        0 <= at,
        node.1.len() <= 255,
        at + node_bytes(node).len() <= b.len(),
        b.subrange(at, at + node_bytes(node).len()) == node_bytes(node),
    ensures
        parse_record(b, at) == Some((node, at + node_bytes(node).len())),
{
    let nb = node_bytes(node);
    let k = node.1.len();
    let w = words(node.1);
    lemma_words(node.1);
    assert(nb.len() == 9 + 4 * k);
    let s = b.subrange(at, at + nb.len());
    assert forall|i: int| 0 <= i < 4 implies b.subrange(at, at + 4)[i] == be32(from_i32(node.0.lat))[i] by {
        assert(b[at + i] == s[i]);
    }
    assert(b.subrange(at, at + 4) =~= be32(from_i32(node.0.lat)));
    assert forall|i: int| 0 <= i < 4 implies b.subrange(at + 4, at + 8)[i] == be32(from_i32(node.0.lon))[i] by {
        assert(b[at + 4 + i] == s[4 + i]);
    }
    assert(b.subrange(at + 4, at + 8) =~= be32(from_i32(node.0.lon)));
    lemma_read_at(b, at, from_i32(node.0.lat));
    lemma_read_at(b, at + 4, from_i32(node.0.lon));
    lemma_i32(node.0.lat);
    lemma_i32(node.0.lon);
    assert(b[at + 8] == s[8]);
    assert(s[8] == k as u8);
    let adj = Seq::new(k as nat, |j: int| read_u32(b, at + 9 + 4 * j));
    assert forall|j: int| 0 <= j < k implies adj[j] == node.1[j] by {
        assert forall|t: int| 0 <= t < 4 implies b.subrange(at + 9 + 4 * j, at + 9 + 4 * j + 4)[t] == be32(node.1[j])[t] by {
            assert(b[at + 9 + 4 * j + t] == s[9 + 4 * j + t]);
            assert(s[9 + 4 * j + t] == w[4 * j + t]);
        }
        assert(b.subrange(at + 9 + 4 * j, at + 9 + 4 * j + 4) =~= be32(node.1[j]));
        lemma_read_at(b, at + 9 + 4 * j, node.1[j]);
    }
    assert(adj =~= node.1);
}

proof fn lemma_parse_nodes(b: Seq<u8>, at: int, s: GraphModel, acc: GraphModel)
    requires
        0 <= at,
        forall|i: int| 0 <= i < s.len() ==> (#[trigger] s[i]).1.len() <= 255,
        at + records(s).len() <= b.len(),
        b.subrange(at, at + records(s).len()) == records(s),
    ensures
        parse_nodes(b, at, s.len(), acc) == Some(acc + s),
    decreases s.len(),
{
    let f = s.map_values(|nd: (Location, Seq<u32>)| node_bytes(nd));
    if s.len() == 0 {
        assert(acc + s =~= acc);
    } else {
        let d = s.drop_first();
        let fd = d.map_values(|nd: (Location, Seq<u32>)| node_bytes(nd));
        assert(f.drop_first() =~= fd);
        assert(f.flatten() == f[0] + fd.flatten());
        let n0 = node_bytes(s[0]);
        assert(f[0] == n0);
        let whole = f.flatten();
        assert(b.subrange(at, at + n0.len()) =~= n0) by {
            assert forall|i: int| 0 <= i < n0.len() implies b.subrange(at, at + n0.len())[i] == n0[i] by {
                assert(b[at + i] == b.subrange(at, at + whole.len())[i]);
                assert(whole[i] == n0[i]);
            }
        }
        lemma_parse_record(b, at, s[0]);
        let next = at + n0.len();
        assert(b.subrange(next, next + fd.flatten().len()) =~= fd.flatten()) by {
            assert forall|i: int| 0 <= i < fd.flatten().len() implies b.subrange(next, next + fd.flatten().len())[i] == fd.flatten()[i] by {
                assert(b[next + i] == b.subrange(at, at + whole.len())[n0.len() + i]);
                assert(whole[n0.len() + i] == fd.flatten()[i]);
            }
        }
        assert forall|i: int| 0 <= i < d.len() implies (#[trigger] d[i]).1.len() <= 255 by {
            assert(d[i] == s[i + 1]);
        }
        lemma_parse_nodes(b, next, d, acc.push(s[0]));
        assert(acc.push(s[0]) + d =~= acc + s);
    }
}

/// Reading back the bytes of a well-formed graph, whatever follows them,
/// gives the same graph: node count, coordinates and neighbor lists.
pub proof fn lemma_round_trip(m: GraphModel, rest: Seq<u8>)
    requires
        model_wf(m),
    ensures
        parse(encoding(m) + rest) == Some(m),
{
    let b = encoding(m) + rest;
    let f = m.map_values(|nd: (Location, Seq<u32>)| node_bytes(nd));
    assert(b.subrange(0, 4) =~= be32(m.len() as u32));
    lemma_read_at(b, 0, m.len() as u32);
    assert(b.subrange(4, 4 + f.flatten().len() as int) =~= f.flatten());
    assert forall|i: int| 0 <= i < m.len() implies (#[trigger] m[i]).1.len() <= 255 by {}
    lemma_parse_nodes(b, 4, m, Seq::empty());
    assert(Seq::<(Location, Seq<u32>)>::empty() + m =~= m);
}

proof fn lemma_words_push(s: Seq<u32>, x: u32)
    ensures
        words(s.push(x)) == words(s) + be32(x),
{
    assert(s.push(x).map_values(|x: u32| be32(x)) =~= s.map_values(|x: u32| be32(x)).push(be32(x)));
    s.map_values(|x: u32| be32(x)).lemma_flatten_push(be32(x));
}

proof fn lemma_records_push(m: GraphModel, nd: (Location, Seq<u32>))
    ensures
        records(m.push(nd)) == records(m) + node_bytes(nd),
{
    assert(m.push(nd).map_values(|nd: (Location, Seq<u32>)| node_bytes(nd)) =~= m.map_values(
        |nd: (Location, Seq<u32>)| node_bytes(nd),
    ).push(node_bytes(nd)));
    m.map_values(|nd: (Location, Seq<u32>)| node_bytes(nd)).lemma_flatten_push(node_bytes(nd));
}

fn push_u32(out: &mut Vec<u8>, v: u32)
    ensures
        final(out)@ == old(out)@ + be32(v),
{
    out.push((v >> 24u32) as u8);
    out.push((v >> 16u32) as u8);
    out.push((v >> 8u32) as u8);
    out.push(v as u8);
    proof {
        assert(final(out)@ =~= old(out)@ + be32(v));
    }
}

fn read_u32_at(b: &[u8], at: usize) -> (r: u32)
    requires
        at + 4 <= b@.len(),
    ensures
        r == read_u32(b@, at as int),
{
    ((b[at] as u32) << 24u32) | ((b[at + 1] as u32) << 16u32) | ((b[at + 2] as u32) << 8u32) | (b[at
        + 3] as u32)
}

fn i32_bits(x: i32) -> (r: u32)
    ensures
        r == from_i32(x),
{
    if x < 0 {
        (x as i64 + 0x1_0000_0000i64) as u32
    } else {
        x as u32
    }
}

fn bits_i32(v: u32) -> (r: i32)
    ensures
        r == to_i32(v),
{
    if v >= 0x8000_0000u32 {
        (v as i64 - 0x1_0000_0000i64) as i32
    } else {
        v as i32
    }
}

impl OpenStreetMap {
    /// The persisted bytes of the graph.
    pub fn encode(&self) -> (r: Vec<u8>)
        requires
            self.wf(),
        ensures
            r@ == encoding(self@),
    {
        let ghost m = self@;
        let n = self.node_count();
        let mut out: Vec<u8> = Vec::new();
        push_u32(&mut out, n as u32);
        let mut i: usize = 0;
        proof {
            assert(m.subrange(0, 0).map_values(|nd: (Location, Seq<u32>)| node_bytes(nd)) =~= Seq::<Seq<u8>>::empty());
            assert(out@ =~= be32(n as u32) + records(m.subrange(0, 0)));
        }
        while i < n
            invariant
                m == self@,
                self.wf(),
                n == m.len(),
                0 <= i <= n,
                out@ == be32(n as u32) + records(m.subrange(0, i as int)),
            decreases n - i,
        {
            let node = self.get(i as u32);
            let ghost base = out@;
            push_u32(&mut out, i32_bits(node.location.lat));
            push_u32(&mut out, i32_bits(node.location.lon));
            let len = node.connected.len();
            out.push(len);
            let ghost head = out@;
            let ghost adj = m[i as int].1;
            let mut j: u8 = 0;
            proof {
                assert(adj.subrange(0, 0) =~= Seq::<u32>::empty());
                assert(adj.subrange(0, 0).map_values(|x: u32| be32(x)) =~= Seq::<Seq<u8>>::empty());
                assert(out@ =~= head + words(adj.subrange(0, 0)));
            }
            while j < len
                invariant
                    adj == m[i as int].1,
                    node.connected@ == adj,
                    len as int == adj.len(),
                    0 <= j <= len,
                    out@ == head + words(adj.subrange(0, j as int)),
                decreases len - j,
            {
                push_u32(&mut out, *node.connected.get(j));
                proof {
                    lemma_words_push(adj.subrange(0, j as int), adj[j as int]);
                    assert(adj.subrange(0, j + 1) =~= adj.subrange(0, j as int).push(adj[j as int]));
                }
                j = j + 1;
            }
            proof {
                assert(adj.subrange(0, len as int) =~= adj);
                assert(out@ =~= base + node_bytes(m[i as int]));
                lemma_records_push(m.subrange(0, i as int), m[i as int]);
                assert(m.subrange(0, i + 1) =~= m.subrange(0, i as int).push(m[i as int]));
            }
            i = i + 1;
        }
        proof {
            assert(m.subrange(0, n as int) =~= m);
        }
        out
    }

    /// Reads back a graph from its persisted bytes (what follows it is not
    /// read). Fails with `Truncated` when the bytes end early, with
    /// `BadNeighbor` when a neighbor index names no node.
    pub fn decode(b: &[u8]) -> (r: Result<OpenStreetMap, DecodeError>)
        ensures
            parse(b@) is None ==> r == Err::<OpenStreetMap, DecodeError>(DecodeError::Truncated),
            parse(b@) is Some && model_wf(parse(b@)->0) ==> (r matches Ok(g) && g@ == parse(b@)->0
                && g.wf()),
            parse(b@) is Some && !model_wf(parse(b@)->0) ==> r == Err::<OpenStreetMap, DecodeError>(
                DecodeError::BadNeighbor,
            ),
    {
        let len = b.len();
        if len < 4 {
            return Err(DecodeError::Truncated);
        }
        let count = read_u32_at(b, 0);
        let mut nodes: Vec<Node> = Vec::new();
        let mut pos: usize = 4;
        let mut i: u32 = 0;
        proof {
            assert(nodes_model(nodes@) =~= Seq::<(Location, Seq<u32>)>::empty());
        }
        while i < count
            invariant
                len == b@.len(),
                4 <= pos <= len,
                0 <= i <= count,
                count == read_u32(b@, 0),
                parse(b@) == parse_nodes(b@, pos as int, (count - i) as nat, nodes_model(nodes@)),
            decreases count - i,
        {
            if len - pos < 9 {
                return Err(DecodeError::Truncated);
            }
            let lat = bits_i32(read_u32_at(b, pos));
            let lon = bits_i32(read_u32_at(b, pos + 4));
            let k = b[pos + 8];
            if (len - (pos + 9)) / 4 < k as usize {
                return Err(DecodeError::Truncated);
            }
            let mut adj: Vec<u32> = Vec::new();
            let mut j: u8 = 0;
            while j < k
                invariant
                    len == b@.len(),
                    pos + 9 + 4 * (k as int) <= len,
                    0 <= j <= k,
                    adj@ =~= Seq::new(j as nat, |t: int| read_u32(b@, pos + 9 + 4 * t)),
                decreases k - j,
            {
                let x = read_u32_at(b, pos + 9 + 4 * (j as usize));
                adj.push(x);
                j = j + 1;
            }
            let ghost node = (Location { lat, lon }, adj@);
            proof {
                assert(parse_record(b@, pos as int) == Some((node, pos + 9 + 4 * k)));
            }
            let ghost prev = nodes@;
            nodes.push(Node { connected: CompactVec::from_vec(adj), location: Location { lat, lon } });
            proof {
                assert(nodes_model(nodes@) =~= nodes_model(prev).push(node));
            }
            pos = pos + 9 + 4 * (k as usize);
            i = i + 1;
        }
        match OpenStreetMap::from_nodes(nodes) {
            Some(g) => Ok(g),
            None => Err(DecodeError::BadNeighbor),
        }
    }
}

} // verus!
