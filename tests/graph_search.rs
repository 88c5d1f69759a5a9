use std::sync::mpsc;

use osm_astar::a_star::{path, reversed};
use osm_astar::bidirectional::{bi_path_helper, Middleman, PathConstructor};
use osm_astar::bounds::Boundable;
use osm_astar::builder::{valid_way, BuildError, RawNode, RawWay};
use osm_astar::codec::DecodeError;
use osm_astar::compact_array::CompactVec;
use osm_astar::graph::{Location, Node, OpenStreetMap};
use osm_astar::params::SimpleParams;

fn node(lat: i32, lon: i32, next: Vec<u32>) -> Node {
    Node { connected: CompactVec::from_vec(next), location: Location { lat, lon } }
}

/// Four nodes on a line: 0 - 1 - 2 - 3.
fn line() -> OpenStreetMap {
    OpenStreetMap::from_nodes(vec![
        node(0, 0, vec![1]),
        node(0, 10, vec![0, 2]),
        node(0, 20, vec![1, 3]),
        node(0, 30, vec![2]),
    ])
    .unwrap()
}

fn length(map: &OpenStreetMap, ids: &[u32]) -> f64 {
    let mut total = 0.0;
    for w in ids.windows(2) {
        total += (map.get(w[0]).location.dist2(map.get(w[1]).location) as f64).sqrt();
    }
    total
}

fn is_route(map: &OpenStreetMap, ids: &[u32], from: u32, to: u32) -> bool {
    if ids.first() != Some(&from) || ids.last() != Some(&to) {
        return false;
    }
    ids.windows(2).all(|w| {
        let a = map.get(w[0]);
        let b = map.get(w[1]);
        let mut ia = a.connected.iterator();
        let mut ib = b.connected.iterator();
        let mut linked = false;
        while let Some(&x) = ia.next() {
            linked |= x == w[1];
        }
        while let Some(&x) = ib.next() {
            linked |= x == w[0];
        }
        linked
    })
}

/// Runs the two half searches one after the other (an interleaving the
/// threaded driver may also produce) and hands their reports to an arbiter.
fn bidirectional(map: &OpenStreetMap, init: u32, goal: u32) -> Option<Vec<u32>> {
    let (tx, rx) = mpsc::channel::<u32>();
    let tx2 = tx.clone();
    let (forward, sent_forward, _) = bi_path_helper(map, init, goal, tx, &SimpleParams);
    let (backward, sent_backward, _) = bi_path_helper(map, goal, init, tx2, &SimpleParams);
    assert!(sent_forward && sent_backward);
    let mut middleman = Middleman::new();
    for idx in rx.try_iter() {
        if middleman.observe(idx) {
            break;
        }
    }
    let split = middleman.get_split()?;
    assert!(forward.reached(split) && backward.reached(split));
    Some(PathConstructor::build_path(&forward, &backward, split))
}

#[test]
fn line_graph_path() {
    let map = line();
    let p = path(&map, 0, 3).unwrap();
    assert_eq!(p.ids, vec![0, 1, 2, 3]);
    assert_eq!(length(&map, &p.ids), 30.0);
}

#[test]
fn line_graph_bidirectional_matches() {
    let map = line();
    let ids = bidirectional(&map, 0, 3).unwrap();
    assert_eq!(ids, vec![0, 1, 2, 3]);
    assert_eq!(length(&map, &ids), length(&map, &path(&map, 0, 3).unwrap().ids));
}

#[test]
fn path_to_itself() {
    let map = line();
    let p = path(&map, 2, 2).unwrap();
    assert_eq!(p.ids, vec![2]);
}

#[test]
fn repeated_queries_give_equal_lengths() {
    let map = grid(5);
    let a = path(&map, 0, 24).unwrap();
    let b = path(&map, 0, 24).unwrap();
    assert_eq!(a.ids.len(), b.ids.len());
    assert_eq!(length(&map, &a.ids), length(&map, &b.ids));
}

#[test]
fn reversed_route_has_same_length() {
    let map = grid(4);
    let p = path(&map, 0, 15).unwrap();
    let back = reversed(&p.ids);
    assert_eq!(back.first(), Some(&15));
    assert_eq!(length(&map, &p.ids), length(&map, &back));
}

#[test]
fn no_path_between_components() {
    let map = OpenStreetMap::from_nodes(vec![
        node(0, 0, vec![1]),
        node(0, 1, vec![0]),
        node(5, 5, vec![3]),
        node(5, 6, vec![2]),
    ])
    .unwrap();
    assert!(path(&map, 0, 3).is_none());
    assert!(bidirectional(&map, 0, 3).is_none());
}

/// An `n` by `n` grid of nodes ten units apart, linked to their four
/// neighbors.
fn grid(n: u32) -> OpenStreetMap {
    let mut nodes = Vec::new();
    for r in 0..n {
        for c in 0..n {
            let mut next = Vec::new();
            if r > 0 {
                next.push((r - 1) * n + c);
            }
            if r + 1 < n {
                next.push((r + 1) * n + c);
            }
            if c > 0 {
                next.push(r * n + c - 1);
            }
            if c + 1 < n {
                next.push(r * n + c + 1);
            }
            nodes.push(node(r as i32 * 10, c as i32 * 10, next));
        }
    }
    OpenStreetMap::from_nodes(nodes).unwrap()
}

#[test]
fn grid_routes_agree() {
    let map = grid(6);
    for (a, b) in [(0u32, 35u32), (5, 30), (7, 28), (35, 0)] {
        let one = path(&map, a, b).unwrap();
        assert!(is_route(&map, &one.ids, a, b));
        let two = bidirectional(&map, a, b).unwrap();
        assert!(is_route(&map, &two, a, b));
    }
}

#[test]
fn bidirectional_from_a_node_to_itself_meets_nowhere() {
    // Each half stops as soon as it takes its own goal off the frontier,
    // before reporting anything, so no node is reported twice.
    let map = line();
    assert!(bidirectional(&map, 2, 2).is_none());
    assert_eq!(path(&map, 2, 2).unwrap().ids, vec![2]);
}

#[test]
fn bidirectional_between_neighbors_meets_nowhere() {
    // Neither half reports its own start, and each stops on taking the
    // other's start off its frontier: between two neighbors the reports of
    // the two halves never overlap.
    let map = grid(6);
    assert!(bidirectional(&map, 13, 14).is_none());
    assert_eq!(path(&map, 13, 14).unwrap().ids, vec![13, 14]);
}

#[test]
fn trim_keeps_larger_component() {
    let map = OpenStreetMap::from_nodes(vec![
        node(0, 0, vec![1]),
        node(0, 1, vec![0]),
        node(9, 0, vec![3]),
        node(9, 1, vec![2, 4]),
        node(9, 2, vec![3]),
    ])
    .unwrap();
    let t = map.trim().unwrap();
    assert_eq!(t.node_count(), 3);
    assert_eq!(t.get(0).location, Location { lat: 9, lon: 0 });
    assert_eq!(t.get(1).location, Location { lat: 9, lon: 1 });
    assert_eq!(t.get(2).location, Location { lat: 9, lon: 2 });
    assert_eq!(*t.get(1).connected.get(0), 0);
    assert_eq!(*t.get(1).connected.get(1), 2);
    // Index 4 named a node of the kept component before trimming; after it,
    // indices 3 and up name no node at all.
    assert!(4 >= t.node_count());
    assert!(path(&t, 0, 2).is_some());
}

#[test]
fn trim_of_empty_graph_fails() {
    let map = OpenStreetMap::from_nodes(Vec::new()).unwrap();
    assert!(map.trim().is_none());
}

#[test]
fn from_nodes_rejects_bad_neighbor() {
    assert!(OpenStreetMap::from_nodes(vec![node(0, 0, vec![1])]).is_none());
}

#[test]
fn round_trip_keeps_graph() {
    let map = OpenStreetMap::from_nodes(vec![
        node(-900_000_000, 1_800_000_000, vec![1, 1]),
        node(123, -456, vec![0, 0, 1]),
    ])
    .unwrap();
    let bytes = map.encode();
    assert_eq!(bytes.len(), 4 + (9 + 8) + (9 + 12));
    assert_eq!(&bytes[0..4], &[0, 0, 0, 2]);
    let back = OpenStreetMap::decode(&bytes).unwrap();
    assert_eq!(back.node_count(), 2);
    for i in 0..2u32 {
        let a = map.get(i);
        let b = back.get(i);
        assert_eq!(a.location, b.location);
        assert_eq!(a.connected.len(), b.connected.len());
        for j in 0..a.connected.len() {
            assert_eq!(a.connected.get(j), b.connected.get(j));
        }
    }
}

#[test]
fn encode_layout_is_big_endian() {
    let map = OpenStreetMap::from_nodes(vec![node(-1, 258, vec![0])]).unwrap();
    assert_eq!(
        map.encode(),
        vec![0, 0, 0, 1, 255, 255, 255, 255, 0, 0, 1, 2, 1, 0, 0, 0, 0]
    );
}

#[test]
fn truncated_file_is_an_error() {
    // One node declaring five neighbors, of which only two are present.
    let mut bytes = vec![0, 0, 0, 1, 0, 0, 0, 1, 0, 0, 0, 2, 5];
    bytes.extend_from_slice(&[0, 0, 0, 0, 0, 0, 0, 0]);
    assert_eq!(OpenStreetMap::decode(&bytes).err(), Some(DecodeError::Truncated));
    assert_eq!(OpenStreetMap::decode(&[0, 0]).err(), Some(DecodeError::Truncated));
}

#[test]
fn bad_neighbor_is_an_error() {
    let bytes = vec![0, 0, 0, 1, 0, 0, 0, 0, 0, 0, 0, 0, 1, 0, 0, 0, 7];
    assert_eq!(OpenStreetMap::decode(&bytes).err(), Some(DecodeError::BadNeighbor));
}

#[test]
fn closest_skips_isolated_nodes() {
    let map = OpenStreetMap::from_nodes(vec![
        node(0, 0, vec![]),
        node(10, 10, vec![2]),
        node(20, 20, vec![1]),
    ])
    .unwrap();
    let c = map.closest(1, 1).unwrap();
    assert_eq!(c.id, 1);
    assert_eq!(c.dist, 81 + 81);
    let lonely = OpenStreetMap::from_nodes(vec![node(0, 0, vec![])]).unwrap();
    assert!(lonely.closest(0, 0).is_none());
}

#[test]
fn random_pick_is_in_range() {
    let map = line();
    for _ in 0..20 {
        let (i, n) = map.random();
        assert!(i < 4);
        assert_eq!(n.location, map.get(i).location);
    }
}

#[test]
fn dist2_is_squared_distance() {
    let a = Location { lat: 3, lon: 0 };
    let b = Location { lat: 0, lon: 4 };
    assert_eq!(a.dist2(b), 25);
    let far_a = Location { lat: i32::MIN, lon: i32::MIN };
    let far_b = Location { lat: i32::MAX, lon: i32::MAX };
    assert_eq!(far_a.dist2(far_b), 2 * (u32::MAX as u128) * (u32::MAX as u128));
}

fn tags(pairs: &[(&str, &str)]) -> Vec<(String, String)> {
    pairs.iter().map(|(k, v)| (k.to_string(), v.to_string())).collect()
}

#[test]
fn highway_tag_decides() {
    assert!(valid_way(&tags(&[("name", "Main"), ("highway", "primary")])));
    assert!(!valid_way(&tags(&[("building", "yes")])));
    assert!(!valid_way(&tags(&[])));
}

#[test]
fn build_links_way_neighbors() {
    let nodes = vec![
        RawNode { id: 100, location: Location { lat: 0, lon: 0 } },
        RawNode { id: 7, location: Location { lat: 1, lon: 1 } },
        RawNode { id: 55, location: Location { lat: 2, lon: 2 } },
        RawNode { id: 8, location: Location { lat: 3, lon: 3 } },
    ];
    let ways = vec![
        RawWay { refs: vec![100, 7, 55], tags: tags(&[("highway", "residential")]) },
        RawWay { refs: vec![7, 8], tags: tags(&[("building", "yes")]) },
        RawWay { refs: vec![55, 7], tags: tags(&[("highway", "service")]) },
    ];
    let map = OpenStreetMap::parse(&nodes, &ways).unwrap();
    // Node 8 lies on no highway and gets no index.
    assert_eq!(map.node_count(), 3);
    assert_eq!(map.get(2).location, Location { lat: 2, lon: 2 });
    let adj = |i: u32| {
        let c = &map.get(i).connected;
        (0..c.len()).map(|j| *c.get(j)).collect::<Vec<u32>>()
    };
    assert_eq!(adj(0), vec![1]);
    assert_eq!(adj(1), vec![0, 2, 2]);
    assert_eq!(adj(2), vec![1, 1]);
    let t = map.trim().unwrap();
    assert_eq!(t.node_count(), 3);
}

#[test]
fn build_reports_missing_node() {
    let nodes = vec![RawNode { id: 1, location: Location { lat: 0, lon: 0 } }];
    let ways = vec![RawWay { refs: vec![1, 2], tags: tags(&[("highway", "primary")]) }];
    assert_eq!(OpenStreetMap::parse(&nodes, &ways).err(), Some(BuildError::MissingNode));
}

#[test]
fn build_reports_degree_overflow() {
    let mut nodes = vec![RawNode { id: 0, location: Location { lat: 0, lon: 0 } }];
    let mut ways = Vec::new();
    for i in 1..=256i64 {
        nodes.push(RawNode { id: i, location: Location { lat: i as i32, lon: 0 } });
        ways.push(RawWay { refs: vec![0, i], tags: tags(&[("highway", "track")]) });
    }
    assert_eq!(OpenStreetMap::parse(&nodes, &ways).err(), Some(BuildError::DegreeOverflow));
    ways.pop();
    assert!(OpenStreetMap::parse(&nodes, &ways).is_ok());
}

#[test]
fn arbiter_reports_first_repeat() {
    let mut m = Middleman::new();
    assert!(!m.observe(3));
    assert!(!m.observe(4));
    assert_eq!(m.get_split(), None);
    assert!(m.observe(3));
    assert_eq!(m.get_split(), Some(3));
    assert!(m.observe(4));
    assert_eq!(m.get_split(), Some(3));
}

#[test]
fn bounds_span_nodes_and_paths() {
    let map = OpenStreetMap::from_nodes(vec![
        node(5, -3, vec![1]),
        node(-2, 7, vec![0, 2]),
        node(4, 1, vec![1]),
    ])
    .unwrap();
    let b = map.get_bounds();
    assert_eq!(b.from, Location { lat: -2, lon: -3 });
    assert_eq!(b.to, Location { lat: 5, lon: 7 });
    let p = path(&map, 2, 1).unwrap();
    let pb = p.get_bounds();
    assert_eq!(pb.from, Location { lat: -2, lon: 1 });
    assert_eq!(pb.to, Location { lat: 4, lon: 7 });
    let empty = OpenStreetMap::from_nodes(Vec::new()).unwrap();
    let eb = empty.get_bounds();
    assert_eq!(eb.from, Location { lat: i32::MAX, lon: i32::MAX });
    assert_eq!(eb.to, Location { lat: i32::MIN, lon: i32::MIN });
}

#[test]
fn neighbors_iterate_in_order() {
    let map = line();
    let mut it = map.next_to_id(2);
    assert_eq!(it.next(), Some(&1));
    assert_eq!(it.next(), Some(&3));
    assert_eq!(it.next(), None);
    assert_eq!(map.iterator().count(), 4);
}

#[test]
fn trimmed_build_is_connected() {
    // A triangle road, a separate two-node road, and a lone highway node.
    let loc = |i: i32| Location { lat: i, lon: 2 * i };
    let nodes: Vec<RawNode> = (1..=6).map(|i| RawNode { id: i as i64, location: loc(i) }).collect();
    let ways = vec![
        RawWay { refs: vec![1, 2, 3, 1], tags: tags(&[("highway", "primary")]) },
        RawWay { refs: vec![4, 5], tags: tags(&[("highway", "service")]) },
        RawWay { refs: vec![6], tags: tags(&[("highway", "service")]) },
    ];
    let map = OpenStreetMap::parse(&nodes, &ways).unwrap();
    assert_eq!(map.node_count(), 6);
    let t = map.trim().unwrap();
    assert_eq!(t.node_count(), 3);
    for a in 0..3u32 {
        assert!(t.get(a).connected.len() >= 1);
        for b in 0..3u32 {
            let p = path(&t, a, b).unwrap();
            assert!(is_route(&t, &p.ids, a, b));
        }
    }
}

#[test]
fn trim_of_self_links_only_fails() {
    let map = OpenStreetMap::from_nodes(vec![node(0, 0, vec![]), node(1, 1, vec![1])]).unwrap();
    assert!(map.trim().is_none());
}

#[test]
fn half_search_stops_when_arbiter_is_gone() {
    let map = line();
    let (tx, rx) = mpsc::channel::<u32>();
    drop(rx);
    let (track, delivered, _) = bi_path_helper(&map, 0, 3, tx, &SimpleParams);
    assert!(!delivered);
    assert_eq!(track.root(), 0);
    assert!(track.reached(1));
    assert!(!track.reached(2));
    assert!(!track.reached(3));
}

#[test]
fn half_search_reports_each_node_once() {
    let map = grid(4);
    let (tx, rx) = mpsc::channel::<u32>();
    let (track, delivered, _) = bi_path_helper(&map, 0, 15, tx, &SimpleParams);
    assert!(delivered);
    assert!(track.reached(15));
    let sent: Vec<u32> = rx.try_iter().collect();
    let mut sorted = sent.clone();
    sorted.sort();
    sorted.dedup();
    assert_eq!(sorted.len(), sent.len());
    assert!(!sent.contains(&0));
    for i in 1..16u32 {
        assert_eq!(sent.contains(&i), track.reached(i));
    }
}

#[test]
fn stitched_route_passes_split_once() {
    let map = line();
    let (tx, _rx) = mpsc::channel::<u32>();
    let (forward, _, _) = bi_path_helper(&map, 0, 3, tx.clone(), &SimpleParams);
    let (backward, _, _) = bi_path_helper(&map, 3, 0, tx, &SimpleParams);
    assert_eq!(PathConstructor::build_path(&forward, &backward, 2), vec![0, 1, 2, 3]);
    assert_eq!(PathConstructor::build_path(&forward, &backward, 1), vec![0, 1, 2, 3]);
    let (alone, _, _) = bi_path_helper(&map, 2, 2, mpsc::channel::<u32>().0, &SimpleParams);
    assert_eq!(PathConstructor::build_path(&alone, &alone, 2), vec![2]);
}
