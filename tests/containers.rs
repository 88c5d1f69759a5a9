use osm_astar::compact_array::CompactVec;
use osm_astar::frontier::Frontier;

#[test]
fn vec_append() {
    let mut compact_vec = CompactVec::empty();
    let vec = vec![1u8, 2u8];
    compact_vec.append(vec);

    assert_eq!(1, *compact_vec.get(0));
    assert_eq!(2, *compact_vec.get(1));
}

#[test]
fn push_and_push2_keep_order() {
    let mut compact_vec = CompactVec::empty();
    compact_vec.push(0u32);
    compact_vec.push2(1, 2);
    compact_vec.push(3);
    assert_eq!(compact_vec.len(), 4);
    for i in 0..4u8 {
        assert_eq!(*compact_vec.get(i), i as u32);
    }
}

#[test]
fn empty_has_no_elements() {
    let compact_vec: CompactVec<u32> = CompactVec::empty();
    assert_eq!(compact_vec.len(), 0);
    let mut it = compact_vec.iterator();
    assert!(it.next().is_none());
}

#[test]
fn iterator_walks_all_elements() {
    let compact_vec = CompactVec::from_vec(vec![5u32, 6, 7]);
    let mut it = compact_vec.iterator();
    assert_eq!(it.next(), Some(&5));
    assert_eq!(it.next(), Some(&6));
    assert_eq!(it.next(), Some(&7));
    assert_eq!(it.next(), None);
    assert_eq!(it.next(), None);
}

#[test]
fn fills_to_largest_size() {
    let mut compact_vec = CompactVec::empty();
    for i in 0..255u32 {
        compact_vec.push(i);
    }
    assert_eq!(compact_vec.len(), 255);
    assert_eq!(*compact_vec.get(254), 254);
}

#[test]
fn queue_min() {
    let mut queue = Frontier::new();
    queue.push(7, 1);
    queue.push(3, 2);
    queue.push(9, 3);
    assert_eq!(2, queue.pop().unwrap().1);
    assert_eq!(1, queue.pop().unwrap().1);
    assert_eq!(3, queue.pop().unwrap().1);
    assert!(queue.pop().is_none());
}
