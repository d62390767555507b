use tree_index::leaf::{Leaf, LeafInsert, FANOUT};

#[test]
fn leaf_search_finds_a_placed_entry() {
    let mut l = Leaf::new(5, 50);
    assert!(matches!(l.insert(3, 30), LeafInsert::Placed));
    assert_eq!(l.search(3), Some(30));
    assert_eq!(l.search(5), Some(50));
    assert_eq!(l.search(4), None);
    assert_eq!(l.len(), 2);
}

#[test]
fn leaf_refuses_a_duplicate_key() {
    let mut l = Leaf::new(5, 50);
    match l.insert(5, 51) {
        LeafInsert::Duplicate(e) => assert_eq!(e, (5, 51)),
        _ => panic!("a live entry under key 5 exists"),
    }
    assert_eq!(l.search(5), Some(50));
}

#[test]
fn leaf_reports_full_when_every_slot_is_taken() {
    let mut l = Leaf::new(0, 0);
    for k in 1..FANOUT as u64 {
        assert!(matches!(l.insert(k, k), LeafInsert::Placed));
    }
    assert_eq!(l.len(), FANOUT);
    match l.insert(FANOUT as u64, 0) {
        LeafInsert::Full(e) => assert_eq!(e, (FANOUT as u64, 0)),
        _ => panic!("the leaf has no free slot"),
    }
}

#[test]
fn leaf_remove_retires_the_entry_once() {
    let mut l = Leaf::new(7, 70);
    assert!(l.remove(7));
    assert!(!l.remove(7));
    assert_eq!(l.search(7), None);
    assert_eq!(l.len(), 0);
}

#[test]
fn leaf_split_moves_the_upper_half_out() {
    let mut l = Leaf::new(0, 0);
    for k in 1..8u64 {
        assert!(matches!(l.insert(k, k * 10), LeafInsert::Placed));
    }
    let r = l.split();
    assert_eq!(l.len(), 4);
    assert_eq!(r.len(), 4);
    assert_eq!(l.search(3), Some(30));
    assert_eq!(r.search(4), Some(40));
    assert_eq!(l.search(4), None);
}

#[test]
fn leaf_min_ge_positions_a_cursor() {
    let mut l = Leaf::new(10, 1);
    assert!(matches!(l.insert(20, 2), LeafInsert::Placed));
    assert_eq!(l.min_ge(0), Some((10, 1)));
    assert_eq!(l.min_ge(11), Some((20, 2)));
    assert_eq!(l.min_ge(21), None);
}
