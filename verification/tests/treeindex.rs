use tree_index::treeindex::TreeIndex;

#[test]
fn empty_tree_behaves_like_empty_map() {
    let t = TreeIndex::new();
    assert_eq!(t.read(&1, |_k, v| *v), None);
    assert_eq!(t.len(), 0);
    assert_eq!(t.depth(), 0);
    let mut sc = t.iter();
    assert_eq!(sc.next(), None);
    assert!(t.from(&0).is_none());
}

#[test]
fn scan_yields_inserted_entries_in_order() {
    let mut t = TreeIndex::new();
    assert!(t.insert(1, 10).is_ok());
    assert!(t.insert(2, 11).is_ok());
    assert!(t.insert(3, 13).is_ok());
    let mut sc = t.iter();
    assert_eq!(sc.next(), Some((1, 10)));
    assert_eq!(sc.next(), Some((2, 11)));
    assert_eq!(sc.next(), Some((3, 13)));
    assert_eq!(sc.next(), None);
    assert_eq!(sc.next(), None);
}

#[test]
fn duplicate_insert_is_refused_and_read_sees_first_value() {
    let mut t = TreeIndex::new();
    assert!(t.insert(1, 10).is_ok());
    assert_eq!(t.insert(1, 11), Err((1, 11)));
    assert_eq!(t.read(&1, |_k, v| *v), Some(10));
}

#[test]
fn sixteen_entries_fit_one_leaf() {
    let mut t = TreeIndex::new();
    for key in 0..16u64 {
        assert!(t.insert(key, key + 100).is_ok());
    }
    assert_eq!(t.len(), 16);
    assert_eq!(t.depth(), 1);
}

#[test]
fn range_scan_from_a_key_yields_the_suffix() {
    let mut t = TreeIndex::new();
    for key in 0..1024u64 {
        assert!(t.insert(key, key).is_ok());
    }
    let mut sc = t.from(&512).expect("key 512 exists");
    assert_eq!(sc.get(), Some((512, 512)));
    let mut expected = 513u64;
    while let Some((k, v)) = sc.next() {
        assert_eq!(k, expected);
        assert_eq!(v, expected);
        expected += 1;
    }
    assert_eq!(expected, 1024);
    assert_eq!(sc.next(), None);
}

#[test]
fn clear_empties_the_tree() {
    let mut t = TreeIndex::new();
    for key in 0..256u64 {
        assert!(t.insert(key, key).is_ok());
    }
    t.clear();
    assert_eq!(t.len(), 0);
    let mut sc = t.iter();
    assert_eq!(sc.next(), None);
}

#[test]
fn remove_is_idempotent() {
    let mut t = TreeIndex::new();
    assert!(!t.remove(&7));
    assert!(t.insert(7, 70).is_ok());
    assert!(t.remove(&7));
    assert!(!t.remove(&7));
    assert!(!t.remove(&8));
}

#[test]
fn depth_stays_within_the_half_fanout_bound() {
    // With fanout 16, every split leaves halves of at least 8, so after
    // 1024 distinct inserts the depth stays within ceil(log_8(1024)) + 1.
    let mut t = TreeIndex::new();
    for key in 0..1024u64 {
        assert!(t.insert(key, key).is_ok());
    }
    assert!(t.depth() >= 2);
    assert!(t.depth() <= 5);
    assert_eq!(t.len(), 1024);
}

#[test]
fn descending_and_interleaved_inserts_scan_in_order() {
    let mut t = TreeIndex::new();
    for key in (0..200u64).rev() {
        assert!(t.insert(key, key * 2).is_ok());
    }
    for key in 0..200u64 {
        if key % 3 == 0 {
            assert!(t.remove(&key));
        }
    }
    let mut sc = t.iter();
    let mut last: Option<u64> = None;
    let mut count = 0u64;
    while let Some((k, v)) = sc.next() {
        assert_eq!(v, k * 2);
        assert_ne!(k % 3, 0);
        if let Some(p) = last {
            assert!(p < k);
        }
        last = Some(k);
        count += 1;
    }
    assert_eq!(count, 200 - 67);
    assert_eq!(t.len(), (200 - 67) as usize);
}

#[test]
fn remove_everything_then_reuse() {
    let mut t = TreeIndex::new();
    for key in 0..100u64 {
        assert!(t.insert(key, key).is_ok());
    }
    for key in 0..100u64 {
        assert!(t.remove(&key));
    }
    assert_eq!(t.len(), 0);
    assert_eq!(t.depth(), 0);
    assert!(t.insert(5, 50).is_ok());
    assert_eq!(t.read(&5, |_k, v| *v), Some(50));
    assert_eq!(t.len(), 1);
}

#[test]
fn from_lands_on_the_next_greater_key() {
    let mut t = TreeIndex::new();
    assert!(t.insert(10, 1).is_ok());
    assert!(t.insert(20, 2).is_ok());
    assert!(t.insert(30, 3).is_ok());
    let sc = t.from(&15).expect("a key at or above 15 exists");
    assert_eq!(sc.get(), Some((20, 2)));
    assert!(t.from(&31).is_none());
    let sc0 = t.from(&0).expect("a least key exists");
    assert_eq!(sc0.get(), Some((10, 1)));
}

#[test]
fn default_is_an_empty_tree() {
    let t: TreeIndex = Default::default();
    assert_eq!(t.read(&1, |_k, v| *v), None);
    assert_eq!(t.len(), 0);
    assert_eq!(t.depth(), 0);
}

#[test]
fn min_ge_finds_the_least_key_at_or_above_the_bound() {
    let mut t = TreeIndex::new();
    assert!(t.insert(10, 1).is_ok());
    assert!(t.insert(20, 2).is_ok());
    assert_eq!(t.min_ge(0), Some((10, 1)));
    assert_eq!(t.min_ge(10), Some((10, 1)));
    assert_eq!(t.min_ge(11), Some((20, 2)));
    assert_eq!(t.min_ge(21), None);
}

#[test]
fn read_applies_the_closure_to_key_and_value() {
    let mut t = TreeIndex::new();
    assert!(t.insert(3, 40).is_ok());
    assert_eq!(t.read(&3, |k, v| *k + *v), Some(43));
    assert_eq!(t.read(&4, |k, v| *k + *v), None);
}

#[test]
fn boundary_keys_scan_correctly() {
    let mut t = TreeIndex::new();
    assert!(t.insert(u64::MAX, 1).is_ok());
    assert!(t.insert(0, 2).is_ok());
    assert!(t.insert(u64::MAX - 1, 3).is_ok());
    let mut sc = t.iter();
    assert_eq!(sc.next(), Some((0, 2)));
    assert_eq!(sc.next(), Some((u64::MAX - 1, 3)));
    assert_eq!(sc.next(), Some((u64::MAX, 1)));
    assert_eq!(sc.next(), None);
    assert_eq!(sc.next(), None);
}
