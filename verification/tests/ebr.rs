use tree_index::ebr::arc::{Arc, Ptr};
use tree_index::ebr::Barrier;

#[test]
fn handle_keeps_the_instance() {
    let a: Arc<u64> = Arc::new(31);
    assert_eq!(*a.as_ref(), 31);
}

#[test]
fn cloned_handles_see_the_same_instance() {
    let a: Arc<u64> = Arc::new(10);
    let b = a.clone();
    assert_eq!(*a.as_ref(), *b.as_ref());
}

#[test]
fn hazardous_pointer_reads_through_the_barrier() {
    let a: Arc<u64> = Arc::new(37);
    let barrier = Barrier::new();
    let p = a.ptr(&barrier);
    assert!(!p.is_null());
    assert_eq!(p.as_ref().copied(), Some(37));
}

#[test]
fn null_pointer_reads_nothing_and_fails_to_upgrade() {
    let barrier = Barrier::new();
    let _ = &barrier;
    let p: Ptr<u64> = Ptr::null();
    assert!(p.is_null());
    assert!(p.as_ref().is_none());
    assert!(p.try_into_arc().is_err());
}

#[test]
fn live_pointer_upgrades_to_a_strong_handle() {
    let a: Arc<u64> = Arc::new(99);
    let barrier = Barrier::new();
    let p = a.ptr(&barrier);
    match p.try_into_arc() {
        Ok(b) => assert_eq!(*b.as_ref(), 99),
        Err(_) => panic!("the loan keeps the count positive"),
    }
}
