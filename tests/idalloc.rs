use lethe::{Allocator, Error};

#[test]
fn allocate_hands_out_in_order() {
    let mut a = Allocator::new();
    assert_eq!(a.allocate(), Ok(0));
    assert_eq!(a.allocate(), Ok(1));
    assert_eq!(a.allocate(), Ok(2));
    assert_eq!(a.latest(), 2);
}

#[test]
fn allocate_skips_taken_and_reuses_freed() {
    let mut a = Allocator::new();
    a.reserve(1).unwrap();
    assert_eq!(a.allocate(), Ok(0));
    assert_eq!(a.allocate(), Ok(2));
    a.dealloc(0);
    assert!(!a.contains(0));
    assert_eq!(a.allocate(), Ok(3));
}

#[test]
fn allocate_wraps_around() {
    let mut a = Allocator::from_parts(u64::MAX, vec![u64::MAX, 0]).unwrap();
    assert_eq!(a.allocate(), Ok(1));
    assert_eq!(a.latest(), 1);
}

#[test]
fn reserve_twice_fails() {
    let mut a = Allocator::new();
    assert_eq!(a.reserve(5), Ok(()));
    assert_eq!(a.reserve(5), Err(Error::Dealloc));
    a.dealloc(5);
    a.dealloc(5);
    assert!(!a.contains(5));
}

#[test]
fn from_parts_rejects_duplicates() {
    assert!(Allocator::from_parts(0, vec![1, 2, 1]).is_none());
    let a = Allocator::from_parts(7, vec![3, 4]).unwrap();
    assert_eq!(a.allocated(), vec![3, 4]);
}
