use interval_experiments::Interval;

#[test]
fn test_interval_overlaps_contains() {
    let a = Interval::new(0, 10);
    let b = Interval::new(5, 6);
    assert!(a.overlaps(b));
    assert!(b.overlaps(a));
}

#[test]
fn test_interval_overlaps_lhs() {
    let a = Interval::new(5, 10);
    let b = Interval::new(3, 6);
    assert!(a.overlaps(b));
    assert!(b.overlaps(a));
}

#[test]
fn test_interval_overlaps_rhs() {
    let a = Interval::new(5, 10);
    let b = Interval::new(8, 12);
    assert!(a.overlaps(b));
    assert!(b.overlaps(a));
}

#[test]
fn test_interval_overlaps_none_lhs() {
    let a = Interval::new(5, 6);
    let b = Interval::new(0, 1);
    assert!(!(a.overlaps(b)));
    assert!(!(b.overlaps(a)));
}

#[test]
fn test_interval_overlaps_none_rhs() {
    let a = Interval::new(0, 4);
    let b = Interval::new(5, 11);
    assert!(!(a.overlaps(b)));
    assert!(!(b.overlaps(a)));
}

#[test]
fn test_interval_contains() {
    let a = Interval::new(0, 10);
    let b = Interval::new(5, 6);
    assert!(a.contains(b));
    assert!(!b.contains(a));
    assert!(a.contains(a));
}

#[test]
fn test_interval_from_pair() {
    let a: Interval = (3u64, 9u64).into();
    assert_eq!(a.start, 3);
    assert_eq!(a.end, 9);
}

#[test]
fn test_interval_shared_endpoint_overlaps() {
    let a = Interval::new(0, 5);
    let b = Interval::new(5, 11);
    assert!(a.overlaps(b));
    assert!(b.overlaps(a));
}
