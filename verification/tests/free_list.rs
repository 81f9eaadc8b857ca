use ecs_jobs::free_list::Allocator;

#[test]
fn test_allocate() {
    let mut allocator = Allocator::with_capacity(8);
    assert_eq!(Some(0..4), allocator.allocate(4));
    assert_eq!(Some(4..6), allocator.allocate(2));
    assert_eq!(Some(6..8), allocator.allocate(2));
    assert_eq!(None, allocator.allocate(1));
}

#[test]
fn test_merge() {
    let mut allocator = Allocator::with_capacity(8);
    let front = allocator.allocate(4).unwrap();
    let middle = allocator.allocate(2).unwrap();
    let back = allocator.allocate(2).unwrap();

    allocator.deallocate(front);
    allocator.deallocate(back);

    assert_eq!(Some(0..4), allocator.allocate(5));
    allocator.deallocate(middle);
    assert_eq!(Some(4..8), allocator.allocate(9));
}

#[test]
fn allocate_zero_is_empty_range() {
    let mut allocator = Allocator::with_capacity(4);
    assert_eq!(Some(0..0), allocator.allocate(0));
    assert_eq!(Some(0..4), allocator.allocate(4));
}

#[test]
fn empty_allocator_has_nothing() {
    let mut allocator = Allocator::new();
    assert_eq!(None, allocator.allocate(1));
    let mut zero_cap = Allocator::with_capacity(0);
    assert_eq!(None, zero_cap.allocate(1));
}

#[test]
fn append_grows_free_space() {
    let mut allocator = Allocator::new();
    allocator.append(3);
    assert_eq!(Some(0..3), allocator.allocate(5));
    assert_eq!(None, allocator.allocate(1));
    allocator.append(2);
    assert_eq!(Some(3..5), allocator.allocate(2));
}

#[test]
fn deallocate_empty_range_is_noop() {
    let mut allocator = Allocator::with_capacity(2);
    allocator.deallocate(1..1);
    #[allow(clippy::reversed_empty_ranges)]
    allocator.deallocate(2..1);
    assert_eq!(Some(0..2), allocator.allocate(2));
}

#[test]
fn allocate_deallocate_round_trip() {
    // Taking a range out and handing it straight back restores the free set:
    // the same allocation sequence succeeds again from the same state.
    let mut allocator = Allocator::with_capacity(8);
    let r = allocator.allocate(3).unwrap();
    assert_eq!(0..3, r);
    allocator.deallocate(r);
    assert_eq!(Some(0..3), allocator.allocate(3));
    assert_eq!(Some(3..8), allocator.allocate(8));
    assert_eq!(None, allocator.allocate(1));
}

#[test]
fn allocations_stay_disjoint() {
    // Successive allocations never overlap, and together with the free set
    // they cover exactly the managed range.
    let mut allocator = Allocator::with_capacity(10);
    let a = allocator.allocate(4).unwrap();
    let b = allocator.allocate(4).unwrap();
    let c = allocator.allocate(4).unwrap();
    let mut seen = [false; 10];
    for r in [&a, &b, &c] {
        for i in r.clone() {
            assert!(!seen[i as usize], "ranges overlap at {i}");
            seen[i as usize] = true;
        }
    }
    assert!(seen.iter().all(|&s| s));
}
