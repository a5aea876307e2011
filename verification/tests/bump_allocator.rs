use systems::bump_allocator::BumpArena;

#[test]
fn bump_aligned_placement() {
    let mut a = BumpArena::new(1001, 1024);
    assert_eq!(a.reserve(1, 1), Some(1001));
    assert_eq!(a.reserve(4, 4), Some(1004));
    assert_eq!(a.used(), 7);
    assert_eq!(a.reserve(8, 8), Some(1008));
    assert_eq!(a.capacity(), 1024);
}

#[test]
fn bump_out_of_memory_and_reset() {
    let mut a = BumpArena::new(0, 16);
    assert_eq!(a.reserve(8, 8), Some(0));
    assert_eq!(a.reserve(8, 8), Some(8));
    assert_eq!(a.reserve(1, 1), None);
    assert_eq!(a.used(), 16);
    a.reset();
    assert_eq!(a.used(), 0);
    assert_eq!(a.reserve(4, 4), Some(0));
}
