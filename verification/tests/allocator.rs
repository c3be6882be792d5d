use audio_engine::allocator::BufferAllocator;

#[test]
fn allocator_reuses_free_buffers() {
    let mut allocator = BufferAllocator::new();
    assert_eq!(allocator.allocate(10u64, 2), 0);
    assert_eq!(allocator.allocate(11, 0), 1);
    assert_eq!(allocator.allocate(12, 1), 1);
    assert_eq!(allocator.allocate(13, 1), 2);
    assert!(allocator.contains(10));
    assert!(!allocator.contains(11));
    assert!(allocator.contains(12));
    assert!(allocator.contains(13));
    assert!(!allocator.contains(14));
}

#[test]
fn empty_allocator_holds_nothing() {
    let allocator: BufferAllocator<u8> = BufferAllocator::new();
    assert!(!allocator.contains(0));
}
