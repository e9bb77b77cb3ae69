use blog_os::allocator::bump::BumpAllocator;

#[test]
fn bump_allocates_sequentially_and_aligns() {
    let mut b = BumpAllocator::new();
    b.init(0x1000, 1024);
    assert_eq!(b.allocate(10, 1), Some(0x1000));
    assert_eq!(b.next(), 0x100a);
    // the cursor is rounded up to the requested alignment
    assert_eq!(b.allocate(16, 16), Some(0x1010));
    assert_eq!(b.next(), 0x1020);
    assert_eq!(b.allocations(), 2);
}

#[test]
fn bump_fails_when_exhausted() {
    let mut b = BumpAllocator::new();
    b.init(0x1000, 64);
    assert_eq!(b.allocate(48, 1), Some(0x1000));
    // 32 more bytes would overrun the heap end
    assert_eq!(b.allocate(32, 1), None);
    // but 16 still fit
    assert_eq!(b.allocate(16, 1), Some(0x1030));
}

#[test]
fn bump_full_reclamation_resets_cursor() {
    let mut b = BumpAllocator::new();
    b.init(0x1000, 256);
    let a1 = b.allocate(8, 8).unwrap();
    let a2 = b.allocate(8, 8).unwrap();
    let a3 = b.allocate(8, 8).unwrap();
    assert_eq!((a1, a2, a3), (0x1000, 0x1008, 0x1010));
    b.deallocate(a1, 8);
    b.deallocate(a2, 8);
    // freeing fewer than all live allocations does not move the cursor,
    // and an allocation that would overrun the heap end fails
    assert_eq!(b.next(), 0x1018);
    assert_eq!(b.allocate(256, 1), None);
    b.deallocate(a3, 8);
    // freeing the last one reclaims the whole arena
    assert_eq!(b.next(), 0x1000);
    assert_eq!(b.allocations(), 0);
    assert_eq!(b.allocate(256, 1), Some(0x1000));
}
