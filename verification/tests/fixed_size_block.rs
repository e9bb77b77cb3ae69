use blog_os::allocator::fixed_size_block::{
    block_size, list_index, FixedSizeBlockAllocator, BLOCK_SIZES_COUNT,
};

#[test]
fn list_index_picks_smallest_class() {
    assert_eq!(list_index(4, 4), Some(0));
    assert_eq!(list_index(8, 8), Some(0));
    assert_eq!(list_index(9, 1), Some(1));
    assert_eq!(list_index(100, 128), Some(4));
    assert_eq!(list_index(1, 1024), Some(7));
    assert_eq!(list_index(2048, 1), Some(8));
    assert_eq!(list_index(2049, 1), None);
}

#[test]
fn class_sizes_are_the_fixed_powers_of_two() {
    let expected = [8, 16, 32, 64, 128, 256, 512, 1024, 2048];
    assert_eq!(BLOCK_SIZES_COUNT, expected.len());
    for (i, &s) in expected.iter().enumerate() {
        assert_eq!(block_size(i), s);
    }
}

#[test]
fn class_free_then_same_size_reuses_exact_address() {
    let mut f = FixedSizeBlockAllocator::new();
    f.init(0x1000, 4096);
    let a = f.allocate(4, 4).unwrap();
    assert_eq!(a, 0x1000);
    f.deallocate(a, 4, 4);
    assert_eq!(f.class_list_len(0), 1);
    let b = f.allocate(4, 4).unwrap();
    assert_eq!(b, a);
    assert_eq!(f.class_list_len(0), 0);
}

#[test]
fn blocks_are_fungible_within_a_class() {
    let mut f = FixedSizeBlockAllocator::new();
    f.init(0x1000, 4096);
    let a = f.allocate(4, 4).unwrap();
    f.deallocate(a, 4, 4);
    // a different layout of the same class recycles the same block
    let b = f.allocate(8, 8).unwrap();
    assert_eq!(b, a);
}

#[test]
fn oversized_requests_go_to_fallback() {
    let mut f = FixedSizeBlockAllocator::new();
    f.init(0x1000, 8192);
    // beyond the largest class: forwarded to the free-list fallback
    let a = f.allocate(3000, 8).unwrap();
    assert_eq!(a, 0x1000);
    // the next class carve comes from the fallback's leftover
    let b = f.allocate(4, 4).unwrap();
    assert_eq!(b, 0x1000 + 3008);
    // a freed pass-through block returns to the fallback and is found first
    f.deallocate(a, 3000, 8);
    let c = f.allocate(3000, 8).unwrap();
    assert_eq!(c, a);
}

#[test]
fn empty_allocator_fails() {
    let mut f = FixedSizeBlockAllocator::new();
    assert_eq!(f.allocate(8, 8), None);
    assert_eq!(f.allocate(4000, 8), None);
}
