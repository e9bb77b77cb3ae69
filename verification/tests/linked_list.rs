use blog_os::allocator::{align_up, is_power_of_two, ListNode};
use blog_os::allocator::linked_list::LinkedListAllocator;

#[test]
fn align_up_rounds_to_boundary() {
    assert_eq!(align_up(5, 8), 8);
    assert_eq!(align_up(16, 8), 16);
    assert_eq!(align_up(0x1001, 16), 0x1010);
    assert_eq!(align_up(0, 4096), 0);
}

#[test]
fn power_of_two_check() {
    assert!(is_power_of_two(1));
    assert!(is_power_of_two(2));
    assert!(is_power_of_two(1024));
    assert!(!is_power_of_two(0));
    assert!(!is_power_of_two(3));
    assert!(!is_power_of_two(12));
}

#[test]
fn list_node_addresses() {
    let n = ListNode::new(0x40, 0x10);
    assert_eq!(n.start_addr(), 0x40);
    assert_eq!(n.end_addr(), 0x50);
}

#[test]
fn size_align_normalizes_requests() {
    // size padded to a multiple of the normalized alignment, at least the
    // header size; alignment raised to the layout floor
    assert_eq!(LinkedListAllocator::size_align(10, 8), Some((16, 16)));
    assert_eq!(LinkedListAllocator::size_align(100, 8), Some((112, 16)));
    assert_eq!(LinkedListAllocator::size_align(0, 1), Some((16, 16)));
    assert_eq!(LinkedListAllocator::size_align(32, 64), Some((64, 64)));
}

#[test]
fn alloc_from_region_checks_leftover() {
    let r = ListNode::new(0x1000, 64);
    assert_eq!(LinkedListAllocator::alloc_from_region(&r, 16, 16), Ok(0x1000));
    // exact fit is fine
    let exact = ListNode::new(0x1000, 16);
    assert_eq!(LinkedListAllocator::alloc_from_region(&exact, 16, 16), Ok(0x1000));
    // a leftover smaller than a header cannot become a region
    let tight = ListNode::new(0x1000, 24);
    assert_eq!(LinkedListAllocator::alloc_from_region(&tight, 16, 16), Err(()));
}

#[test]
fn first_fit_prefers_most_recently_freed() {
    let mut a = LinkedListAllocator::new();
    a.init(0x1000, 1024);
    assert_eq!(a.allocate(10, 8), Some(0x1000));
    assert_eq!(a.allocate(16, 16), Some(0x1010));
    a.deallocate(0x1000, 10, 8);
    // the freed block is the list head, and it fits, so it is reused first
    assert_eq!(a.allocate(8, 8), Some(0x1000));
}

#[test]
fn larger_region_found_regardless_of_free_order() {
    // only the 128-byte region can host the request, so the address does
    // not depend on the order in which the regions entered the list
    let mut a = LinkedListAllocator::new();
    a.add_free_region(0x1000, 32);
    a.add_free_region(0x2000, 128);
    assert_eq!(a.allocate(100, 8), Some(0x2000));

    let mut b = LinkedListAllocator::new();
    b.add_free_region(0x2000, 128);
    b.add_free_region(0x1000, 32);
    assert_eq!(b.allocate(100, 8), Some(0x2000));
}

#[test]
fn freed_regions_never_coalesce() {
    let mut a = LinkedListAllocator::new();
    a.init(0x1000, 64);
    assert_eq!(a.allocate(16, 16), Some(0x1000));
    assert_eq!(a.allocate(16, 16), Some(0x1010));
    assert_eq!(a.allocate(16, 16), Some(0x1020));
    assert_eq!(a.allocate(16, 16), Some(0x1030));
    a.deallocate(0x1000, 16, 16);
    a.deallocate(0x1010, 16, 16);
    // two adjacent free 16-byte regions never merge into one 32-byte one
    assert_eq!(a.allocate(32, 16), None);
    // but a 16-byte request still succeeds, from the most recent free
    assert_eq!(a.allocate(16, 16), Some(0x1010));
}
