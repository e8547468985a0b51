use lib::boards::HEAP_SIZE;
use lib::memory::align::align_up_addr;
use lib::memory::bump;
use lib::memory::linked_list::{self, node_size, ListNode};

const BASE: usize = 0x8000_0000;

#[test]
fn align_up_rounds_to_next_multiple() {
    assert_eq!(align_up_addr(0x11, 16), 0x20);
    assert_eq!(align_up_addr(0x20, 16), 0x20);
    assert_eq!(align_up_addr(0, 8), 0);
    assert_eq!(align_up_addr(7, 1), 7);
    assert_eq!(align_up_addr(0x1001, 0x1000), 0x2000);
}

#[test]
fn node_size_is_two_words() {
    assert_eq!(node_size(), 2 * std::mem::size_of::<usize>());
}

#[test]
fn bump_hands_out_heap_from_the_bottom() {
    let mut a = bump::init_heap(BASE);
    assert_eq!(a.next_free(), BASE);
    assert_eq!(a.heap_end(), BASE + HEAP_SIZE);
    assert_eq!(a.allocate(3, 1), Some(BASE));
    assert_eq!(a.next_free(), BASE + 3);
    // The next block is aligned up, past the first one.
    assert_eq!(a.allocate(8, 8), Some(BASE + 8));
    assert_eq!(a.allocate(1, 16), Some(BASE + 16));
    assert_eq!(a.next_free(), BASE + 17);
}

#[test]
fn bump_fails_when_heap_is_exhausted_and_stays_put() {
    let mut a = bump::init_heap(BASE);
    assert_eq!(a.allocate(HEAP_SIZE + 1, 1), None);
    assert_eq!(a.next_free(), BASE);
    assert_eq!(a.allocate(HEAP_SIZE, 1), Some(BASE));
    assert_eq!(a.allocate(1, 1), None);
    assert_eq!(a.next_free(), BASE + HEAP_SIZE);
}

#[test]
fn bump_empty_allocator_has_no_room() {
    let mut a = bump::Allocator::empty();
    assert_eq!(a.allocate(1, 1), None);
    assert_eq!(a.allocate(0, 1), Some(0));
}

#[test]
fn bump_init_and_dealloc() {
    let mut a = bump::Allocator::empty();
    a.init(0x1000, 0x100);
    assert_eq!(a.next_free(), 0x1000);
    assert_eq!(a.heap_end(), 0x1100);
    let p = a.allocate(0x10, 0x10).unwrap();
    a.dealloc(p, 0x10, 0x10);
    // Freeing gives nothing back.
    assert_eq!(a.next_free(), 0x1010);
}

#[test]
fn bump_range_check() {
    let mut a = bump::Allocator::empty();
    a.init(usize::MAX - 4, 4);
    assert!(!a.alloc_in_range(1, 8));
    assert!(a.alloc_in_range(1, 1));
    assert!(!a.alloc_in_range(5, 1));
    assert!(a.alloc_in_range(4, 1));
}

#[test]
fn list_serves_first_fit_and_keeps_the_rest() {
    let mut a = linked_list::init_heap(BASE);
    assert_eq!(a.blocks(), vec![ListNode { addr: BASE, size: HEAP_SIZE }]);
    assert_eq!(a.allocate(100, 8), Some(BASE));
    assert_eq!(a.blocks(), vec![ListNode { addr: BASE + 100, size: HEAP_SIZE - 100 }]);
    // The start of the block is rounded up; the gap below it is lost.
    assert_eq!(a.allocate(8, 16), Some(BASE + 112));
    assert_eq!(a.blocks(), vec![ListNode { addr: BASE + 120, size: HEAP_SIZE - 120 }]);
}

#[test]
fn list_freed_block_goes_on_head_and_is_reused() {
    let mut a = linked_list::init_heap(BASE);
    let p = a.allocate(64, 8).unwrap();
    let q = a.allocate(64, 8).unwrap();
    assert_eq!(q, BASE + 64);
    a.dealloc(p, 64);
    assert_eq!(a.blocks()[0], ListNode { addr: BASE, size: 64 });
    assert_eq!(a.blocks().len(), 2);
    assert_eq!(a.allocate(64, 8), Some(p));
}

#[test]
fn list_skips_blocks_that_are_too_small() {
    let mut a = linked_list::Allocator::new(ListNode::new(0x2000, 0x100));
    a.dealloc(0x1000, 8);
    assert_eq!(a.allocate(32, 8), Some(0x2000));
    assert_eq!(
        a.blocks(),
        vec![ListNode { addr: 0x2020, size: 0xE0 }, ListNode { addr: 0x1000, size: 8 }]
    );
}

#[test]
fn list_drops_a_leftover_too_small_for_a_node() {
    let mut a = linked_list::Allocator::new(ListNode::new(0x1000, 24));
    let leftover = 24 - 10;
    assert!(leftover < node_size());
    assert_eq!(a.allocate(10, 1), Some(0x1000));
    assert!(a.blocks().is_empty());
    assert_eq!(a.allocate(1, 1), None);
}

#[test]
fn list_fails_when_nothing_fits() {
    let mut a = linked_list::init_heap(BASE);
    assert_eq!(a.allocate(HEAP_SIZE + 1, 1), None);
    assert_eq!(a.blocks(), vec![ListNode { addr: BASE, size: HEAP_SIZE }]);
    let mut e = linked_list::Allocator::empty();
    assert_eq!(e.allocate(1, 1), None);
}

#[test]
fn list_init_replaces_the_list() {
    let mut a = linked_list::Allocator::empty();
    a.init(ListNode::new(0x4000, 0x40));
    assert_eq!(a.blocks(), vec![ListNode { addr: 0x4000, size: 0x40 }]);
}

#[test]
fn list_range_check() {
    let a = linked_list::Allocator::new(ListNode::new(usize::MAX - 4, 4));
    assert!(!a.allocate_in_range(1, 8));
    assert!(a.allocate_in_range(1, 1));
    assert!(!a.allocate_in_range(5, 1));
    // A block that fits stops the search before a block whose arithmetic would overflow.
    let mut b = linked_list::Allocator::new(ListNode::new(usize::MAX - 4, 4));
    b.dealloc(0x1000, 0x100);
    assert!(b.allocate_in_range(0x10, 8));
    assert!(!b.allocate_in_range(0x200, 8));
}
