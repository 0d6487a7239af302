use allocrs::buddy::BuddyAllocator;
use allocrs::HEAP_SIZE;
use std::collections::HashMap;

/// Where the test heap starts (page aligned, like a fresh mapping).
const HEAP_BASE: usize = 0x4000_0000;

/// A heap of 64-byte smallest blocks in 14 orders.
type Buddy = BuddyAllocator<64, 14>;

fn heap() -> Buddy {
    let mut a = Buddy::new();
    a.init(HEAP_BASE);
    a
}

#[test]
fn simple_allocation() {
    let mut a = heap();
    let mut memory: HashMap<usize, i32> = HashMap::new();
    let x = a
        .allocate(std::mem::size_of::<i32>(), std::mem::align_of::<i32>())
        .unwrap();
    memory.insert(x, 42);
    assert_eq!(memory[&x], 42);
    a.dealloc(x, std::mem::size_of::<i32>(), std::mem::align_of::<i32>());
    assert_eq!(a.bytes_allocated(), 0);
}

#[test]
fn large_vec() {
    let mut a = heap();
    let n = 1000;
    let size = n * std::mem::size_of::<usize>();
    let base = a.allocate(size, std::mem::align_of::<usize>()).unwrap();
    let mut memory: HashMap<usize, usize> = HashMap::new();
    for i in 0..n {
        memory.insert(base + i * std::mem::size_of::<usize>(), i);
    }
    assert_eq!(memory.len(), n);
    assert!(base >= HEAP_BASE && base + size <= HEAP_BASE + HEAP_SIZE);
    // 8000 bytes are served by an 8 KiB block
    assert_eq!(a.bytes_allocated(), 8192);
}

#[test]
fn many_boxes() {
    let mut a = heap();
    let mut memory: HashMap<usize, usize> = HashMap::new();
    for i in 0..HEAP_SIZE {
        let x = a.allocate(8, 8).unwrap();
        memory.insert(x, i);
        assert_eq!(memory[&x], i);
        a.dealloc(x, 8, 8);
    }
    assert_eq!(a.bytes_allocated(), 0);
}

#[test]
fn many_boxes_long_lived() {
    let mut a = heap();
    let mut memory: HashMap<usize, usize> = HashMap::new();
    let long_lived = a.allocate(8, 8).unwrap();
    memory.insert(long_lived, 1);
    for i in 0..HEAP_SIZE {
        let x = a.allocate(8, 8).unwrap();
        assert_ne!(x, long_lived);
        memory.insert(x, i);
        assert_eq!(memory[&x], i);
        a.dealloc(x, 8, 8);
    }
    assert_eq!(memory[&long_lived], 1);
}

#[test]
fn buddy_new_heap_is_two_free_halves() {
    let a = heap();
    assert!(a.initialized());
    assert_eq!(a.bytes_allocated(), 0);
}

#[test]
fn buddy_smallest_block_splits_from_the_top() {
    let mut a = heap();
    // the upper half heads the top list; it is split down to 64 bytes
    let x = a.allocate(1, 1).unwrap();
    assert_eq!(x, HEAP_BASE + HEAP_SIZE / 2);
    assert_eq!(a.bytes_allocated(), 64);
    // the next one is its buddy
    let y = a.allocate(64, 64).unwrap();
    assert_eq!(y, x + 64);
    assert_eq!(a.bytes_allocated(), 128);
}

#[test]
fn buddy_dealloc_merges_back() {
    let mut a = heap();
    let x = a.allocate(100, 8).unwrap();
    let y = a.allocate(100, 8).unwrap();
    assert_eq!(y, x + 128);
    a.dealloc(x, 100, 8);
    a.dealloc(y, 100, 8);
    assert_eq!(a.bytes_allocated(), 0);
    // after merging, the whole lower half can be handed out again
    let half = a.allocate(HEAP_SIZE / 2, 8).unwrap();
    assert_eq!(half, HEAP_BASE + HEAP_SIZE / 2);
    let other = a.allocate(HEAP_SIZE / 2, 8).unwrap();
    assert_eq!(other, HEAP_BASE);
    assert_eq!(a.bytes_allocated(), HEAP_SIZE);
}

#[test]
fn buddy_alloc_then_dealloc_restores_state() {
    let mut a = heap();
    let first = a.allocate(64, 64).unwrap();
    assert_eq!(a.bytes_allocated(), 64);
    a.dealloc(first, 64, 64);
    assert_eq!(a.bytes_allocated(), 0);
    // the halves split off were merged back: both top blocks are free again
    assert_eq!(a.allocate(HEAP_SIZE / 2, 8), Some(HEAP_BASE + HEAP_SIZE / 2));
    assert_eq!(a.allocate(HEAP_SIZE / 2, 8), Some(HEAP_BASE));
    a.dealloc(HEAP_BASE, HEAP_SIZE / 2, 8);
    a.dealloc(HEAP_BASE + HEAP_SIZE / 2, HEAP_SIZE / 2, 8);
    let again = a.allocate(64, 64).unwrap();
    assert_eq!(first, again);
}

#[test]
fn buddy_request_larger_than_top_block_fails() {
    let mut a = heap();
    assert_eq!(a.allocate(HEAP_SIZE / 2 + 1, 8), None);
    assert_eq!(a.allocate(8, HEAP_SIZE), None);
    assert_eq!(a.bytes_allocated(), 0);
}

#[test]
fn buddy_out_of_memory() {
    let mut a = heap();
    assert!(a.allocate(HEAP_SIZE / 2, 8).is_some());
    assert!(a.allocate(HEAP_SIZE / 2, 8).is_some());
    assert_eq!(a.allocate(64, 8), None);
    assert_eq!(a.bytes_allocated(), HEAP_SIZE);
}

#[test]
fn buddy_page_configuration() {
    let mut a = BuddyAllocator::<4096, 8>::new();
    a.init(HEAP_BASE);
    let x = a.allocate(1, 1).unwrap();
    assert_eq!(x, HEAP_BASE + HEAP_SIZE / 2);
    assert_eq!(a.bytes_allocated(), 4096);
}

#[test]
fn buddy_default_is_uninitialized() {
    let a: Buddy = Default::default();
    assert!(!a.initialized());
}

#[test]
fn buddy_can_free_only_allocated_blocks() {
    let mut a = heap();
    let x = a.allocate(64, 64).unwrap();
    assert!(a.can_free(x, 64, 64));
    // not the start of a block of that order
    assert!(!a.can_free(x + 8, 64, 64));
    // outside the heap
    assert!(!a.can_free(HEAP_BASE - 64, 64, 64));
    // the buddy is still free
    assert!(!a.can_free(x + 64, 64, 64));
    // no order serves the request
    assert!(!a.can_free(x, HEAP_SIZE, 8));
    a.dealloc(x, 64, 64);
    // freed twice
    assert!(!a.can_free(x, 64, 64));
}

#[test]
fn buddy_blocks_are_aligned_to_the_request() {
    let mut a = heap();
    let x = a.allocate(100, 64).unwrap();
    assert!(x != 0 && x % 64 == 0);
    let y = a.allocate(8, 4096).unwrap();
    assert!(y != 0 && y % 4096 == 0);
    let before = a.bytes_allocated();
    a.dealloc(y, 8, 4096);
    // freeing gives back exactly the block's size
    assert_eq!(a.bytes_allocated(), before - 4096);
}
