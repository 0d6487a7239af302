use allocrs::fixed_size_block::FixedSizeBlockAllocator;
use allocrs::HEAP_SIZE;

const HEAP_BASE: usize = 0x3000_0000;

fn heap() -> FixedSizeBlockAllocator {
    let mut a = FixedSizeBlockAllocator::new();
    a.init(HEAP_BASE);
    a
}

#[test]
fn fixed_new_block_comes_from_the_fallback() {
    let mut a = heap();
    let x = a.allocate(8, 8).unwrap();
    assert_eq!(x, HEAP_BASE);
    // an 8-byte block takes a 16-byte node of the fallback allocator
    assert_eq!(a.bytes_allocated(), 16);
}

#[test]
fn fixed_freed_block_is_reused_first() {
    let mut a = heap();
    let x = a.allocate(24, 8).unwrap();
    let y = a.allocate(30, 8).unwrap();
    assert_ne!(x, y);
    a.dealloc(x, 24, 8);
    // the freed 32-byte block heads its list and serves the next request of that size
    assert_eq!(a.allocate(17, 1), Some(x));
}

#[test]
fn fixed_block_size_covers_alignment() {
    let mut a = heap();
    // a 1-byte request aligned to 256 needs a 256-byte block, aligned to 256
    let x = a.allocate(1, 256).unwrap();
    assert_eq!(x % 256, 0);
    assert_eq!(a.bytes_allocated(), 256);
}

#[test]
fn fixed_large_requests_bypass_the_lists() {
    let mut a = heap();
    let x = a.allocate(4096, 8).unwrap();
    assert_eq!(x, HEAP_BASE);
    assert_eq!(a.bytes_allocated(), 4096);
    a.dealloc(x, 4096, 8);
    assert_eq!(a.bytes_allocated(), 0);
    assert_eq!(a.free_bytes(), HEAP_SIZE as u128);
}

#[test]
fn fixed_freed_blocks_stay_in_their_lists() {
    let mut a = heap();
    let x = a.allocate(2048, 8).unwrap();
    a.dealloc(x, 2048, 8);
    // the block sits in the 2048-byte list, not with the fallback
    assert_eq!(a.bytes_allocated(), 0);
    assert_eq!(a.allocate(2048, 2048), Some(x));
}

#[test]
fn fixed_default_is_uninitialized() {
    let a: FixedSizeBlockAllocator = Default::default();
    assert!(!a.initialized());
    assert_eq!(a.free_bytes(), 0);
}

#[test]
fn fixed_can_free_only_blocks_in_use() {
    let mut a = heap();
    let x = a.allocate(64, 8).unwrap();
    let big = a.allocate(4096, 8).unwrap();
    assert!(a.can_free(x, 64, 8));
    assert!(a.can_free(big, 4096, 8));
    // a range of the free heap is not in use
    assert!(!a.can_free(big + 8192, 64, 8));
    a.dealloc(x, 64, 8);
    // freed twice: the block is on its list already
    assert!(!a.can_free(x, 64, 8));
    a.dealloc(big, 4096, 8);
    assert!(!a.can_free(big, 4096, 8));
}

#[test]
fn fixed_handed_out_blocks_do_not_overlap() {
    let mut a = heap();
    let mut blocks = Vec::new();
    for (size, align) in [(8, 8), (24, 8), (100, 4), (3000, 8), (8, 8), (1024, 1024), (24, 8)] {
        assert!(a.can_serve(size, align));
        let x = a.allocate(size, align).unwrap();
        blocks.push((x, size));
    }
    a.dealloc(blocks[1].0, 24, 8);
    let again = a.allocate(24, 8).unwrap();
    assert_eq!(again, blocks[1].0);
    for (i, &(x, sx)) in blocks.iter().enumerate() {
        for &(y, sy) in blocks.iter().skip(i + 1) {
            assert!(x + sx <= y || y + sy <= x);
        }
    }
}

#[test]
fn fixed_cannot_serve_before_init() {
    let a = FixedSizeBlockAllocator::new();
    assert!(!a.can_serve(8, 8));
    assert!(!a.can_serve(4096, 8));
}
