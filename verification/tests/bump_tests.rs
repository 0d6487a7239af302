use allocrs::bump::BumpAllocator;
use allocrs::HEAP_SIZE;

const HEAP_BASE: usize = 0x6000_0000;

fn heap() -> BumpAllocator {
    let mut a = BumpAllocator::new();
    a.init(HEAP_BASE);
    a
}

#[test]
fn bump_allocates_in_order() {
    let mut a = heap();
    assert_eq!(a.allocate(8, 8), Some(HEAP_BASE));
    // the next start is aligned up to 16
    assert_eq!(a.allocate(1, 16), Some(HEAP_BASE + 16));
    assert_eq!(a.bytes_allocated(), 17);
}

#[test]
fn bump_resets_when_all_freed() {
    let mut a = heap();
    a.allocate(100, 8).unwrap();
    // the second start is aligned up from 100 to 104
    a.allocate(100, 8).unwrap();
    a.dealloc();
    assert_eq!(a.bytes_allocated(), 204);
    a.dealloc();
    assert_eq!(a.bytes_allocated(), 0);
    assert_eq!(a.allocate(8, 8), Some(HEAP_BASE));
}

#[test]
fn bump_out_of_memory() {
    let mut a = heap();
    assert_eq!(a.allocate(HEAP_SIZE + 1, 1), None);
    assert_eq!(a.allocate(HEAP_SIZE, 1), Some(HEAP_BASE));
    assert_eq!(a.allocate(1, 1), None);
    assert_eq!(a.bytes_allocated(), HEAP_SIZE);
}

#[test]
fn bump_initialization() {
    let a = BumpAllocator::new();
    assert!(!a.initialized());
    let b: BumpAllocator = Default::default();
    assert!(!b.initialized());
    let c = heap();
    assert!(c.initialized());
    assert!(c.align_fits(4096));
}
