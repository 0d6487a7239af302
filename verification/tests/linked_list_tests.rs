use allocrs::linked_list::LinkedListAllocator;
use allocrs::HEAP_SIZE;

const HEAP_BASE: usize = 0x5000_0000;

fn heap() -> LinkedListAllocator {
    let mut a = LinkedListAllocator::new();
    a.init(HEAP_BASE);
    a
}

#[test]
fn linked_list_init_frees_whole_heap() {
    let a = heap();
    assert!(a.initialized());
    assert_eq!(a.free_bytes(), HEAP_SIZE);
    assert_eq!(a.bytes_allocated(), 0);
}

#[test]
fn linked_list_small_request_takes_a_node() {
    let mut a = heap();
    // 10 bytes are padded to a 16-byte node
    let x = a.allocate(10, 1).unwrap();
    assert_eq!(x, HEAP_BASE);
    assert_eq!(a.bytes_allocated(), 16);
    let y = a.allocate(0, 1).unwrap();
    assert_eq!(y, HEAP_BASE + 16);
    assert_eq!(a.bytes_allocated(), 32);
}

#[test]
fn linked_list_alignment_padding_stays_taken() {
    let mut a = heap();
    let x = a.allocate(16, 16).unwrap();
    assert_eq!(x, HEAP_BASE);
    // the next start is aligned up to 64; the 48 bytes before it are skipped,
    // and the size is padded to the alignment
    let y = a.allocate(32, 64).unwrap();
    assert_eq!(y, HEAP_BASE + 64);
    assert_eq!(a.bytes_allocated(), 128);
    a.dealloc(y, 32, 64);
    assert_eq!(a.bytes_allocated(), 64);
}

#[test]
fn linked_list_coalesces_neighbours() {
    let mut a = heap();
    let x = a.allocate(16, 16).unwrap();
    let y = a.allocate(16, 16).unwrap();
    let z = a.allocate(16, 16).unwrap();
    assert_eq!((x, y, z), (HEAP_BASE, HEAP_BASE + 16, HEAP_BASE + 32));
    a.dealloc(y, 16, 16);
    assert_eq!(a.free_bytes(), HEAP_SIZE - 32);
    a.dealloc(x, 16, 16);
    assert_eq!(a.free_bytes(), HEAP_SIZE - 16);
    // the 32 bytes freed so far are one region again, which serves 32 bytes
    let w = a.allocate(32, 16).unwrap();
    assert_eq!(w, HEAP_BASE);
    a.dealloc(w, 32, 16);
    a.dealloc(z, 16, 16);
    assert_eq!(a.free_bytes(), HEAP_SIZE);
    // everything merged back into one region: the whole heap can be taken
    assert_eq!(a.allocate(HEAP_SIZE, 16), Some(HEAP_BASE));
    assert_eq!(a.free_bytes(), 0);
}

#[test]
fn linked_list_first_fit_skips_small_regions() {
    let mut a = heap();
    let x = a.allocate(16, 16).unwrap();
    let _y = a.allocate(16, 16).unwrap();
    a.dealloc(x, 16, 16);
    // the freed 16-byte region at the start cannot hold 32 bytes
    let z = a.allocate(32, 16).unwrap();
    assert_eq!(z, HEAP_BASE + 32);
    // but a 16-byte request fits it exactly
    assert_eq!(a.allocate(16, 16), Some(HEAP_BASE));
}

#[test]
fn linked_list_padded_request_fills_region() {
    let mut a = heap();
    let x = a.allocate(48, 16).unwrap();
    let _guard = a.allocate(16, 16).unwrap();
    a.dealloc(x, 48, 16);
    // 40 bytes are padded to 48 and take the freed 48-byte region
    let y = a.allocate(40, 8).unwrap();
    assert_eq!(y, HEAP_BASE);
    assert_eq!(a.free_bytes(), HEAP_SIZE - 64);
}

#[test]
fn linked_list_out_of_memory() {
    let mut a = heap();
    assert_eq!(a.allocate(HEAP_SIZE + 16, 16), None);
    assert_eq!(a.free_bytes(), HEAP_SIZE);
}

#[test]
fn linked_list_overlap_and_alignment_checks() {
    let mut a = heap();
    assert!(a.overlaps_free(HEAP_BASE, 16));
    let x = a.allocate(16, 16).unwrap();
    assert!(!a.overlaps_free(x, 16));
    assert!(a.align_fits(16, 4096));
    assert!(a.align_fits(16, usize::MAX / 2 + 1));
}

#[test]
fn linked_list_default_is_uninitialized() {
    let a: LinkedListAllocator = Default::default();
    assert!(!a.initialized());
    assert_eq!(a.free_bytes(), 0);
}

#[test]
fn linked_list_adjusted_layout() {
    assert_eq!(LinkedListAllocator::adjusted_layout(1, 1), Some((16, 16)));
    assert_eq!(LinkedListAllocator::adjusted_layout(17, 8), Some((32, 16)));
    assert_eq!(LinkedListAllocator::adjusted_layout(100, 64), Some((128, 64)));
    assert_eq!(LinkedListAllocator::adjusted_layout(usize::MAX / 2, 1), None);
}
