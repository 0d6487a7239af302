use allocrs::slab::{Slab, SlabCache};
use allocrs::PAGE_SIZE;

/// Where the test pages start; each new slab gets the next page.
const PAGE_BASE: usize = 0x7000_0000;

/// Allocates from `cache`, handing it a new page when it needs a slab.
fn cache_alloc<T>(cache: &mut SlabCache<T>, pages: &mut usize) -> usize {
    let fresh = if cache.needs_slab() {
        let page = PAGE_BASE + *pages * PAGE_SIZE;
        *pages += 1;
        Some(Slab::new(page))
    } else {
        None
    };
    cache.allocate(fresh)
}

// --- Slab tests ---

#[test]
fn slab_alloc_returns_nonnull() {
    let mut slab = Slab::<u64>::new(PAGE_BASE);
    let ptr = slab.allocate();
    assert!(ptr.is_some());
    assert!(ptr.unwrap() != 0);
}

#[test]
fn slab_fills_to_capacity() {
    let mut slab = Slab::<u64>::new(PAGE_BASE);
    let num_slots = slab.num_slots();
    for _ in 0..num_slots {
        assert!(slab.allocate().is_some());
    }
    assert!(slab.is_full());
    assert!(slab.allocate().is_none());
}

#[test]
fn slab_dealloc_frees_slot() {
    let mut slab = Slab::<u64>::new(PAGE_BASE);
    let ptr = slab.allocate().unwrap();
    slab.dealloc(ptr);
    assert!(slab.is_empty());
    // freed slot is reused on next alloc
    let ptr2 = slab.allocate().unwrap();
    assert_eq!(ptr, ptr2);
}

#[test]
fn slab_contains_inside() {
    let slab = Slab::<u64>::new(PAGE_BASE);
    let first_slot = slab.start_addr();
    let last_slot = slab.start_addr() + PAGE_SIZE - 8;
    assert!(slab.contains(first_slot));
    assert!(slab.contains(last_slot));
}

#[test]
fn slab_contains_outside() {
    let slab = Slab::<u64>::new(PAGE_BASE);
    let just_past_end = slab.start_addr() + PAGE_SIZE;
    assert!(!slab.contains(0));
    assert!(!slab.contains(just_past_end));
}

// --- SlabCache tests ---
// Uses [u8; 2048] so num_slots = PAGE_SIZE / 2048 = 2, making routing easy to trigger.

#[test]
fn cache_basic_alloc_dealloc() {
    let mut pages = 0;
    let mut cache = SlabCache::<u64>::new();
    let ptr = cache_alloc(&mut cache, &mut pages);
    assert!(ptr != 0);
    cache.dealloc(ptr);
}

#[test]
fn cache_full_slab_moves_to_full_list() {
    let mut pages = 0;
    let mut cache = SlabCache::<[u8; 2048]>::new();
    let a = cache_alloc(&mut cache, &mut pages);
    let b = cache_alloc(&mut cache, &mut pages); // slab should now be full
    assert!(!cache.full.is_empty());
    assert!(cache.partial.is_empty());
    cache.dealloc(a);
    cache.dealloc(b);
}

#[test]
fn cache_dealloc_full_to_partial() {
    let mut pages = 0;
    let mut cache = SlabCache::<[u8; 2048]>::new();
    let a = cache_alloc(&mut cache, &mut pages);
    let b = cache_alloc(&mut cache, &mut pages);
    assert!(!cache.full.is_empty());
    cache.dealloc(a); // slab goes from full → partial
    assert!(!cache.partial.is_empty());
    cache.dealloc(b);
}

#[test]
fn cache_dealloc_partial_to_empty() {
    let mut pages = 0;
    let mut cache = SlabCache::<[u8; 2048]>::new();
    let a = cache_alloc(&mut cache, &mut pages);
    let b = cache_alloc(&mut cache, &mut pages);
    cache.dealloc(a);
    cache.dealloc(b); // slab goes from partial → empty
    assert!(!cache.empty.is_empty());
    assert!(cache.partial.is_empty());
}

#[test]
fn cache_reuses_empty_slab_before_creating_new() {
    let mut pages = 0;
    let mut cache = SlabCache::<[u8; 2048]>::new();
    let a = cache_alloc(&mut cache, &mut pages);
    let b = cache_alloc(&mut cache, &mut pages);
    cache.dealloc(a);
    cache.dealloc(b);
    assert!(!cache.empty.is_empty());
    // next alloc should pull from empty, not map a new slab
    let _ = cache_alloc(&mut cache, &mut pages);
    assert!(cache.empty.is_empty());
    assert_eq!(pages, 1);
}

#[test]
fn cache_spans_multiple_slabs() {
    let mut pages = 0;
    let mut cache = SlabCache::<[u8; 2048]>::new();
    // 4 allocs with num_slots=2 forces a second slab
    let ptrs: Vec<_> = (0..4).map(|_| cache_alloc(&mut cache, &mut pages)).collect();
    assert!(!cache.full.is_empty());
    for ptr in ptrs {
        cache.dealloc(ptr);
    }
    assert!(!cache.empty.is_empty());
}

#[test]
fn slab_slots_follow_the_type_size() {
    let slab = Slab::<[u8; 2048]>::new(PAGE_BASE);
    assert_eq!(slab.num_slots(), 2);
    let small = Slab::<u8>::new(PAGE_BASE);
    // slots hold at least a free-list link
    assert_eq!(small.num_slots(), PAGE_SIZE / 8);
}

#[test]
fn slab_hands_out_slots_from_the_page_start() {
    let mut slab = Slab::<[u8; 2048]>::new(PAGE_BASE);
    assert_eq!(slab.allocate(), Some(PAGE_BASE));
    assert_eq!(slab.allocate(), Some(PAGE_BASE + 2048));
    assert_eq!(slab.allocate(), None);
}

#[test]
fn cache_dealloc_keeps_other_slabs() {
    let mut pages = 0;
    let mut cache = SlabCache::<[u8; 2048]>::new();
    let ptrs: Vec<_> = (0..4).map(|_| cache_alloc(&mut cache, &mut pages)).collect();
    assert_eq!(cache.full.len(), 2);
    // freeing into the newer slab leaves the older one in the full list
    cache.dealloc(ptrs[3]);
    assert_eq!(cache.full.len(), 1);
    assert_eq!(cache.partial.len(), 1);
    // the partial slab serves the next allocation with the freed slot
    assert_eq!(cache_alloc(&mut cache, &mut pages), ptrs[3]);
    assert_eq!(pages, 2);
}

#[test]
fn cache_default_has_no_slabs() {
    let cache: SlabCache<u64> = Default::default();
    assert!(cache.needs_slab());
}

#[test]
fn slab_slots_lie_in_the_page_without_overlap() {
    let mut slab = Slab::<[u8; 24]>::new(PAGE_BASE);
    let n = slab.num_slots();
    assert_eq!(n, PAGE_SIZE / 24);
    let mut slots = Vec::new();
    while let Some(slot) = slab.allocate() {
        assert!(PAGE_BASE <= slot && slot + 24 <= PAGE_BASE + PAGE_SIZE);
        slots.push(slot);
    }
    assert_eq!(slots.len(), n);
    slots.sort();
    for w in slots.windows(2) {
        assert!(w[0] + 24 <= w[1]);
    }
}

#[test]
fn slab_is_live_only_for_slots_in_use() {
    let mut slab = Slab::<[u8; 24]>::new(PAGE_BASE);
    let x = slab.allocate().unwrap();
    assert_eq!(x, PAGE_BASE);
    assert!(slab.is_live(x));
    // not the start of a slot, a free slot, outside the page
    assert!(!slab.is_live(x + 8));
    assert!(!slab.is_live(x + 24));
    assert!(!slab.is_live(PAGE_BASE + PAGE_SIZE));
    slab.dealloc(x);
    assert!(!slab.is_live(x));
}

#[test]
fn cache_can_free_only_slots_in_use() {
    let mut pages = 0;
    let mut cache = SlabCache::<[u8; 2048]>::new();
    let a = cache_alloc(&mut cache, &mut pages);
    assert!(cache.can_free(a));
    assert!(!cache.can_free(a + 2048));
    assert!(!cache.can_free(a + 8));
    assert!(!cache.can_free(PAGE_BASE + 8 * PAGE_SIZE));
    cache.dealloc(a);
    assert!(!cache.can_free(a));
}

#[test]
fn cache_knows_its_pages() {
    let mut pages = 0;
    let mut cache = SlabCache::<[u8; 2048]>::new();
    assert!(!cache.holds_page(PAGE_BASE));
    let a = cache_alloc(&mut cache, &mut pages);
    let b = cache_alloc(&mut cache, &mut pages);
    let c = cache_alloc(&mut cache, &mut pages);
    assert!(cache.holds_page(PAGE_BASE));
    assert!(cache.holds_page(PAGE_BASE + PAGE_SIZE));
    assert!(!cache.holds_page(PAGE_BASE + 2 * PAGE_SIZE));
    // slots handed out are all distinct
    assert!(a != b && b != c && a != c);
}

#[test]
fn slab_empty_when_every_slot_is_returned() {
    let mut slab = Slab::<u64>::new(PAGE_BASE);
    assert!(slab.is_empty());
    let a = slab.allocate().unwrap();
    let b = slab.allocate().unwrap();
    let c = slab.allocate().unwrap();
    assert_eq!(a, slab.start_addr());
    slab.dealloc(b);
    assert!(!slab.is_empty());
    slab.dealloc(a);
    slab.dealloc(c);
    assert!(slab.is_empty());
    assert_eq!(slab.start_addr(), PAGE_BASE);
}
