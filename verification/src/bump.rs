//! A bump allocator: allocations advance a pointer through the heap, and the
//! pointer goes back to the start once every allocation has been freed.
use vstd::prelude::*;
use crate::HEAP_SIZE;
use crate::align::{align_up, is_power_of_two, spec_align_up, lemma_align_up_props, lemma_mask_is_mod};

verus! {

/// A bump allocator over one heap.
pub struct BumpAllocator {
    heap_start: usize,
    heap_end: usize,
    next: usize,
    allocations: usize,
}

impl BumpAllocator {
    /// The start of the heap (0 until the heap is handed over).
    pub closed spec fn heap_base(&self) -> int {
        self.heap_start as int
    }

    /// One past the end of the heap (0 until the heap is handed over).
    pub closed spec fn heap_limit(&self) -> int {
        self.heap_end as int
    }

    /// The first byte not handed out since the last reset.
    pub closed spec fn next_free(&self) -> int {
        self.next as int
    }

    /// The number of allocations not freed yet.
    pub closed spec fn live_allocations(&self) -> int {
        self.allocations as int
    }

    /// The allocator has been given its heap.
    pub open spec fn is_initialized(&self) -> bool {
        self.heap_base() != 0
    }

    /// The next free byte lies in the heap, which fits in the address space
    /// and is `HEAP_SIZE` bytes long once it is handed over.
    pub closed spec fn wf(&self) -> bool {
        &&& self.heap_start <= self.next <= self.heap_end
        &&& self.heap_start != 0 ==> self.heap_end == self.heap_start + HEAP_SIZE
        &&& self.heap_start == 0 ==> self.heap_end == 0 && self.allocations == 0
    }

    /// What a consistent allocator guarantees: the next free byte lies in
    /// the heap, which fits in the address space; before the heap is handed
    /// over it is empty and nothing is allocated, after it is `HEAP_SIZE`
    /// bytes long.
    pub proof fn lemma_wf(&self)
        requires
            self.wf(),
        ensures
            0 <= self.heap_base() <= self.next_free() <= self.heap_limit() <= usize::MAX,
            self.is_initialized() ==> self.heap_limit() == self.heap_base() + HEAP_SIZE,
            !self.is_initialized() ==> self.heap_limit() == 0 && self.live_allocations() == 0,
    {
    }

    /// Creates an allocator that owns no memory yet.
    pub fn new() -> (a: Self)
        ensures
            a.wf(),
            a.heap_base() == 0,
            a.heap_limit() == 0,
            a.next_free() == 0,
            a.live_allocations() == 0,
    {
        BumpAllocator { heap_start: 0, heap_end: 0, next: 0, allocations: 0 }
    }

    /// Hands the heap `[heap_start, heap_start + HEAP_SIZE)` to the
    /// allocator; allocation starts at its first byte.
    pub fn init(&mut self, heap_start: usize)
        requires
            old(self).wf(),
            !old(self).is_initialized(),
            heap_start != 0,
            heap_start + HEAP_SIZE <= usize::MAX,
        ensures
            final(self).wf(),
            final(self).is_initialized(),
            final(self).heap_base() == heap_start,
            final(self).heap_limit() == heap_start + HEAP_SIZE,
            final(self).next_free() == heap_start,
            final(self).live_allocations() == old(self).live_allocations(),
    {
        self.heap_start = heap_start;
        self.heap_end = self.heap_start + HEAP_SIZE;
        self.next = self.heap_start;
    }

    /// Whether the allocator has been given its heap.
    pub fn initialized(&self) -> (b: bool)
        ensures
            b == self.is_initialized(),
    {
        self.heap_start != 0
    }

    /// The number of allocations not freed yet.
    pub fn allocations(&self) -> (n: usize)
        ensures
            n == self.live_allocations(),
    {
        self.allocations
    }

    /// Whether aligning the next free byte to `align` stays within the
    /// address space.
    pub fn align_fits(&self, align: usize) -> (b: bool)
        requires
            align >= 1,
        ensures
            b == (self.next_free() + align - 1 <= usize::MAX),
    {
        self.next <= usize::MAX - (align - 1)
    }

    /// Allocates `size` bytes aligned to `align` at the next free byte,
    /// aligned up. Returns `None`, changing nothing, when they do not fit
    /// before the end of the heap.
    pub fn allocate(&mut self, size: usize, align: usize) -> (r: Option<usize>)
        requires
            old(self).wf(),
            old(self).is_initialized(),
            is_power_of_two(align),
            old(self).next_free() + align - 1 <= usize::MAX,
            old(self).live_allocations() < usize::MAX,
        ensures
            final(self).wf(),
            final(self).heap_base() == old(self).heap_base(),
            final(self).heap_limit() == old(self).heap_limit(),
            ({
                let start = spec_align_up(old(self).next_free(), align as int);
                if start + size <= old(self).heap_limit() {
                    &&& r == Some(start as usize)
                    &&& final(self).next_free() == start + size
                    &&& final(self).live_allocations() == old(self).live_allocations() + 1
                } else {
                    &&& r is None
                    &&& final(self).next_free() == old(self).next_free()
                    &&& final(self).live_allocations() == old(self).live_allocations()
                }
            }),
    {
        proof {
            lemma_mask_is_mod(0, align);
            lemma_align_up_props(self.next as int, align as int);
        }
        let alloc_start = align_up(self.next, align);
        let alloc_end = match alloc_start.checked_add(size) {
            Some(end) => end,
            None => return None,
        };
        if alloc_end > self.heap_end {
            None  // out of memory

        } else {
            self.next = alloc_end;
            self.allocations = self.allocations + 1;
            Some(alloc_start)
        }
    }

    /// Frees one allocation; once none is left the whole heap is free again.
    pub fn dealloc(&mut self)
        requires
            old(self).wf(),
            old(self).live_allocations() > 0,
        ensures
            final(self).wf(),
            final(self).heap_base() == old(self).heap_base(),
            final(self).heap_limit() == old(self).heap_limit(),
            final(self).live_allocations() == old(self).live_allocations() - 1,
            final(self).next_free() == (if final(self).live_allocations() == 0 {
                old(self).heap_base()
            } else {
                old(self).next_free()
            }),
    {
        self.allocations = self.allocations - 1;
        if self.allocations == 0 {
            self.next = self.heap_start;
        }
    }

    /// The number of bytes handed out since the last reset.
    pub fn bytes_allocated(&self) -> (r: usize)
        requires
            self.wf(),
        ensures
            r == self.next_free() - self.heap_base(),
    {
        self.next - self.heap_start
    }
}

impl Default for BumpAllocator {
    fn default() -> (a: Self)
        ensures
            a.wf(),
            a.heap_base() == 0,
            a.next_free() == 0,
            a.live_allocations() == 0,
    {
        Self::new()
    }
}

/// Successive allocations do not overlap: each starts at or after the next
/// free byte, aligned up, and the one after starts at or after its end.
pub proof fn lemma_allocations_do_not_overlap(next: int, size1: int, align1: int, align2: int)
    requires
        next >= 0,
        size1 >= 0,
        align1 > 0,
        align2 > 0,
    ensures
        next <= spec_align_up(next, align1),
        spec_align_up(next, align1) + size1 <= spec_align_up(spec_align_up(next, align1) + size1, align2),
        spec_align_up(next, align1) % align1 == 0,
{
    lemma_align_up_props(next, align1);
    lemma_align_up_props(spec_align_up(next, align1) + size1, align2);
}

} // verus!
