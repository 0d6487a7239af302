//! A first-fit allocator over a free list kept sorted by address, in which
//! neighbouring free regions are merged whenever a region is returned.
use vstd::prelude::*;
use crate::HEAP_SIZE;
use crate::align::{
    align_up, is_power_of_two, spec_align_up, lemma_mask_is_mod, lemma_power_of_two_divides,
    lemma_multiple_of_multiple, lemma_node_size_is_power_of_two, lemma_align_up_props,
    lemma_power_of_two_exponent,
};
use vstd::layout::valid_layout;
use crate::regions::{
    NODE_SIZE, end_of, in_region, regions_wf, covers, total_size, disjoint_from, splice,
    lemma_splice, lemma_total_three, lemma_total_short, lemma_total_remove, lemma_total_take_step,
    lemma_total_prefix_bounded,
};

verus! {

/// A free-list allocator over one heap.
///
/// The free list holds `(start, size)` regions in increasing address order.
pub struct LinkedListAllocator {
    regions: Vec<(usize, usize)>,
    initialized: bool,
}

impl View for LinkedListAllocator {
    type V = Seq<(usize, usize)>;

    /// The free regions, in increasing address order.
    closed spec fn view(&self) -> Seq<(usize, usize)> {
        self.regions@
    }
}

impl LinkedListAllocator {
    /// The allocator has been given its heap.
    pub closed spec fn is_initialized(&self) -> bool {
        self.initialized
    }

    /// The free list is sorted by address and its regions neither overlap
    /// nor touch.
    pub closed spec fn wf(&self) -> bool {
        regions_wf(self.regions@)
    }

    /// The free regions of a consistent allocator are well formed, and their
    /// total fits in a machine word.
    pub proof fn lemma_wf_regions(&self)
        requires
            self.wf(),
        ensures
            regions_wf(self@),
            0 <= total_size(self@) <= usize::MAX,
    {
        crate::regions::lemma_total_prefix_bounded(self@, 0);
    }

    /// Creates an allocator that owns no memory yet.
    pub fn new() -> (a: Self)
        ensures
            a.wf(),
            !a.is_initialized(),
            a@ == Seq::<(usize, usize)>::empty(),
    {
        LinkedListAllocator { regions: Vec::new(), initialized: false }
    }

    /// Adds the region `[addr, addr + size)` to the free list, keeping it
    /// sorted by address and merging it with the free regions that end where
    /// it starts or start where it ends.
    #[verifier::spinoff_prover]
    fn add_free_region(&mut self, addr: usize, size: usize)
        requires
            regions_wf(old(self).regions@),
            addr % NODE_SIZE == 0,
            size >= NODE_SIZE,
            addr + size <= usize::MAX,
            disjoint_from(old(self).regions@, addr as int, size as int),
        ensures
            regions_wf(final(self).regions@),
            forall|x: int|
                covers(final(self).regions@, x) <==> (covers(old(self).regions@, x) || addr <= x
                    < addr + size),
            total_size(final(self).regions@) == total_size(old(self).regions@) + size,
            old(self).regions@.len() == 0 ==> final(self).regions@ == seq![(addr, size)],
            final(self).initialized == old(self).initialized,
    {
        let ghost s0 = self.regions@;
        // keep the list sorted by start address
        let mut i: usize = 0;
        while i < self.regions.len() && self.regions[i].0 < addr
            invariant
                0 <= i <= self.regions.len(),
                self.regions@ == s0,
                forall|j: int| 0 <= j < i ==> (#[trigger] s0[j]).0 < addr,
            decreases self.regions.len() - i,
        {
            i = i + 1;
        }
        proof {
            assert forall|j: int| 0 <= j < i implies end_of(#[trigger] s0[j]) <= addr by {}
            assert forall|j: int| i <= j < s0.len() implies addr + size <= (#[trigger] s0[j]).0 by {
                if j > i {
                    assert(end_of(s0[i as int]) < s0[j].0);
                }
            }
        }
        let merge_next = i < self.regions.len() && addr + size == self.regions[i].0;
        let merge_prev = i > 0 && self.regions[i - 1].0 + self.regions[i - 1].1 == addr;

        self.regions.insert(i, (addr, size));
        // coalesce with the region that follows
        if merge_next {
            let succ = self.regions.remove(i + 1);
            self.regions.set(i, (addr, size + succ.1));
        }
        let ghost s2 = self.regions@;
        // coalesce with the region that precedes
        if merge_prev {
            let cur = self.regions.remove(i);
            let pred = self.regions[i - 1];
            self.regions.set(i - 1, (pred.0, pred.1 + cur.1));
        }
        proof {
            assert(s2 == merge_after(s0.insert(i as int, (addr, size)), i as int, merge_next));
            assert(self.regions@ == merge_after(s2, i - 1, merge_prev));
            lemma_insert_region(s0, i as int, addr, size, merge_prev, merge_next);
            if s0.len() == 0 {
                assert(self.regions@ =~= seq![(addr, size)]);
            }
        }
    }

    /// Hands the heap `[heap_start, heap_start + HEAP_SIZE)` to the
    /// allocator as one free region.
    pub fn init(&mut self, heap_start: usize)
        requires
            old(self).wf(),
            !old(self).is_initialized(),
            heap_start % NODE_SIZE == 0,
            heap_start + HEAP_SIZE <= usize::MAX,
            disjoint_from(old(self)@, heap_start as int, HEAP_SIZE as int),
        ensures
            final(self).wf(),
            final(self).is_initialized(),
            forall|x: int|
                covers(final(self)@, x) <==> (covers(old(self)@, x) || heap_start <= x < heap_start
                    + HEAP_SIZE),
            total_size(final(self)@) == total_size(old(self)@) + HEAP_SIZE,
            old(self)@.len() == 0 ==> final(self)@ == seq![(heap_start, HEAP_SIZE)],
    {
        self.add_free_region(heap_start, HEAP_SIZE);
        self.initialized = true;
    }

    /// Whether the allocator has been given its heap.
    pub fn initialized(&self) -> (b: bool)
        ensures
            b == self.is_initialized(),
    {
        self.initialized
    }

    /// Tries to serve `size` bytes aligned to `align` from `region`; returns
    /// the start of the allocation.
    fn alloc_from_region(region: (usize, usize), size: usize, align: usize) -> (r: Result<usize, ()>)
        requires
            is_power_of_two(align),
            region.0 + align - 1 <= usize::MAX,
            end_of(region) <= usize::MAX,
        ensures
            r is Ok <==> region_fits(region, size as int, align as int),
            r matches Ok(start) ==> start == spec_align_up(region.0 as int, align as int),
    {
        let alloc_start = align_up(region.0, align);
        let alloc_end = match alloc_start.checked_add(size) {
            Some(end) => end,
            None => return Err(()),
        };
        if alloc_end > region.0 + region.1 {
            // region too small
            return Err(());
        }
        let excess_size = region.0 + region.1 - alloc_end;
        if excess_size > 0 && excess_size < NODE_SIZE {
            // rest of region too small to hold a free-list node
            return Err(());
        }
        Ok(alloc_start)
    }

    /// Looks for the first free region that can serve `size` bytes aligned to
    /// `align`, and removes it from the list.
    ///
    /// Returns the region and the start address of the allocation.
    #[verifier::spinoff_prover]
    fn find_region(&mut self, size: usize, align: usize) -> (r: Option<((usize, usize), usize)>)
        requires
            regions_wf(old(self).regions@),
            is_power_of_two(align),
            align_in_range(old(self).regions@, size as int, align as int),
        ensures
            final(self).initialized == old(self).initialized,
            match r {
                None => {
                    &&& forall|i: int|
                        0 <= i < old(self).regions@.len() ==> !region_fits(
                            #[trigger] old(self).regions@[i],
                            size as int,
                            align as int,
                        )
                    &&& final(self).regions@ == old(self).regions@
                },
                Some((region, start)) => exists|i: int|
                    {
                        &&& is_first_fit(old(self).regions@, i, size as int, align as int)
                        &&& region == old(self).regions@[i]
                        &&& start == spec_align_up(region.0 as int, align as int)
                        &&& final(self).regions@ == old(self).regions@.remove(i)
                    },
            },
    {
        let mut i: usize = 0;
        while i < self.regions.len()
            invariant
                0 <= i <= self.regions.len(),
                self.regions@ == old(self).regions@,
                self.initialized == old(self).initialized,
                regions_wf(self.regions@),
                is_power_of_two(align),
                align_in_range(self.regions@, size as int, align as int),
                forall|j: int|
                    0 <= j < i ==> !region_fits(#[trigger] self.regions@[j], size as int, align as int),
            decreases self.regions.len() - i,
        {
            let region = self.regions[i];
            match Self::alloc_from_region(region, size, align) {
                Ok(alloc_start) => {
                    // region suitable for allocation -> remove it from the list
                    let region = self.regions.remove(i);
                    proof {
                        assert(is_first_fit(old(self).regions@, i as int, size as int, align as int));
                    }
                    return Some((region, alloc_start));
                },
                Err(()) => {
                    // region not suitable -> continue with the next one
                    i = i + 1;
                },
            }
        }
        None
    }

    /// Adjusts a layout so that the allocated block can later hold a
    /// free-list node: the alignment becomes at least `NODE_SIZE`, the size a
    /// multiple of it and at least `NODE_SIZE`.
    ///
    /// Returns the adjusted `(size, align)`.
    pub(crate) fn size_align(size: usize, align: usize) -> (r: (usize, usize))
        requires
            valid_layout(size, align),
            valid_layout(size, adjusted_align(align) as usize),
        ensures
            r.1 == adjusted_align(align),
            r.0 == adjusted_size(size, align),
            is_power_of_two(r.1),
            r.1 >= NODE_SIZE,
            r.0 % NODE_SIZE == 0,
            r.0 >= NODE_SIZE,
    {
        let new_align = if align < NODE_SIZE { NODE_SIZE } else { align };
        proof {
            lemma_node_size_is_power_of_two();
            lemma_mask_is_mod(0, new_align);
            lemma_power_of_two_exponent(new_align);
        }
        let padded = align_up(size, new_align);
        let new_size = if padded < NODE_SIZE { NODE_SIZE } else { padded };
        proof {
            lemma_align_up_props(size as int, new_align as int);
            lemma_power_of_two_divides(new_align, 16);
            lemma_multiple_of_multiple(padded as int, new_align as int, 16);
        }
        (new_size, new_align)
    }

    /// The `(size, align)` a request of `size` bytes aligned to `align` is
    /// served with (see `size_align`), or `None` when rounding the size up to
    /// that alignment leaves the sizes a layout can have.
    pub fn adjusted_layout(size: usize, align: usize) -> (r: Option<(usize, usize)>)
        requires
            valid_layout(size, align),
        ensures
            match r {
                Some((s, a)) => {
                    &&& valid_layout(size, adjusted_align(align) as usize)
                    &&& s == adjusted_size(size, align)
                    &&& a == adjusted_align(align)
                },
                None => !valid_layout(size, adjusted_align(align) as usize),
            },
    {
        let new_align = if align < NODE_SIZE { NODE_SIZE } else { align };
        proof {
            lemma_node_size_is_power_of_two();
            lemma_mask_is_mod(0, new_align);
        }
        let max = isize::MAX as usize;
        if size > max - max % new_align {
            return None;
        }
        Some(Self::size_align(size, align))
    }

    /// Allocates `size` bytes aligned to `align` from the first free region
    /// that can serve them; what is left of that region after the allocation
    /// goes back to the list. Returns `None` when no region can serve them.
    #[verifier::spinoff_prover]
    pub fn allocate(&mut self, size: usize, align: usize) -> (r: Option<usize>)
        requires
            old(self).wf(),
            old(self).is_initialized(),
            valid_layout(size, align),
            valid_layout(size, adjusted_align(align) as usize),
            align_in_range(old(self)@, adjusted_size(size, align), adjusted_align(align)),
        ensures
            final(self).wf(),
            final(self).is_initialized(),
            alloc_outcome(old(self)@, final(self)@, size, align, r),
    {
        let (size, align) = Self::size_align(size, align);
        let ghost s0 = self.regions@;
        match self.find_region(size, align) {
            Some((region, alloc_start)) => {
                let ghost i = choose|i: int|
                    {
                        &&& is_first_fit(s0, i, size as int, align as int)
                        &&& region == s0[i]
                        &&& alloc_start == spec_align_up(region.0 as int, align as int)
                        &&& self.regions@ == s0.remove(i)
                    };
                let alloc_end = alloc_start + size;
                let excess_size = region.0 + region.1 - alloc_end;
                let ghost s1 = self.regions@;
                proof {
                    lemma_total_remove(s0, i);
                    lemma_remove_wf(s0, i);
                    lemma_remove_covers(s0, i);
                }
                if excess_size > 0 {
                    proof {
                        lemma_mask_is_mod(0, align);
                        lemma_node_size_is_power_of_two();
                        lemma_power_of_two_divides(align, 16);
                        lemma_align_up_props(region.0 as int, align as int);
                        lemma_multiple_of_multiple(alloc_start as int, align as int, 16);
                        assert forall|j: int| 0 <= j < s1.len() implies end_of(#[trigger] s1[j]) <= alloc_end
                            || alloc_end + excess_size <= s1[j].0 by {
                            if j < i {
                                assert(end_of(s0[j]) < s0[i].0);
                            } else {
                                assert(s1[j] == s0[j + 1]);
                                assert(end_of(s0[i]) < s0[j + 1].0);
                            }
                        }
                    }
                    self.add_free_region(alloc_end, excess_size);
                }
                proof {
                    assert forall|x: int|
                        covers(self.regions@, x) <==> (covers(s0, x) && !(s0[i].0 <= x < alloc_end)) by {
                        if covers(s0, x) && !(s0[i].0 <= x < alloc_end) && in_region(s0[i], x) {
                            assert(alloc_end <= x);
                        }
                    }
                }
                Some(alloc_start)
            },
            None => None,
        }
    }

    /// Returns the block `[addr, addr + size)`, allocated with alignment
    /// `align`, to the free list.
    pub fn dealloc(&mut self, addr: usize, size: usize, align: usize)
        requires
            old(self).wf(),
            valid_layout(size, align),
            valid_layout(size, adjusted_align(align) as usize),
            addr % NODE_SIZE == 0,
            addr + adjusted_size(size, align) <= usize::MAX,
            disjoint_from(old(self)@, addr as int, adjusted_size(size, align)),
        ensures
            final(self).wf(),
            final(self).is_initialized() == old(self).is_initialized(),
            dealloc_outcome(old(self)@, final(self)@, addr, size, align),
    {
        let (size, _) = Self::size_align(size, align);
        self.add_free_region(addr, size);
    }

    /// The number of bytes in the free list.
    pub fn free_bytes(&self) -> (r: usize)
        requires
            self.wf(),
        ensures
            r == total_size(self@),
    {
        let mut total_free: usize = 0;
        let mut i: usize = 0;
        while i < self.regions.len()
            invariant
                0 <= i <= self.regions.len(),
                regions_wf(self.regions@),
                total_free == total_size(self.regions@.take(i as int)),
            decreases self.regions.len() - i,
        {
            proof {
                lemma_total_take_step(self.regions@, i as int);
                lemma_total_prefix_bounded(self.regions@, i + 1);
            }
            total_free = total_free + self.regions[i].1;
            i = i + 1;
        }
        proof {
            assert(self.regions@.take(i as int) =~= self.regions@);
        }
        total_free
    }

    /// The number of bytes of the heap that are not in the free list.
    pub fn bytes_allocated(&self) -> (r: usize)
        requires
            self.wf(),
            total_size(self@) <= HEAP_SIZE,
        ensures
            r == HEAP_SIZE - total_size(self@),
    {
        HEAP_SIZE - self.free_bytes()
    }

    /// Whether a block would overlap the free list: never the case for a
    /// block that this allocator handed out and that was not returned since.
    pub fn overlaps_free(&self, addr: usize, size: usize) -> (b: bool)
        ensures
            b == !disjoint_from(self@, addr as int, size as int),
    {
        let mut i: usize = 0;
        while i < self.regions.len()
            invariant
                0 <= i <= self.regions.len(),
                forall|j: int|
                    0 <= j < i ==> end_of(#[trigger] self.regions@[j]) <= addr || addr + size
                        <= self.regions@[j].0,
            decreases self.regions.len() - i,
        {
            let region = self.regions[i];
            if !(region.0 as u128 + region.1 as u128 <= addr as u128 || addr as u128 + size as u128 <= region.0 as u128) {
                return true;
            }
            i = i + 1;
        }
        false
    }

    /// Whether aligning the start of each free region that a first-fit walk
    /// for `size` bytes aligned to `align` visits stays within the address
    /// space.
    pub fn align_fits(&self, size: usize, align: usize) -> (b: bool)
        requires
            self.wf(),
            is_power_of_two(align),
        ensures
            b == align_in_range(self@, size as int, align as int),
    {
        let mut i: usize = 0;
        while i < self.regions.len()
            invariant
                0 <= i <= self.regions.len(),
                regions_wf(self.regions@),
                is_power_of_two(align),
                forall|j: int| 0 <= j < i ==> (#[trigger] self.regions@[j]).0 + align - 1 <= usize::MAX,
                forall|j: int| 0 <= j < i ==> !region_fits(#[trigger] self.regions@[j], size as int, align as int),
            decreases self.regions.len() - i,
        {
            proof {
                crate::align::lemma_mask_is_mod(0, align);
            }
            if self.regions[i].0 > usize::MAX - (align - 1) {
                return false;
            }
            if let Ok(_) = Self::alloc_from_region(self.regions[i], size, align) {
                proof {
                    assert forall|k: int|
                        #![trigger self.regions@[k]]
                        0 <= k < self.regions@.len() && (forall|j: int|
                            0 <= j < k ==> !region_fits(#[trigger] self.regions@[j], size as int, align as int))
                            implies self.regions@[k].0 + align - 1 <= usize::MAX by {
                        if k > i {
                            assert(!region_fits(self.regions@[i as int], size as int, align as int));
                        }
                    }
                }
                return true;
            }
            i = i + 1;
        }
        true
    }
}

/// What an allocation of `size` bytes aligned to `align` does to the free
/// regions `old`, leaving `new` and returning `r`: when no region can serve
/// the adjusted request, nothing changes and `r` is `None`; otherwise the
/// first region that can serve it loses the bytes from its start up to the
/// end of the allocation, which starts at the region's start aligned up.
pub open spec fn alloc_outcome(
    old: Seq<(usize, usize)>,
    new: Seq<(usize, usize)>,
    size: usize,
    align: usize,
    r: Option<usize>,
) -> bool {
    let sz = adjusted_size(size, align);
    let al = adjusted_align(align);
    match r {
        None => {
            &&& forall|i: int| 0 <= i < old.len() ==> !region_fits(#[trigger] old[i], sz, al)
            &&& new == old
        },
        Some(start) => exists|i: int|
            {
                &&& is_first_fit(old, i, sz, al)
                &&& start == spec_align_up(old[i].0 as int, al)
                &&& forall|x: int| covers(new, x) <==> (covers(old, x) && !(old[i].0 <= x < start + sz))
                &&& total_size(new) == total_size(old) - (start + sz - old[i].0)
            },
    }
}

/// What freeing the block at `addr`, allocated for `size` bytes aligned to
/// `align`, does to the free regions `old`, leaving `new`: the block's
/// adjusted bytes become free.
pub open spec fn dealloc_outcome(
    old: Seq<(usize, usize)>,
    new: Seq<(usize, usize)>,
    addr: usize,
    size: usize,
    align: usize,
) -> bool {
    &&& forall|x: int| covers(new, x) <==> (covers(old, x) || addr <= x < addr + adjusted_size(size, align))
    &&& total_size(new) == total_size(old) + adjusted_size(size, align)
}

/// The allocation served from the region `r`: its start is aligned up, it
/// ends inside the region, and what is left after it is either nothing or
/// large enough to hold a free-list node.
pub open spec fn region_fits(r: (usize, usize), size: int, align: int) -> bool {
    let end = spec_align_up(r.0 as int, align) + size;
    &&& end <= end_of(r)
    &&& (end == end_of(r) || end_of(r) - end >= NODE_SIZE)
}

/// Region `i` of `s` is the first one that can serve the allocation.
pub open spec fn is_first_fit(s: Seq<(usize, usize)>, i: int, size: int, align: int) -> bool {
    &&& 0 <= i < s.len()
    &&& region_fits(s[i], size, align)
    &&& forall|j: int| 0 <= j < i ==> !region_fits(#[trigger] s[j], size, align)
}

/// Aligning the start of each region of `s` that a first-fit walk for
/// `size` bytes aligned to `align` visits (every region up to the first that
/// can serve them) stays within the address space.
pub open spec fn align_in_range(s: Seq<(usize, usize)>, size: int, align: int) -> bool {
    forall|i: int|
        #![trigger s[i]]
        0 <= i < s.len() && (forall|j: int| 0 <= j < i ==> !region_fits(#[trigger] s[j], size, align)) ==> s[i].0
            + align - 1 <= usize::MAX
}

/// The alignment used for a request: at least that of a free-list node.
pub open spec fn adjusted_align(align: usize) -> int {
    if align < NODE_SIZE {
        NODE_SIZE as int
    } else {
        align as int
    }
}

/// The size used for a request: rounded up to the adjusted alignment, and at
/// least the size of a free-list node.
pub open spec fn adjusted_size(size: usize, align: usize) -> int {
    let padded = spec_align_up(size as int, adjusted_align(align));
    if padded < NODE_SIZE {
        NODE_SIZE as int
    } else {
        padded
    }
}

/// Removing a region keeps the rest well formed.
proof fn lemma_remove_wf(s: Seq<(usize, usize)>, i: int)
    requires
        regions_wf(s),
        0 <= i < s.len(),
    ensures
        regions_wf(s.remove(i)),
{
    let t = s.remove(i);
    assert forall|a: int| 0 <= a < t.len() implies #[trigger] t[a] == (if a < i { s[a] } else { s[a + 1] }) by {}
    assert forall|a: int, b: int| 0 <= a < b < t.len() implies end_of(#[trigger] t[a]) < #[trigger] t[b].0 by {
        let sa = if a < i { a } else { a + 1 };
        let sb = if b < i { b } else { b + 1 };
        assert(end_of(s[sa]) < s[sb].0);
    }
}

/// Removing a region of well-formed regions uncovers exactly its bytes.
#[verifier::spinoff_prover]
proof fn lemma_remove_covers(s: Seq<(usize, usize)>, i: int)
    requires
        regions_wf(s),
        0 <= i < s.len(),
    ensures
        forall|x: int| covers(s.remove(i), x) <==> (covers(s, x) && !in_region(s[i], x)),
{
    let t = s.remove(i);
    assert forall|x: int| covers(t, x) <==> (covers(s, x) && !in_region(s[i], x)) by {
        if covers(t, x) {
            let a = choose|a: int| 0 <= a < t.len() && in_region(#[trigger] t[a], x);
            let sa = if a < i { a } else { a + 1 };
            assert(t[a] == s[sa]);
            assert(in_region(s[sa], x));
            if sa < i {
                assert(end_of(s[sa]) < s[i].0);
            } else {
                assert(end_of(s[i]) < s[sa].0);
            }
        }
        if covers(s, x) && !in_region(s[i], x) {
            let a = choose|a: int| 0 <= a < s.len() && in_region(#[trigger] s[a], x);
            if a < i {
                assert(t[a] == s[a]);
            } else {
                assert(t[a - 1] == s[a]);
            }
        }
    }
}

/// Freeing the block that an allocation returned gives its bytes back:
/// afterwards the free bytes are those from before the allocation, less the
/// alignment padding skipped at the start of the region it came from.
pub proof fn lemma_dealloc_after_allocate(
    old: Seq<(usize, usize)>,
    mid: Seq<(usize, usize)>,
    new: Seq<(usize, usize)>,
    size: usize,
    align: usize,
    start: usize,
)
    requires
        regions_wf(old),
        alloc_outcome(old, mid, size, align, Some(start)),
        dealloc_outcome(mid, new, start, size, align),
    ensures
        exists|i: int|
            {
                &&& is_first_fit(old, i, adjusted_size(size, align), adjusted_align(align))
                &&& start == spec_align_up(old[i].0 as int, adjusted_align(align))
                &&& forall|x: int| covers(new, x) <==> (covers(old, x) && !(old[i].0 <= x < start))
            },
{
    let sz = adjusted_size(size, align);
    let al = adjusted_align(align);
    let i = choose|i: int|
        {
            &&& is_first_fit(old, i, sz, al)
            &&& start == spec_align_up(old[i].0 as int, al)
            &&& forall|x: int| covers(mid, x) <==> (covers(old, x) && !(old[i].0 <= x < start + sz))
            &&& total_size(mid) == total_size(old) - (start + sz - old[i].0)
        };
    assert forall|x: int| covers(new, x) <==> (covers(old, x) && !(old[i].0 <= x < start)) by {
        if start <= x < start + sz {
            assert(in_region(old[i], x));
        }
    }
}

/// When the alignment asked for is at most a node's, no padding is skipped,
/// and freeing the block just allocated gives back exactly the free list the
/// allocation started from.
pub proof fn lemma_dealloc_undoes_allocate(
    old: Seq<(usize, usize)>,
    mid: Seq<(usize, usize)>,
    new: Seq<(usize, usize)>,
    size: usize,
    align: usize,
    start: usize,
)
    requires
        regions_wf(old),
        regions_wf(new),
        align <= NODE_SIZE,
        alloc_outcome(old, mid, size, align, Some(start)),
        dealloc_outcome(mid, new, start, size, align),
    ensures
        new == old,
{
    lemma_dealloc_after_allocate(old, mid, new, size, align, start);
    let i = choose|i: int|
        {
            &&& is_first_fit(old, i, adjusted_size(size, align), adjusted_align(align))
            &&& start == spec_align_up(old[i].0 as int, adjusted_align(align))
            &&& forall|x: int| covers(new, x) <==> (covers(old, x) && !(old[i].0 <= x < start))
        };
    assert(start == old[i].0);
    crate::regions::lemma_regions_determined_by_coverage(new, old);
}

/// When `merge` holds, region `k + 1` of `s` is folded into region `k`.
spec fn merge_after(s: Seq<(usize, usize)>, k: int, merge: bool) -> Seq<(usize, usize)> {
    if merge {
        s.remove(k + 1).update(k, (s[k].0, (s[k].1 + s[k + 1].1) as usize))
    } else {
        s
    }
}

/// Inserting a region and folding it into its neighbours replaces the run of
/// regions it touches by one region.
proof fn lemma_merges_are_splice(
    s: Seq<(usize, usize)>,
    i: int,
    addr: usize,
    size: usize,
    merge_prev: bool,
    merge_next: bool,
)
    requires
        0 <= i <= s.len(),
        addr + size <= usize::MAX,
        merge_next ==> i < s.len() && addr + size == s[i].0 && end_of(s[i]) <= usize::MAX,
        merge_prev ==> i > 0 && end_of(s[i - 1]) == addr,
    ensures
        ({
            let lo = if merge_prev { i - 1 } else { i };
            let hi = if merge_next { i + 1 } else { i };
            let new_start: int = if merge_prev { s[i - 1].0 as int } else { addr as int };
            let new_end: int = if merge_next { end_of(s[i]) } else { addr + size };
            merge_after(merge_after(s.insert(i, (addr, size)), i, merge_next), i - 1, merge_prev)
                == splice(s, lo, hi, (new_start as usize, (new_end - new_start) as usize))
        }),
{
    let lo = if merge_prev { i - 1 } else { i };
    let hi = if merge_next { i + 1 } else { i };
    let new_start: int = if merge_prev { s[i - 1].0 as int } else { addr as int };
    let new_end: int = if merge_next { end_of(s[i]) } else { addr + size };
    let r = (new_start as usize, (new_end - new_start) as usize);
    let s1 = s.insert(i, (addr, size));
    let s2 = merge_after(s1, i, merge_next);
    let s3 = merge_after(s2, i - 1, merge_prev);
    if merge_next {
        assert(s2 =~= s.update(i, (addr, (size + s[i].1) as usize)));
    } else {
        assert(s2 == s1);
    }
    if merge_prev {
        if merge_next {
            assert(s3 =~= splice(s, lo, hi, r));
        } else {
            assert(s3 =~= splice(s, lo, hi, r));
        }
    } else {
        if merge_next {
            assert(s3 =~= splice(s, lo, hi, r));
        } else {
            assert(s3 =~= splice(s, lo, hi, r));
        }
    }
}

/// Inserting `[addr, addr + size)` at position `i` of the sorted regions `s`
/// and merging it with the neighbours it touches gives well-formed regions
/// that cover what `s` covered and the new range, with the sizes added.
#[verifier::spinoff_prover]
proof fn lemma_insert_region(
    s: Seq<(usize, usize)>,
    i: int,
    addr: usize,
    size: usize,
    merge_prev: bool,
    merge_next: bool,
)
    requires
        regions_wf(s),
        0 <= i <= s.len(),
        addr % NODE_SIZE == 0,
        size >= NODE_SIZE,
        addr + size <= usize::MAX,
        forall|j: int| 0 <= j < i ==> end_of(#[trigger] s[j]) <= addr,
        forall|j: int| i <= j < s.len() ==> addr + size <= (#[trigger] s[j]).0,
        merge_next == (i < s.len() && addr + size == s[i].0),
        merge_prev == (i > 0 && end_of(s[i - 1]) == addr),
    ensures
        ({
            let lo = if merge_prev { i - 1 } else { i };
            let hi = if merge_next { i + 1 } else { i };
            let new_start: int = if merge_prev { s[i - 1].0 as int } else { addr as int };
            let new_end: int = if merge_next { end_of(s[i]) } else { addr + size };
            let t = merge_after(merge_after(s.insert(i, (addr, size)), i, merge_next), i - 1, merge_prev);
            &&& regions_wf(t)
            &&& forall|x: int| covers(t, x) <==> (covers(s, x) || addr <= x < addr + size)
            &&& total_size(t) == total_size(s) + size
        }),
{
    let lo = if merge_prev { i - 1 } else { i };
    let hi = if merge_next { i + 1 } else { i };
    let new_start: int = if merge_prev { s[i - 1].0 as int } else { addr as int };
    let new_end: int = if merge_next { end_of(s[i]) } else { addr + size };
    let r = (new_start as usize, (new_end - new_start) as usize);
    let t = splice(s, lo, hi, r);
    lemma_merges_are_splice(s, i, addr, size, merge_prev, merge_next);
    assert forall|j: int| 0 <= j < lo implies end_of(#[trigger] s[j]) < r.0 by {
        if j < i - 1 {
            assert(end_of(s[j]) < s[i - 1].0);
        }
    }
    assert forall|j: int| hi <= j < s.len() implies end_of(r) < #[trigger] s[j].0 by {
        if j > i {
            assert(end_of(s[i]) < s[j].0);
        }
    }
    lemma_splice(s, lo, hi, r);
    lemma_total_three(s, lo, hi);
    lemma_total_short(s.subrange(lo, hi));
    lemma_run_covers(s, i, addr, size, merge_prev, merge_next, lo, hi, r);
    assert forall|x: int| covers(t, x) <==> (covers(s, x) || addr <= x < addr + size) by {
        assert(covers(t, x) <==> (in_region(r, x) || exists|j: int|
            (0 <= j < lo || hi <= j < s.len()) && in_region(#[trigger] s[j], x)));
    }
}

/// The bytes of the region that replaces the run `lo .. hi`, with those of
/// the regions kept, are those of `s` and the inserted range.
proof fn lemma_run_covers(
    s: Seq<(usize, usize)>,
    i: int,
    addr: usize,
    size: usize,
    merge_prev: bool,
    merge_next: bool,
    lo: int,
    hi: int,
    r: (usize, usize),
)
    requires
        regions_wf(s),
        0 <= i <= s.len(),
        merge_next ==> i < s.len() && addr + size == s[i].0,
        merge_prev ==> i > 0 && end_of(s[i - 1]) == addr,
        lo == (if merge_prev { i - 1 } else { i }),
        hi == (if merge_next { i + 1 } else { i }),
        r.0 == (if merge_prev { s[i - 1].0 as int } else { addr as int }),
        end_of(r) == (if merge_next { end_of(s[i]) } else { addr + size }),
    ensures
        forall|x: int|
            (in_region(r, x) || exists|j: int| (0 <= j < lo || hi <= j < s.len()) && in_region(#[trigger] s[j], x))
                <==> (covers(s, x) || addr <= x < addr + size),
{
    assert forall|x: int|
        (in_region(r, x) || exists|j: int| (0 <= j < lo || hi <= j < s.len()) && in_region(#[trigger] s[j], x))
            <==> (covers(s, x) || addr <= x < addr + size) by {
        let kept = exists|j: int| (0 <= j < lo || hi <= j < s.len()) && in_region(#[trigger] s[j], x);
        if covers(s, x) {
            let j = choose|j: int| 0 <= j < s.len() && in_region(#[trigger] s[j], x);
            if lo <= j < hi {
                assert(in_region(r, x));
            } else {
                assert(kept);
            }
        }
        if in_region(r, x) && !(addr <= x < addr + size) {
            if merge_prev && x < addr {
                assert(in_region(s[i - 1], x));
            } else {
                assert(in_region(s[i], x));
            }
            assert(covers(s, x));
        }
        if kept {
            let j = choose|j: int| (0 <= j < lo || hi <= j < s.len()) && in_region(#[trigger] s[j], x);
            assert(covers(s, x));
        }
    }
}

impl Default for LinkedListAllocator {
    fn default() -> (a: Self)
        ensures
            a.wf(),
            !a.is_initialized(),
            a@ == Seq::<(usize, usize)>::empty(),
    {
        Self::new()
    }
}

} // verus!
