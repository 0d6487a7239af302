//! Object caches: a slab is one page cut into equal slots; a cache keeps its
//! slabs in three lists by how many of their slots are in use.
use vstd::prelude::*;
use vstd::multiset::Multiset;
use std::marker::PhantomData;
use crate::PAGE_SIZE;
use crate::regions::LINK_SIZE;

verus! {

/// What a slab holds: its page, its free slots (the last is the head of
/// the free list), and how many of its slots are in use out of how many.
pub struct SlabView {
    pub page: usize,
    pub free: Seq<usize>,
    pub used: usize,
    pub slots: usize,
}

impl SlabView {
    /// Every slot is in use.
    pub open spec fn is_full(self) -> bool {
        self.used >= self.slots
    }

    /// The slab after its head free slot is handed out.
    pub open spec fn after_alloc(self) -> SlabView {
        SlabView { page: self.page, free: self.free.drop_last(), used: (self.used + 1) as usize, slots: self.slots }
    }

    /// The slab after the slot at `addr` is returned.
    pub open spec fn after_dealloc(self, addr: usize) -> SlabView {
        SlabView { page: self.page, free: self.free.push(addr), used: (self.used - 1) as usize, slots: self.slots }
    }

    /// `addr` lies in the slab's page.
    pub open spec fn contains(self, addr: usize) -> bool {
        self.page <= addr < self.page + PAGE_SIZE
    }
}

/// One call on a slab: handing out a slot (`allocate`), or returning the
/// slot at an address (`dealloc`).
pub enum SlabStep {
    Alloc,
    Free(usize),
}

impl SlabView {
    /// The slab after one call: handing out a slot changes nothing when none
    /// is free.
    pub open spec fn after_step(self, step: SlabStep) -> SlabView {
        match step {
            SlabStep::Alloc => if self.free.len() > 0 {
                self.after_alloc()
            } else {
                self
            },
            SlabStep::Free(addr) => self.after_dealloc(addr),
        }
    }

    /// The slab after the calls `steps`, in order.
    pub open spec fn after_steps(self, steps: Seq<SlabStep>) -> SlabView
        decreases steps.len(),
    {
        if steps.len() == 0 {
            self
        } else {
            self.after_steps(steps.drop_last()).after_step(steps.last())
        }
    }

    /// Every call of `steps` is one the slab serves: each hand-out finds a
    /// free slot, each return finds a slot in use.
    pub open spec fn steps_served(self, steps: Seq<SlabStep>) -> bool
        decreases steps.len(),
    {
        steps.len() == 0 || {
            &&& self.steps_served(steps.drop_last())
            &&& match steps.last() {
                SlabStep::Alloc => self.after_steps(steps.drop_last()).free.len() > 0,
                SlabStep::Free(_) => self.after_steps(steps.drop_last()).used > 0,
            }
        }
    }
}

/// The number of hand-outs among `steps`.
pub open spec fn alloc_count(steps: Seq<SlabStep>) -> int
    decreases steps.len(),
{
    if steps.len() == 0 {
        0
    } else {
        alloc_count(steps.drop_last()) + if steps.last() is Alloc { 1int } else { 0int }
    }
}

/// The number of returns among `steps`.
pub open spec fn free_count(steps: Seq<SlabStep>) -> int
    decreases steps.len(),
{
    if steps.len() == 0 {
        0
    } else {
        free_count(steps.drop_last()) + if steps.last() is Free { 1int } else { 0int }
    }
}

/// No call moves a slab's page or changes its number of slots.
pub proof fn lemma_steps_keep_page(v: SlabView, steps: Seq<SlabStep>)
    ensures
        v.after_steps(steps).page == v.page,
        v.after_steps(steps).slots == v.slots,
    decreases steps.len(),
{
    if steps.len() > 0 {
        lemma_steps_keep_page(v, steps.drop_last());
    }
}

/// After calls that the slab serves, the slots in use are those from before,
/// plus one per hand-out, less one per return; slots in use and free slots
/// still make up all slots.
pub proof fn lemma_steps_count(v: SlabView, steps: Seq<SlabStep>)
    requires
        v.used + v.free.len() == v.slots,
        v.steps_served(steps),
    ensures
        v.after_steps(steps).used == v.used + alloc_count(steps) - free_count(steps),
        v.after_steps(steps).used + v.after_steps(steps).free.len() == v.slots,
    decreases steps.len(),
{
    if steps.len() > 0 {
        lemma_steps_count(v, steps.drop_last());
        lemma_steps_keep_page(v, steps.drop_last());
    }
}

/// A fresh slab on `page` keeps its page under any calls, its first slot
/// handed out is the page start, and after calls that it serves it has no
/// slot in use exactly when there were as many returns as hand-outs.
pub proof fn lemma_fresh_slab_steps<T>(page: usize, steps: Seq<SlabStep>)
    requires
        vstd::layout::size_of::<T>() < PAGE_SIZE,
        page + PAGE_SIZE <= usize::MAX,
    ensures
        fresh_view::<T>(page).after_steps(steps).page == page,
        fresh_view::<T>(page).free.len() > 0,
        fresh_view::<T>(page).free.last() == page,
        fresh_view::<T>(page).steps_served(steps) ==> (fresh_view::<T>(page).after_steps(steps).used == 0
            <==> alloc_count(steps) == free_count(steps)),
{
    lemma_steps_keep_page(fresh_view::<T>(page), steps);
    lemma_fresh_slab_allocations::<T>(page, 0);
    lemma_fresh_slots_disjoint::<T>(page);
    assert(fresh_slots::<T>(page).take(slot_count::<T>()) =~= fresh_slots::<T>(page));
    let n = slot_count::<T>();
    assert(n <= PAGE_SIZE) by (nonlinear_arith)
        requires n == PAGE_SIZE as int / slot_stride::<T>(), slot_stride::<T>() >= 8;
    if fresh_view::<T>(page).steps_served(steps) {
        lemma_steps_count(fresh_view::<T>(page), steps);
    }
}

/// A page of `PAGE_SIZE` bytes cut into slots for values of type `T`.
pub struct Slab<T> {
    ptr: usize,
    free_list: Vec<usize>,
    used: usize,
    num_slots: usize,
    _marker: PhantomData<T>,
}

impl<T> View for Slab<T> {
    type V = SlabView;

    closed spec fn view(&self) -> SlabView {
        SlabView { page: self.ptr, free: self.free_list@, used: self.used, slots: self.num_slots }
    }
}

/// The distance between slots of a slab for `T`: the size of `T`, or of a
/// free-list link when that is larger, so that a free slot can hold a link.
pub open spec fn slot_stride<T>() -> int {
    if vstd::layout::size_of::<T>() >= LINK_SIZE {
        vstd::layout::size_of::<T>() as int
    } else {
        LINK_SIZE as int
    }
}

/// A slot holds a value of type `T` and a free-list link: the stride is the
/// larger of the two sizes, so it is at least each and equal to one of them.
pub proof fn lemma_slot_stride<T>()
    ensures
        slot_stride::<T>() >= vstd::layout::size_of::<T>(),
        slot_stride::<T>() >= LINK_SIZE,
        slot_stride::<T>() == vstd::layout::size_of::<T>() || slot_stride::<T>() == LINK_SIZE,
{
}

/// Two different slots of a page are at least a value of `T` apart, so the
/// values they hold do not overlap, and each slot's value ends inside the
/// page.
pub proof fn lemma_slots_hold_values<T>(page: usize, a: usize, b: usize)
    requires
        is_slot::<T>(page, a),
        is_slot::<T>(page, b),
        a != b,
    ensures
        a + vstd::layout::size_of::<T>() <= b || b + vstd::layout::size_of::<T>() <= a,
        a + vstd::layout::size_of::<T>() <= page + PAGE_SIZE,
{
    let stride = slot_stride::<T>();
    let n = slot_count::<T>();
    lemma_slot_stride::<T>();
    vstd::arithmetic::div_mod::lemma_fundamental_div_mod(a - page, stride);
    vstd::arithmetic::div_mod::lemma_fundamental_div_mod(b - page, stride);
    let qa = (a - page) / stride;
    let qb = (b - page) / stride;
    assert(n * stride <= PAGE_SIZE) by (nonlinear_arith)
        requires n == PAGE_SIZE as int / stride, 0 < stride;
    assert(a + stride <= b || b + stride <= a) by (nonlinear_arith)
        requires
            a - page == stride * qa,
            b - page == stride * qb,
            a != b,
            stride > 0,
    {
        if qa < qb {
            assert(stride * qb >= stride * (qa + 1));
        } else if qb < qa {
            assert(stride * qa >= stride * (qb + 1));
        }
    }
    assert(a - page + stride <= n * stride) by (nonlinear_arith)
        requires
            a - page == stride * qa,
            a - page < n * stride,
            stride > 0,
            a - page >= 0,
    {
        if qa + 1 > n {
            assert(stride * qa >= stride * n);
        }
    }
}

/// The number of slots of a slab for `T`.
pub open spec fn slot_count<T>() -> int {
    PAGE_SIZE as int / slot_stride::<T>()
}

/// `addr` is the start of a slot of a slab for `T` on `page`: it lies a
/// whole number of strides past the page start, before the end of the last
/// slot.
pub open spec fn is_slot<T>(page: usize, addr: usize) -> bool {
    &&& page <= addr
    &&& (addr - page) % slot_stride::<T>() == 0
    &&& addr - page < slot_count::<T>() * slot_stride::<T>()
}

/// `addr` is a slot of the slab `v` for `T` that is in use: a slot of its
/// page that is not on its free list.
pub open spec fn is_live_slot<T>(v: SlabView, addr: usize) -> bool {
    is_slot::<T>(v.page, addr) && !v.free.contains(addr)
}

/// A slot lies in its page.
pub proof fn lemma_slot_in_page<T>(page: usize, addr: usize)
    requires
        is_slot::<T>(page, addr),
    ensures
        page <= addr < page + PAGE_SIZE,
{
    let n = slot_count::<T>();
    let stride = slot_stride::<T>();
    assert(n * stride <= PAGE_SIZE) by (nonlinear_arith)
        requires n == PAGE_SIZE as int / stride, 0 < stride;
}

/// The slab on `page` as `Slab::new` makes it.
pub open spec fn fresh_view<T>(page: usize) -> SlabView {
    SlabView { page, free: fresh_slots::<T>(page), used: 0, slots: slot_count::<T>() as usize }
}

/// The slab `v` after `n` slots were handed out one after another.
pub open spec fn after_allocs(v: SlabView, n: nat) -> SlabView
    decreases n,
{
    if n == 0 {
        v
    } else {
        after_allocs(v, (n - 1) as nat).after_alloc()
    }
}

/// The free list of a fresh slab on `page`: every slot, one stride apart,
/// the one at the start of the page last, at the head.
pub open spec fn fresh_slots<T>(page: usize) -> Seq<usize> {
    Seq::new(
        slot_count::<T>() as nat,
        |j: int| (page + (slot_count::<T>() - 1 - j) * slot_stride::<T>()) as usize,
    )
}

/// The slots of a fresh slab lie in its page, and no two of them share a
/// byte: each ends where the one nearer the head of the free list starts or
/// before.
pub proof fn lemma_fresh_slots_disjoint<T>(page: usize)
    requires
        vstd::layout::size_of::<T>() < PAGE_SIZE,
        page + PAGE_SIZE <= usize::MAX,
    ensures
        slot_count::<T>() >= 1,
        forall|i: int|
            0 <= i < slot_count::<T>() ==> page <= #[trigger] fresh_slots::<T>(page)[i] && fresh_slots::<T>(
                page,
            )[i] + slot_stride::<T>() <= page + PAGE_SIZE,
        forall|i: int, l: int|
            0 <= i < l < slot_count::<T>() ==> #[trigger] fresh_slots::<T>(page)[l] + slot_stride::<T>()
                <= #[trigger] fresh_slots::<T>(page)[i],
{
    let n = slot_count::<T>();
    let stride = slot_stride::<T>();
    assert(n >= 1 && n * stride <= PAGE_SIZE) by (nonlinear_arith)
        requires n == PAGE_SIZE as int / stride, 0 < stride < PAGE_SIZE;
    assert forall|i: int| 0 <= i < n implies page <= #[trigger] fresh_slots::<T>(page)[i] && fresh_slots::<T>(
        page,
    )[i] + stride <= page + PAGE_SIZE by {
        assert(0 <= (n - 1 - i) * stride && (n - 1 - i) * stride + stride <= n * stride) by (nonlinear_arith)
            requires 0 <= i < n, stride > 0;
    }
    assert forall|i: int, l: int| 0 <= i < l < n implies #[trigger] fresh_slots::<T>(page)[l] + stride
        <= #[trigger] fresh_slots::<T>(page)[i] by {
        assert(0 <= (n - 1 - l) * stride && (n - 1 - l) * stride + stride <= (n - 1 - i) * stride
            && (n - 1 - i) * stride + stride <= n * stride) by (nonlinear_arith)
            requires 0 <= i < l < n, stride > 0;
    }
}

/// Slots come out of a fresh slab in increasing address order: after `i`
/// slots were handed out, `i` are in use, the rest of the fresh free list is
/// left, and the next slot handed out is `page + i * stride`; once every slot
/// was handed out the free list is empty.
pub proof fn lemma_fresh_slab_allocations<T>(page: usize, i: nat)
    requires
        vstd::layout::size_of::<T>() < PAGE_SIZE,
        page + PAGE_SIZE <= usize::MAX,
        i <= slot_count::<T>(),
    ensures
        after_allocs(fresh_view::<T>(page), i).page == page,
        after_allocs(fresh_view::<T>(page), i).used == i,
        after_allocs(fresh_view::<T>(page), i).slots == slot_count::<T>(),
        after_allocs(fresh_view::<T>(page), i).free == fresh_slots::<T>(page).take(slot_count::<T>() - i),
        i < slot_count::<T>() ==> after_allocs(fresh_view::<T>(page), i).free.last() == page + i
            * slot_stride::<T>(),
        i == slot_count::<T>() ==> after_allocs(fresh_view::<T>(page), i).free.len() == 0,
    decreases i,
{
    let n = slot_count::<T>();
    let stride = slot_stride::<T>();
    lemma_fresh_slots_disjoint::<T>(page);
    assert(n * stride <= PAGE_SIZE) by (nonlinear_arith)
        requires n == PAGE_SIZE as int / stride, 0 < stride;
    assert(n <= PAGE_SIZE) by (nonlinear_arith)
        requires n * stride <= PAGE_SIZE, stride >= 1, n >= 0;
    if i == 0 {
        assert(fresh_slots::<T>(page).take(n) =~= fresh_slots::<T>(page));
    } else {
        lemma_fresh_slab_allocations::<T>(page, (i - 1) as nat);
        assert(fresh_slots::<T>(page).take(n - (i - 1)).drop_last() =~= fresh_slots::<T>(page).take(n - i));
    }
    if i < n {
        assert(0 <= (n - 1 - (n - i - 1)) * stride < PAGE_SIZE) by (nonlinear_arith)
            requires 0 <= i < n, n * stride <= PAGE_SIZE, stride > 0;
        assert(fresh_slots::<T>(page).take(n - i).last() == fresh_slots::<T>(page)[n - i - 1]);
    }
}

impl<T> Slab<T> {
    /// The counts agree (slots in use and free slots make up all slots of a
    /// slab for `T`, at least one), the page is a non-zero multiple of the
    /// page size that fits in the address space, and the free list holds
    /// slots of the page, each once.
    pub closed spec fn wf(&self) -> bool {
        &&& self.used + self.free_list@.len() == self.num_slots
        &&& self.num_slots == slot_count::<T>()
        &&& self.num_slots >= 1
        &&& self.ptr != 0
        &&& self.ptr % PAGE_SIZE == 0
        &&& self.ptr + PAGE_SIZE <= usize::MAX
        &&& forall|j: int| 0 <= j < self.free_list@.len() ==> is_slot::<T>(self.ptr, #[trigger] self.free_list@[j])
        &&& forall|i: int, j: int|
            0 <= i < j < self.free_list@.len() ==> #[trigger] self.free_list@[i] != #[trigger] self.free_list@[j]
    }

    /// What a consistent slab guarantees: its counts, its page, and a free
    /// list of distinct slots of the page; it is full exactly when every
    /// slot is in use, that is when its free list is empty.
    pub proof fn lemma_wf(&self)
        requires
            self.wf(),
        ensures
            self@.slots == slot_count::<T>(),
            1 <= self@.slots,
            self@.used <= self@.slots,
            self@.used + self@.free.len() == self@.slots,
            self@.page != 0,
            self@.page % PAGE_SIZE == 0,
            self@.page + PAGE_SIZE <= usize::MAX,
            forall|j: int| 0 <= j < self@.free.len() ==> is_slot::<T>(self@.page, #[trigger] self@.free[j]),
            forall|i: int, j: int| 0 <= i < j < self@.free.len() ==> #[trigger] self@.free[i] != #[trigger] self@.free[j],
            self@.is_full() <==> self@.used == self@.slots,
            self@.is_full() <==> self@.free.len() == 0,
    {
    }

    /// Cuts the page at `page` into slots for values of type `T`; all are
    /// free, the slot at the start of the page at the head of the free list.
    pub fn new(page: usize) -> (s: Self)
        requires
            vstd::layout::size_of::<T>() < PAGE_SIZE,
            page != 0,
            page % PAGE_SIZE == 0,
            page + PAGE_SIZE <= usize::MAX,
        ensures
            s.wf(),
            s@.page == page,
            s@.used == 0,
            s@.slots == slot_count::<T>(),
            s@.free == fresh_slots::<T>(page),
            s@ == fresh_view::<T>(page),
    {
        let t_size = core::mem::size_of::<T>();
        let stride = if t_size >= LINK_SIZE { t_size } else { LINK_SIZE };
        let num_slots = PAGE_SIZE / stride;
        proof {
            assert(num_slots >= 1) by (nonlinear_arith)
                requires num_slots == PAGE_SIZE / stride, 0 < stride < PAGE_SIZE;
            assert(num_slots * stride <= PAGE_SIZE) by (nonlinear_arith)
                requires num_slots == PAGE_SIZE / stride, 0 < stride;
        }
        let mut free_list: Vec<usize> = Vec::new();
        let mut i = num_slots;
        while i > 0
            invariant
                0 <= i <= num_slots,
                num_slots * stride <= PAGE_SIZE,
                page + PAGE_SIZE <= usize::MAX,
                stride == slot_stride::<T>(),
                free_list@.len() == num_slots - i,
                forall|j: int|
                    0 <= j < free_list@.len() ==> #[trigger] free_list@[j] == (page + (num_slots - 1 - j)
                        * stride) as usize,
            decreases i,
        {
            i = i - 1;
            proof {
                assert(i * stride < PAGE_SIZE) by (nonlinear_arith)
                    requires i < num_slots, num_slots * stride <= PAGE_SIZE, stride > 0;
            }
            free_list.push(page + i * stride);
        }
        let s = Slab { ptr: page, free_list, used: 0, num_slots, _marker: PhantomData };
        proof {
            assert(s@.free =~= fresh_slots::<T>(page));
            lemma_fresh_slots_disjoint::<T>(page);
            assert forall|j: int| 0 <= j < s.free_list@.len() implies is_slot::<T>(page, #[trigger] s.free_list@[j]) by {
                let n = num_slots as int;
                vstd::arithmetic::div_mod::lemma_mod_multiples_basic(n - 1 - j, stride as int);
                assert(0 <= (n - 1 - j) * stride && (n - 1 - j) * stride < n * stride) by (nonlinear_arith)
                    requires 0 <= j < n, stride > 0;
            }
            assert forall|i: int, j: int| 0 <= i < j < s.free_list@.len() implies #[trigger] s.free_list@[i]
                != #[trigger] s.free_list@[j] by {
                assert(fresh_slots::<T>(page)[j] + slot_stride::<T>() <= fresh_slots::<T>(page)[i]);
            }
        }
        s
    }

    /// Every slot is in use.
    pub fn is_full(&self) -> (b: bool)
        ensures
            b == self@.is_full(),
    {
        self.used >= self.num_slots
    }

    /// No slot is in use.
    pub fn is_empty(&self) -> (b: bool)
        ensures
            b == (self@.used == 0),
    {
        self.used == 0
    }

    /// The number of slots.
    pub fn num_slots(&self) -> (n: usize)
        ensures
            n == self@.slots,
    {
        self.num_slots
    }

    /// The start of the slab's page.
    pub fn start_addr(&self) -> (p: usize)
        ensures
            p == self@.page,
    {
        self.ptr
    }

    /// `addr` lies in the slab's page.
    pub fn contains(&self, addr: usize) -> (b: bool)
        requires
            self.wf(),
        ensures
            b == self@.contains(addr),
    {
        let start = self.ptr;
        addr >= start && addr < start + PAGE_SIZE
    }

    /// Hands out the slot at the head of the free list, or `None` when every
    /// slot is in use.
    pub fn allocate(&mut self) -> (r: Option<usize>)
        requires
            old(self).wf(),
        ensures
            final(self).wf(),
            old(self)@.free.len() > 0 <==> !old(self)@.is_full(),
            if old(self)@.free.len() > 0 {
                r == Some(old(self)@.free.last()) && final(self)@ == old(self)@.after_alloc()
            } else {
                r is None && final(self)@ == old(self)@
            },
            final(self)@ == old(self)@.after_step(SlabStep::Alloc),
            r matches Some(a) ==> a != 0 && is_slot::<T>(old(self)@.page, a) && is_live_slot::<T>(
                final(self)@,
                a,
            ),
    {
        match self.free_list.pop() {
            Some(slot) => {
                self.used = self.used + 1;
                proof {
                    let f0 = old(self).free_list@;
                    assert(f0.last() == f0[f0.len() - 1]);
                    assert(is_slot::<T>(self.ptr, f0[f0.len() - 1]));
                    assert(!self.free_list@.contains(slot)) by {
                        if self.free_list@.contains(slot) {
                            let j = choose|j: int| 0 <= j < self.free_list@.len() && self.free_list@[j] == slot;
                            assert(f0[j] == f0[f0.len() - 1]);
                        }
                    }
                }
                Some(slot)
            },
            None => None,
        }
    }

    /// Returns the slot at `addr`, one in use, to the head of the free list.
    pub fn dealloc(&mut self, addr: usize)
        requires
            old(self).wf(),
            old(self)@.used > 0,
            is_live_slot::<T>(old(self)@, addr),
        ensures
            final(self).wf(),
            final(self)@ == old(self)@.after_dealloc(addr),
            final(self)@ == old(self)@.after_step(SlabStep::Free(addr)),
    {
        self.free_list.push(addr);
        self.used = self.used - 1;
        proof {
            let f0 = old(self).free_list@;
            let f1 = self.free_list@;
            assert forall|j: int| 0 <= j < f1.len() implies is_slot::<T>(self.ptr, #[trigger] f1[j]) by {
                if j < f0.len() {
                    assert(f1[j] == f0[j]);
                }
            }
            assert forall|i: int, j: int| 0 <= i < j < f1.len() implies #[trigger] f1[i] != #[trigger] f1[j] by {
                assert(f1[i] == f0[i]);
                if j == f0.len() {
                    assert(f0.contains(f0[i]));
                } else {
                    assert(f1[j] == f0[j]);
                }
            }
        }
    }

    /// Whether `addr` is a slot of this slab that is in use.
    pub fn is_live(&self, addr: usize) -> (b: bool)
        requires
            self.wf(),
        ensures
            b == is_live_slot::<T>(self@, addr),
    {
        let t_size = core::mem::size_of::<T>();
        let stride = if t_size >= LINK_SIZE { t_size } else { LINK_SIZE };
        proof {
            assert(self.num_slots * stride <= PAGE_SIZE) by (nonlinear_arith)
                requires self.num_slots == PAGE_SIZE as int / (stride as int), 0 < stride;
        }
        if addr < self.ptr || (addr - self.ptr) % stride != 0 || addr - self.ptr >= self.num_slots * stride {
            return false;
        }
        let mut i: usize = 0;
        while i < self.free_list.len()
            invariant
                0 <= i <= self.free_list@.len(),
                forall|j: int| 0 <= j < i ==> #[trigger] self.free_list@[j] != addr,
            decreases self.free_list@.len() - i,
        {
            if self.free_list[i] == addr {
                proof {
                    assert(self.free_list@[i as int] == addr);
                }
                return false;
            }
            i = i + 1;
        }
        proof {
            assert(!self.free_list@.contains(addr)) by {
                if self.free_list@.contains(addr) {
                    let j = choose|j: int| 0 <= j < self.free_list@.len() && self.free_list@[j] == addr;
                }
            }
        }
        true
    }
}

/// The views of a list of slabs.
pub open spec fn views<T>(s: Seq<Slab<T>>) -> Seq<SlabView> {
    s.map_values(|x: Slab<T>| x@)
}

/// The position of the slab nearest the head (the end) of `s` whose page
/// holds `addr`, or -1 when there is none.
pub open spec fn last_containing(s: Seq<SlabView>, addr: usize) -> int
    decreases s.len(),
{
    if s.len() == 0 {
        -1
    } else if s.last().contains(addr) {
        s.len() - 1
    } else {
        last_containing(s.drop_last(), addr)
    }
}

/// `last_containing` finds a slab holding `addr`, nearer the head than any
/// other that does.
pub proof fn lemma_last_containing(s: Seq<SlabView>, addr: usize)
    ensures
        -1 <= last_containing(s, addr) < s.len(),
        last_containing(s, addr) >= 0 ==> s[last_containing(s, addr)].contains(addr),
        forall|j: int| last_containing(s, addr) < j < s.len() ==> !(#[trigger] s[j]).contains(addr),
    decreases s.len(),
{
    if s.len() > 0 && !s.last().contains(addr) {
        lemma_last_containing(s.drop_last(), addr);
        assert forall|j: int| last_containing(s, addr) < j < s.len() implies !(#[trigger] s[j]).contains(addr) by {
            if j < s.len() - 1 {
                assert(s[j] == s.drop_last()[j]);
            }
        }
    }
}

/// The pages of the slabs `v`, with their multiplicities.
pub open spec fn pages_of(v: Seq<SlabView>) -> Multiset<usize> {
    v.map_values(|x: SlabView| x.page).to_multiset()
}

/// No slab has no page.
proof fn lemma_pages_empty()
    ensures
        pages_of(Seq::<SlabView>::empty()) =~= Multiset::<usize>::empty(),
{
    broadcast use vstd::multiset::group_multiset_axioms;
    let m = Seq::<SlabView>::empty().map_values(|y: SlabView| y.page);
    assert forall|p: usize| pages_of(Seq::<SlabView>::empty()).count(p) == 0 by {
        vstd::seq_lib::to_multiset_contains(m, p);
    }
}

/// A slab added to a list adds its page.
proof fn lemma_pages_push(v: Seq<SlabView>, x: SlabView)
    ensures
        pages_of(v.push(x)) == pages_of(v).insert(x.page),
{
    assert(v.push(x).map_values(|y: SlabView| y.page) =~= v.map_values(|y: SlabView| y.page).push(x.page));
    vstd::seq_lib::to_multiset_build(v.map_values(|y: SlabView| y.page), x.page);
}

/// A slab taken out of a list takes its page away.
proof fn lemma_pages_remove(v: Seq<SlabView>, k: int)
    requires
        0 <= k < v.len(),
    ensures
        pages_of(v.remove(k)) == pages_of(v).remove(v[k].page),
{
    let m = v.map_values(|y: SlabView| y.page);
    assert(v.remove(k).map_values(|y: SlabView| y.page) =~= m.remove(k));
    vstd::seq_lib::to_multiset_remove(m, k);
}

/// The page of a slab of a list is counted in the list's pages, twice when
/// another slab of the list has it too.
proof fn lemma_pages_count(v: Seq<SlabView>, k: int, l: int)
    requires
        0 <= k < v.len(),
        0 <= l < v.len(),
    ensures
        pages_of(v).count(v[k].page) >= 1,
        k != l && v[k].page == v[l].page ==> pages_of(v).count(v[k].page) >= 2,
{
    let m = v.map_values(|y: SlabView| y.page);
    assert(m[k] == v[k].page);
    vstd::seq_lib::to_multiset_contains(m, v[k].page);
    if k != l && v[k].page == v[l].page {
        lemma_pages_remove(v, k);
        let w = v.remove(k);
        let l2 = if l < k { l } else { l - 1 };
        assert(w[l2] == v[l]);
        let mw = w.map_values(|y: SlabView| y.page);
        assert(mw[l2] == v[k].page);
        vstd::seq_lib::to_multiset_contains(mw, v[k].page);
    }
}

/// Two page-aligned pages that hold the same address are the same page.
proof fn lemma_same_page(p1: usize, p2: usize, addr: usize)
    requires
        p1 % PAGE_SIZE == 0,
        p2 % PAGE_SIZE == 0,
        p1 <= addr < p1 + PAGE_SIZE,
        p2 <= addr < p2 + PAGE_SIZE,
    ensures
        p1 == p2,
{
    vstd::arithmetic::div_mod::lemma_fundamental_div_mod(p1 as int, PAGE_SIZE as int);
    vstd::arithmetic::div_mod::lemma_fundamental_div_mod(p2 as int, PAGE_SIZE as int);
    let q1 = p1 as int / PAGE_SIZE as int;
    let q2 = p2 as int / PAGE_SIZE as int;
    assert(q1 == q2) by (nonlinear_arith)
        requires
            p1 == 4096 * q1,
            p2 == 4096 * q2,
            p1 - p2 < 4096,
            p2 - p1 < 4096,
    {
        if q1 < q2 {
            assert(4096 * q2 >= 4096 * (q1 + 1));
        } else if q2 < q1 {
            assert(4096 * q1 >= 4096 * (q2 + 1));
        }
    }
}

/// A cache of slabs for values of type `T`, in three lists by how many of
/// their slots are in use; the last slab of a list is its head.
pub struct SlabCache<T> {
    pub full: Vec<Slab<T>>,
    pub empty: Vec<Slab<T>>,
    pub partial: Vec<Slab<T>>,
}

impl<T> SlabCache<T> {
    /// Every slab is consistent; the slabs of `partial` have some but not
    /// all slots in use, those of `full` all, those of `empty` none.
    pub open spec fn wf(&self) -> bool {
        &&& forall|i: int|
            0 <= i < self.partial@.len() ==> (#[trigger] self.partial@[i]).wf() && 0 < self.partial@[i]@.used
                < self.partial@[i]@.slots
        &&& forall|i: int|
            0 <= i < self.full@.len() ==> (#[trigger] self.full@[i]).wf() && self.full@[i]@.used
                == self.full@[i]@.slots
        &&& forall|i: int|
            0 <= i < self.empty@.len() ==> (#[trigger] self.empty@[i]).wf() && self.empty@[i]@.used == 0
        &&& forall|p: usize| #[trigger] self.slab_pages().count(p) <= 1
    }

    /// Whether a slab of `list` is on `page`.
    fn list_holds_page(list: &Vec<Slab<T>>, page: usize) -> (b: bool)
        ensures
            b == (pages_of(views(list@)).count(page) > 0),
    {
        let ghost m = views(list@).map_values(|y: SlabView| y.page);
        proof {
            vstd::seq_lib::to_multiset_contains(m, page);
        }
        let mut i: usize = 0;
        while i < list.len()
            invariant
                0 <= i <= list@.len(),
                m == views(list@).map_values(|y: SlabView| y.page),
                forall|j: int| 0 <= j < i ==> #[trigger] m[j] != page,
            decreases list@.len() - i,
        {
            proof {
                assert(m[i as int] == list@[i as int]@.page);
            }
            if list[i].start_addr() == page {
                proof {
                    assert(m[i as int] == page);
                    assert(m.contains(page));
                    vstd::seq_lib::to_multiset_contains(m, page);
                }
                return true;
            }
            i = i + 1;
        }
        proof {
            assert(!m.contains(page));
        }
        false
    }

    /// Whether a slab of the cache is on `page`.
    pub fn holds_page(&self, page: usize) -> (b: bool)
        ensures
            b == (self.slab_pages().count(page) > 0),
    {
        proof {
            broadcast use vstd::multiset::group_multiset_axioms;
        }
        Self::list_holds_page(&self.partial, page) || Self::list_holds_page(&self.full, page)
            || Self::list_holds_page(&self.empty, page)
    }

    /// `addr` is a slot in use of the cache: a slot in use of the slab it
    /// belongs to.
    pub open spec fn is_live_in(&self, addr: usize) -> bool {
        self.owner_list(addr) < 3 && is_live_slot::<T>(self.owner(addr), addr)
    }

    /// The views of the slabs of one list: 0 for `partial`, 1 for `full`, 2
    /// for `empty`.
    pub open spec fn list_views(&self, which: int) -> Seq<SlabView> {
        if which == 0 {
            views(self.partial@)
        } else if which == 1 {
            views(self.full@)
        } else {
            views(self.empty@)
        }
    }

    /// At most one slab of a consistent cache holds a given address.
    proof fn lemma_one_holder(&self, w1: int, k1: int, w2: int, k2: int, addr: usize)
        requires
            self.wf(),
            0 <= w1 < 3,
            0 <= w2 < 3,
            0 <= k1 < self.list_views(w1).len(),
            0 <= k2 < self.list_views(w2).len(),
            self.list_views(w1)[k1].contains(addr),
            self.list_views(w2)[k2].contains(addr),
        ensures
            w1 == w2 && k1 == k2,
    {
        broadcast use vstd::multiset::group_multiset_axioms;
        let v1 = self.list_views(w1)[k1];
        let v2 = self.list_views(w2)[k2];
        assert(v1.page % PAGE_SIZE == 0) by {
            if w1 == 0 { assert(self.partial@[k1].wf()); } else if w1 == 1 { assert(self.full@[k1].wf()); } else { assert(self.empty@[k1].wf()); }
        }
        assert(v2.page % PAGE_SIZE == 0) by {
            if w2 == 0 { assert(self.partial@[k2].wf()); } else if w2 == 1 { assert(self.full@[k2].wf()); } else { assert(self.empty@[k2].wf()); }
        }
        lemma_same_page(v1.page, v2.page, addr);
        let p = v1.page;
        if w1 == w2 {
            lemma_pages_count(self.list_views(w1), k1, k2);
        } else {
            lemma_pages_count(self.list_views(w1), k1, k1);
            lemma_pages_count(self.list_views(w2), k2, k2);
        }
        if !(w1 == w2 && k1 == k2) {
            assert(self.slab_pages().count(p) >= 2);
            assert(self.slab_pages().count(p) <= 1);
        }
    }

    /// A slab of a consistent cache that holds `addr` is the one a slot at
    /// `addr` belongs to: no other slab holds it, since the slabs' pages are
    /// distinct and aligned to the page size.
    pub proof fn lemma_owner_is_unique(&self, which: int, k: int, addr: usize)
        requires
            self.wf(),
            0 <= which < 3,
            0 <= k < self.list_views(which).len(),
            self.list_views(which)[k].contains(addr),
        ensures
            self.owner_list(addr) == which,
            self.owner(addr) == self.list_views(which)[k],
    {
        let pv = views(self.partial@);
        let fv = views(self.full@);
        let ev = views(self.empty@);
        lemma_last_containing(pv, addr);
        lemma_last_containing(fv, addr);
        lemma_last_containing(ev, addr);
        let lp = last_containing(pv, addr);
        let lf = last_containing(fv, addr);
        let le = last_containing(ev, addr);
        if lp >= 0 {
            self.lemma_one_holder(which, k, 0, lp, addr);
        } else if lf >= 0 {
            self.lemma_one_holder(which, k, 1, lf, addr);
        } else if le >= 0 {
            self.lemma_one_holder(which, k, 2, le, addr);
        } else {
            assert(self.list_views(which)[k].contains(addr));
        }
    }

    /// The pages of all slabs of the cache, with their multiplicities.
    pub open spec fn slab_pages(&self) -> Multiset<usize> {
        pages_of(views(self.partial@)).add(pages_of(views(self.full@))).add(pages_of(views(self.empty@)))
    }

    /// Creates a cache without slabs.
    pub fn new() -> (c: Self)
        ensures
            c.wf(),
            c.full@.len() == 0,
            c.empty@.len() == 0,
            c.partial@.len() == 0,
    {
        let c = SlabCache { full: Vec::new(), empty: Vec::new(), partial: Vec::new() };
        proof {
            broadcast use vstd::multiset::group_multiset_axioms;
            lemma_pages_empty();
            assert(views(c.partial@) =~= Seq::<SlabView>::empty());
            assert(views(c.full@) =~= Seq::<SlabView>::empty());
            assert(views(c.empty@) =~= Seq::<SlabView>::empty());
        }
        c
    }

    /// No slab has a free slot: the next allocation needs a new slab.
    pub open spec fn needs_slab_spec(&self) -> bool {
        self.partial@.len() == 0 && self.empty@.len() == 0
    }

    /// Whether the next allocation needs a new slab.
    pub fn needs_slab(&self) -> (b: bool)
        ensures
            b == self.needs_slab_spec(),
    {
        self.partial.len() == 0 && self.empty.len() == 0
    }

    /// Allocates a slot from the slab at the head of `partial`, else of
    /// `empty`, else from `fresh`, a new slab; the slab then goes to the head
    /// of `full` when all its slots are in use, of `partial` otherwise.
    #[verifier::spinoff_prover]
    pub fn allocate(&mut self, fresh: Option<Slab<T>>) -> (r: usize)
        requires
            old(self).wf(),
            old(self).needs_slab_spec() ==> (fresh matches Some(s) && s.wf() && s@.used == 0
                && old(self).slab_pages().count(s@.page) == 0),
        ensures
            final(self).wf(),
            ({
                let pv = views(old(self).partial@);
                let ev = views(old(self).empty@);
                let fv = views(old(self).full@);
                let taken = if pv.len() > 0 {
                    pv.last()
                } else if ev.len() > 0 {
                    ev.last()
                } else {
                    fresh.unwrap()@
                };
                let p1 = if pv.len() > 0 { pv.drop_last() } else { pv };
                let e1 = if pv.len() == 0 && ev.len() > 0 { ev.drop_last() } else { ev };
                let s2 = taken.after_alloc();
                &&& r == taken.free.last()
                &&& r != 0
                &&& is_slot::<T>(taken.page, r)
                &&& is_live_slot::<T>(s2, r)
                &&& !old(self).is_live_in(r)
                &&& final(self).is_live_in(r)
                &&& final(self).owner(r) == s2
                &&& views(final(self).empty@) == e1
                &&& if s2.is_full() {
                    &&& views(final(self).full@) == fv.push(s2)
                    &&& views(final(self).partial@) == p1
                } else {
                    &&& views(final(self).full@) == fv
                    &&& views(final(self).partial@) == p1.push(s2)
                }
            }),
    {
        let ghost pv = views(self.partial@);
        let ghost ev = views(self.empty@);
        let ghost fv = views(self.full@);
        let mut slab = match self.partial.pop() {
            Some(s) => s,
            None => match self.empty.pop() {
                Some(s) => s,
                None => match fresh {
                    Some(s) => s,
                    None => {
                        proof {
                            assert(false);
                        }
                        return 0;
                    },
                },
            },
        };
        proof {
            assert(views(self.partial@) =~= (if pv.len() > 0 { pv.drop_last() } else { pv }));
            assert(views(self.empty@) =~= (if pv.len() == 0 && ev.len() > 0 { ev.drop_last() } else { ev }));
            broadcast use vstd::multiset::group_multiset_axioms;
            if pv.len() > 0 {
                assert(old(self).partial@[pv.len() - 1] == slab);
                assert(pv =~= pv.drop_last().push(pv.last()));
                lemma_pages_push(pv.drop_last(), pv.last());
                assert(self.slab_pages().insert(slab@.page) =~= old(self).slab_pages());
            } else if ev.len() > 0 {
                assert(old(self).empty@[ev.len() - 1] == slab);
                assert(ev =~= ev.drop_last().push(ev.last()));
                lemma_pages_push(ev.drop_last(), ev.last());
                assert(self.slab_pages().insert(slab@.page) =~= old(self).slab_pages());
            } else {
                assert(self.slab_pages() =~= old(self).slab_pages());
            }
        }
        let ghost mid = self.slab_pages();
        let ghost before = slab@;
        match slab.allocate() {
            Some(ptr) => {
                if slab.is_full() {
                    self.full.push(slab);
                    proof {
                        assert(views(self.full@) =~= fv.push(before.after_alloc()));
                        lemma_pages_push(fv, before.after_alloc());
                        broadcast use vstd::multiset::group_multiset_axioms;
                        assert(self.slab_pages() =~= mid.insert(before.page));
                        lemma_slot_in_page::<T>(before.page, ptr);
                        self.lemma_owner_is_unique(1, fv.len() as int, ptr);
                    }
                } else {
                    self.partial.push(slab);
                    proof {
                        assert(views(self.partial@) =~= (if pv.len() > 0 { pv.drop_last() } else { pv }).push(
                            before.after_alloc(),
                        ));
                        lemma_pages_push(if pv.len() > 0 { pv.drop_last() } else { pv }, before.after_alloc());
                        broadcast use vstd::multiset::group_multiset_axioms;
                        assert(self.slab_pages() =~= mid.insert(before.page));
                        lemma_slot_in_page::<T>(before.page, ptr);
                        self.lemma_owner_is_unique(
                            0,
                            (if pv.len() > 0 { pv.len() - 1 } else { 0 }) as int,
                            ptr,
                        );
                    }
                }
                proof {
                    lemma_slot_in_page::<T>(before.page, ptr);
                    assert(before.free.contains(ptr)) by {
                        assert(before.free[before.free.len() - 1] == ptr);
                    }
                    if pv.len() > 0 {
                        old(self).lemma_owner_is_unique(0, pv.len() - 1, ptr);
                    } else if ev.len() > 0 {
                        old(self).lemma_owner_is_unique(2, ev.len() - 1, ptr);
                    } else {
                        lemma_last_containing(fv, ptr);
                        let lf = last_containing(fv, ptr);
                        if lf >= 0 {
                            assert(old(self).full@[lf].wf());
                            lemma_same_page(fv[lf].page, before.page, ptr);
                            lemma_pages_count(fv, lf, lf);
                            broadcast use vstd::multiset::group_multiset_axioms;
                            assert(old(self).slab_pages().count(before.page) >= 1);
                        }
                    }
                }
                ptr
            },
            None => {
                proof {
                    assert(false);
                }
                0
            },
        }
    }

    /// Takes out of `list` the slab nearest its head whose page holds `addr`.
    fn remove_containing(list: &mut Vec<Slab<T>>, addr: usize) -> (r: Option<Slab<T>>)
        requires
            forall|i: int| 0 <= i < old(list)@.len() ==> (#[trigger] old(list)@[i]).wf(),
        ensures
            ({
                let k = last_containing(views(old(list)@), addr);
                if k < 0 {
                    r is None && final(list)@ == old(list)@
                } else {
                    r == Some(old(list)@[k]) && final(list)@ == old(list)@.remove(k)
                }
            }),
    {
        let ghost l0 = list@;
        proof {
            lemma_last_containing(views(l0), addr);
        }
        let mut i = list.len();
        while i > 0
            invariant
                0 <= i <= list.len(),
                list@ == l0,
                l0 == old(list)@,
                forall|j: int| 0 <= j < l0.len() ==> (#[trigger] l0[j]).wf(),
                forall|j: int| i <= j < l0.len() ==> !(#[trigger] l0[j])@.contains(addr),
                last_containing(views(l0), addr) < i,
            decreases i,
        {
            i = i - 1;
            proof {
                lemma_last_containing(views(l0), addr);
                assert(views(l0)[i as int] == l0[i as int]@);
            }
            if list[i].contains(addr) {
                let slab = list.remove(i);
                return Some(slab);
            }
        }
        None
    }

    /// The position of the slab nearest the head of `list` whose page holds
    /// `addr`.
    fn find_containing(list: &Vec<Slab<T>>, addr: usize) -> (r: Option<usize>)
        requires
            forall|i: int| 0 <= i < list@.len() ==> (#[trigger] list@[i]).wf(),
        ensures
            match r {
                None => last_containing(views(list@), addr) < 0,
                Some(k) => k == last_containing(views(list@), addr) && k < list@.len(),
            },
    {
        proof {
            lemma_last_containing(views(list@), addr);
        }
        let mut i = list.len();
        while i > 0
            invariant
                0 <= i <= list@.len(),
                forall|j: int| 0 <= j < list@.len() ==> (#[trigger] list@[j]).wf(),
                forall|j: int| i <= j < list@.len() ==> !(#[trigger] list@[j])@.contains(addr),
                last_containing(views(list@), addr) < i,
            decreases i,
        {
            i = i - 1;
            proof {
                lemma_last_containing(views(list@), addr);
                assert(views(list@)[i as int] == list@[i as int]@);
            }
            if list[i].contains(addr) {
                return Some(i);
            }
        }
        None
    }

    /// Whether the slot at `addr` can be returned: a slab of the cache holds
    /// it (searched in `partial`, `full`, `empty`), has a slot in use, and
    /// `addr` is one of its slots in use.
    pub fn can_free(&self, addr: usize) -> (b: bool)
        requires
            self.wf(),
        ensures
            b == (self.owner_list(addr) < 3 && self.owner(addr).used > 0 && is_live_slot::<T>(
                self.owner(addr),
                addr,
            )),
    {
        let slab = match Self::find_containing(&self.partial, addr) {
            Some(k) => &self.partial[k],
            None => match Self::find_containing(&self.full, addr) {
                Some(k) => &self.full[k],
                None => match Self::find_containing(&self.empty, addr) {
                    Some(k) => &self.empty[k],
                    None => return false,
                },
            },
        };
        proof {
            assert(slab@ == self.owner(addr));
        }
        !slab.is_empty() && slab.is_live(addr)
    }

    /// The list holding the slab a slot at `addr` belongs to, searched in
    /// the order `partial`, `full`, `empty`: 0, 1, 2 for them, or 3 when no
    /// slab holds `addr`.
    pub open spec fn owner_list(&self, addr: usize) -> int {
        if last_containing(views(self.partial@), addr) >= 0 {
            0
        } else if last_containing(views(self.full@), addr) >= 0 {
            1
        } else if last_containing(views(self.empty@), addr) >= 0 {
            2
        } else {
            3
        }
    }

    /// The slab that a slot at `addr` belongs to.
    pub open spec fn owner(&self, addr: usize) -> SlabView {
        if self.owner_list(addr) == 0 {
            views(self.partial@)[last_containing(views(self.partial@), addr)]
        } else if self.owner_list(addr) == 1 {
            views(self.full@)[last_containing(views(self.full@), addr)]
        } else {
            views(self.empty@)[last_containing(views(self.empty@), addr)]
        }
    }

    /// Returns the slot at `addr` to its slab, which then goes to the head of
    /// `empty` when none of its slots is in use any more, of `partial`
    /// otherwise.
    #[verifier::spinoff_prover]
    pub fn dealloc(&mut self, addr: usize)
        requires
            old(self).wf(),
            old(self).owner_list(addr) < 3,
            old(self).owner(addr).used > 0,
            is_live_slot::<T>(old(self).owner(addr), addr),
        ensures
            final(self).wf(),
            ({
                let pv = views(old(self).partial@);
                let fv = views(old(self).full@);
                let ev = views(old(self).empty@);
                let which = old(self).owner_list(addr);
                let s2 = old(self).owner(addr).after_dealloc(addr);
                let p1 = if which == 0 { pv.remove(last_containing(pv, addr)) } else { pv };
                let f1 = if which == 1 { fv.remove(last_containing(fv, addr)) } else { fv };
                let e1 = if which == 2 { ev.remove(last_containing(ev, addr)) } else { ev };
                &&& !final(self).is_live_in(addr)
                &&& final(self).owner(addr) == s2
                &&& views(final(self).full@) == f1
                &&& if s2.used == 0 {
                    &&& views(final(self).empty@) == e1.push(s2)
                    &&& views(final(self).partial@) == p1
                } else {
                    &&& views(final(self).empty@) == e1
                    &&& views(final(self).partial@) == p1.push(s2)
                }
            }),
    {
        let ghost pv = views(self.partial@);
        let ghost fv = views(self.full@);
        let ghost ev = views(self.empty@);
        let ghost which = self.owner_list(addr);
        let ghost owner = self.owner(addr);
        let mut slab = match Self::remove_containing(&mut self.partial, addr) {
            Some(s) => {
                proof {
                    let k = last_containing(pv, addr);
                    lemma_last_containing(pv, addr);
                    assert(which == 0);
                    assert(views(self.partial@) =~= pv.remove(k));
                    assert(pv[k] == s@);
                    broadcast use vstd::multiset::group_multiset_axioms;
                    lemma_pages_remove(pv, k);
                    lemma_pages_count(pv, k, k);
                    assert(self.slab_pages() =~= old(self).slab_pages().remove(s@.page));
                }
                s
            },
            None => match Self::remove_containing(&mut self.full, addr) {
                Some(s) => {
                    proof {
                        let k = last_containing(fv, addr);
                        lemma_last_containing(fv, addr);
                        assert(which == 1);
                        assert(views(self.partial@) =~= pv);
                        assert(views(self.full@) =~= fv.remove(k));
                        assert(fv[k] == s@);
                        broadcast use vstd::multiset::group_multiset_axioms;
                        lemma_pages_remove(fv, k);
                        lemma_pages_count(fv, k, k);
                        assert(self.slab_pages() =~= old(self).slab_pages().remove(s@.page));
                    }
                    s
                },
                None => match Self::remove_containing(&mut self.empty, addr) {
                    Some(s) => {
                        proof {
                            let k = last_containing(ev, addr);
                            lemma_last_containing(ev, addr);
                            assert(which == 2);
                            assert(views(self.partial@) =~= pv);
                            assert(views(self.full@) =~= fv);
                            assert(views(self.empty@) =~= ev.remove(k));
                            assert(ev[k] == s@);
                            broadcast use vstd::multiset::group_multiset_axioms;
                            lemma_pages_remove(ev, k);
                            lemma_pages_count(ev, k, k);
                            assert(self.slab_pages() =~= old(self).slab_pages().remove(s@.page));
                        }
                        s
                    },
                    None => {
                        proof {
                            assert(false);
                        }
                        return;
                    },
                },
            },
        };
        let ghost mid = self.slab_pages();
        proof {
            assert(slab@.page == owner.page);
            assert(old(self).slab_pages().count(owner.page) >= 1) by {
                broadcast use vstd::multiset::group_multiset_axioms;
            }
        }
        slab.dealloc(addr);
        let ghost p1 = views(self.partial@);
        let ghost e1 = views(self.empty@);
        if slab.is_empty() {
            self.empty.push(slab);
            proof {
                assert(views(self.empty@) =~= e1.push(owner.after_dealloc(addr)));
                lemma_pages_push(e1, owner.after_dealloc(addr));
                broadcast use vstd::multiset::group_multiset_axioms;
                assert(self.slab_pages() =~= mid.insert(owner.page));
                lemma_slot_in_page::<T>(owner.page, addr);
                self.lemma_owner_is_unique(2, e1.len() as int, addr);
            }
        } else {
            self.partial.push(slab);
            proof {
                assert(views(self.partial@) =~= p1.push(owner.after_dealloc(addr)));
                lemma_pages_push(p1, owner.after_dealloc(addr));
                broadcast use vstd::multiset::group_multiset_axioms;
                assert(self.slab_pages() =~= mid.insert(owner.page));
                lemma_slot_in_page::<T>(owner.page, addr);
                self.lemma_owner_is_unique(0, p1.len() as int, addr);
            }
        }
        proof {
            broadcast use vstd::multiset::group_multiset_axioms;
            assert(self.slab_pages() =~= mid.insert(owner.page));
            assert(self.slab_pages() =~= old(self).slab_pages());
            assert(owner.after_dealloc(addr).free.contains(addr)) by {
                assert(owner.after_dealloc(addr).free[owner.free.len() as int] == addr);
            }
        }
    }
}

impl<T> Default for SlabCache<T> {
    fn default() -> (c: Self)
        ensures
            c.wf(),
            c.full@.len() == 0,
            c.empty@.len() == 0,
            c.partial@.len() == 0,
    {
        Self::new()
    }
}

/// A slot returned to a slab is the next one it hands out, and handing it
/// out leaves the slab as it was before the slot was returned.
pub proof fn lemma_freed_slot_reused_first(v: SlabView, addr: usize)
    requires
        v.used > 0,
    ensures
        v.after_dealloc(addr).free.len() > 0,
        v.after_dealloc(addr).free.last() == addr,
        v.after_dealloc(addr).after_alloc() == v,
{
    assert(v.free.push(addr).drop_last() =~= v.free);
}

} // verus!
