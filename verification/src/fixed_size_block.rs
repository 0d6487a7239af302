//! An allocator with one free list per block size (8 to 2048 bytes); larger
//! requests, and blocks no list can serve yet, go to a free-list allocator.
use vstd::prelude::*;
use vstd::arithmetic::power2::{pow2, lemma2_to64, lemma_pow2_strictly_increases};
use vstd::bits::lemma_usize_shl_is_mul;
use vstd::layout::valid_layout;
use crate::HEAP_SIZE;
use crate::linked_list::{
    LinkedListAllocator, alloc_outcome, dealloc_outcome, adjusted_align, adjusted_size, align_in_range,
    is_first_fit,
};
use crate::align::{spec_align_up, is_power_of_two};
use crate::regions::{NODE_SIZE, total_size, disjoint_from, regions_wf, covers, in_region, lemma_disjoint_iff_uncovered};

verus! {

/// The number of block sizes.
pub const NUM_BLOCK_SIZES: usize = 9;

/// The block size of class `index`: 8, 16, 32, ..., 2048 bytes. Each is a
/// power of two, as it also serves as the block's alignment.
pub open spec fn class_size(index: int) -> int {
    8 * pow2(index as nat) as int
}

/// The block sizes, each twice the one before, from 8 to 2048 bytes.
pub proof fn lemma_class_sizes()
    ensures
        class_size(0) == 8,
        class_size(1) == 16,
        class_size(2) == 32,
        class_size(3) == 64,
        class_size(4) == 128,
        class_size(5) == 256,
        class_size(6) == 512,
        class_size(7) == 1024,
        class_size(8) == 2048,
{
    lemma2_to64();
}

/// The block size of class `index`.
fn class_block_size(index: usize) -> (r: usize)
    requires
        index < NUM_BLOCK_SIZES,
    ensures
        r == class_size(index as int),
{
    proof {
        lemma2_to64();
        if index < 8 {
            lemma_pow2_strictly_increases(index as nat, 8);
        }
        lemma_usize_shl_is_mul(8, index);
    }
    8usize << index
}

/// Every block size is a power of two and a valid layout, as its own
/// alignment and with the alignment a free-list node needs.
proof fn lemma_class_layout(index: int)
    requires
        0 <= index < NUM_BLOCK_SIZES,
    ensures
        is_power_of_two(class_size(index) as usize),
        valid_layout(class_size(index) as usize, class_size(index) as usize),
        valid_layout(class_size(index) as usize, adjusted_align(class_size(index) as usize) as usize),
{
    let cs = class_size(index);
    lemma_class_sizes();
    lemma2_to64();
    vstd::arithmetic::power2::lemma_pow2_adds(3, index as nat);
    if index < 8 {
        lemma_pow2_strictly_increases(index as nat, 8);
    }
    crate::buddy::lemma_pow2_is_power_of_two((index + 3) as nat);
    let aa = adjusted_align(cs as usize);
    crate::align::lemma_node_size_is_power_of_two();
    vstd::arithmetic::div_mod::lemma_mod_pos_bound(isize::MAX as int, cs);
    vstd::arithmetic::div_mod::lemma_mod_pos_bound(isize::MAX as int, aa);
    assert(isize::MAX >= 0x7fff_ffff);
}

/// The block size a request needs: its size or its alignment, whichever is
/// larger.
pub open spec fn required_block_size(size: usize, align: usize) -> int {
    if size >= align {
        size as int
    } else {
        align as int
    }
}

/// `index` is the first class whose blocks hold `req` bytes.
pub open spec fn is_class_for(req: int, index: int) -> bool {
    &&& 0 <= index < NUM_BLOCK_SIZES
    &&& class_size(index) >= req
    &&& forall|j: int| 0 <= j < index ==> class_size(j) < req
}

/// The class that serves a request, if any block size is large enough.
pub open spec fn class_index(size: usize, align: usize) -> Option<int> {
    let req = required_block_size(size, align);
    if req > 2048 {
        None
    } else {
        Some(choose|index: int| is_class_for(req, index))
    }
}

/// Some class at or below `index`, whose blocks hold `req` bytes, is the
/// first that does.
proof fn lemma_class_exists(req: int, index: int)
    requires
        0 <= index < NUM_BLOCK_SIZES,
        class_size(index) >= req,
    ensures
        exists|c: int| is_class_for(req, c),
    decreases index,
{
    lemma_class_sizes();
    if index == 0 || class_size(index - 1) < req {
        assert forall|j: int| 0 <= j < index implies class_size(j) < req by {
            if j < index - 1 {
                vstd::arithmetic::power2::lemma_pow2_strictly_increases(j as nat, (index - 1) as nat);
            }
        }
        assert(is_class_for(req, index));
    } else {
        lemma_class_exists(req, index - 1);
    }
}

/// The class that serves a request is the first whose blocks hold the
/// request's size and alignment; there is one exactly when the largest
/// block size, 2048 bytes, holds them.
pub proof fn lemma_class_index(size: usize, align: usize)
    ensures
        class_index(size, align) is None <==> required_block_size(size, align) > 2048,
        class_index(size, align) matches Some(index) ==> 0 <= index < NUM_BLOCK_SIZES && is_class_for(
            required_block_size(size, align),
            index,
        ),
{
    lemma_class_sizes();
    let req = required_block_size(size, align);
    if req <= 2048 {
        lemma_class_exists(req, 8);
    }
}

/// The block size that serves a request is the smallest of 8, 16, ..., 2048
/// bytes that holds both its size and its alignment: that block size is at
/// least the size and at least the alignment, the block size below it is
/// smaller than one of them, and there is none exactly when the size or the
/// alignment exceeds 2048.
pub proof fn lemma_class_is_smallest_fit(size: usize, align: usize)
    ensures
        class_index(size, align) is None <==> (size > 2048 || align > 2048),
        class_index(size, align) matches Some(index) ==> {
            &&& 0 <= index < NUM_BLOCK_SIZES
            &&& size <= class_size(index)
            &&& align <= class_size(index)
            &&& (index == 0 || size > class_size(index - 1) || align > class_size(index - 1))
        },
{
    lemma_class_index(size, align);
}

/// The size of the block that serves a request: its block size, or, for a
/// request larger than every block size, the size the allocator behind the
/// lists uses for it.
pub open spec fn handed_size(size: usize, align: usize) -> int {
    match class_index(size, align) {
        Some(index) => class_size(index),
        None => adjusted_size(size, align),
    }
}

/// Chooses a block size for a request of `size` bytes aligned to `align`.
///
/// Returns an index into the block sizes.
fn list_index(size: usize, align: usize) -> (r: Option<usize>)
    ensures
        match r {
            None => class_index(size, align) is None,
            Some(index) => class_index(size, align) == Some(index as int) && is_class_for(
                required_block_size(size, align),
                index as int,
            ),
        },
{
    let required = if size >= align { size } else { align };
    let mut index: usize = 0;
    proof {
        lemma_class_sizes();
    }
    while index < NUM_BLOCK_SIZES
        invariant
            0 <= index <= NUM_BLOCK_SIZES,
            required == required_block_size(size, align),
            forall|j: int| 0 <= j < index ==> class_size(j) < required,
        decreases NUM_BLOCK_SIZES - index,
    {
        if class_block_size(index) >= required {
            proof {
                lemma_class_sizes();
                let req = required as int;
                assert(is_class_for(req, index as int));
                let c = choose|c: int| is_class_for(req, c);
                if c < index {
                } else if c > index {
                    assert(class_size(index as int) < req);
                }
            }
            return Some(index);
        }
        index = index + 1;
    }
    proof {
        lemma_class_sizes();
        assert(class_size(8) < required);
    }
    None
}

/// The bytes held by the blocks of the lists of classes below `n`.
pub open spec fn class_free_below(lists: Seq<Seq<usize>>, n: int) -> int
    decreases n,
{
    if n <= 0 {
        0
    } else {
        class_free_below(lists, n - 1) + lists[n - 1].len() * class_size(n - 1)
    }
}

/// Partial sums of the class lists' bytes grow with the class.
proof fn lemma_class_free_monotone(lists: Seq<Seq<usize>>, m: int, n: int)
    requires
        0 <= m <= n,
    ensures
        0 <= class_free_below(lists, m) <= class_free_below(lists, n),
    decreases n,
{
    if n > 0 {
        vstd::arithmetic::power2::lemma_pow2_pos((n - 1) as nat);
        assert(lists[n - 1].len() * class_size(n - 1) >= 0) by (nonlinear_arith)
            requires class_size(n - 1) >= 0;
        if m < n {
            lemma_class_free_monotone(lists, m, n - 1);
        } else {
            lemma_class_free_monotone(lists, n - 1, n - 1);
        }
    }
}

/// The range `[addr, addr + size)` shares no byte with a block on the lists.
pub open spec fn apart_from_lists(lists: Seq<Seq<usize>>, addr: int, size: int) -> bool {
    forall|i: int, j: int|
        0 <= i < lists.len() && 0 <= j < lists[i].len() ==> #[trigger] lists[i][j] + class_size(i) <= addr
            || addr + size <= lists[i][j]
}

/// The blocks on the lists fit in the address space and share no byte with
/// one another nor with the free regions `regions`.
pub open spec fn lists_apart(lists: Seq<Seq<usize>>, regions: Seq<(usize, usize)>) -> bool {
    &&& forall|i: int, j: int|
        0 <= i < lists.len() && 0 <= j < lists[i].len() ==> #[trigger] lists[i][j] + class_size(i) <= usize::MAX
            && disjoint_from(regions, lists[i][j] as int, class_size(i))
    &&& forall|i1: int, j1: int, i2: int, j2: int|
        0 <= i1 < lists.len() && 0 <= j1 < lists[i1].len() && 0 <= i2 < lists.len() && 0 <= j2 < lists[i2].len()
            && (i1 != i2 || j1 != j2) ==> #[trigger] lists[i1][j1] + class_size(i1) <= #[trigger] lists[i2][j2]
            || lists[i2][j2] + class_size(i2) <= lists[i1][j1]
}

/// Class sizes are positive.
proof fn lemma_class_size_pos(i: int)
    requires
        0 <= i,
    ensures
        class_size(i) >= 8,
{
    vstd::arithmetic::power2::lemma_pow2_pos(i as nat);
}

/// When the free regions change so that every byte they newly cover lies in
/// `[add, add + add_size)`, a range that shares no byte with the blocks on
/// the lists, those blocks stay apart from the regions.
proof fn lemma_lists_apart_kept(
    lists: Seq<Seq<usize>>,
    r0: Seq<(usize, usize)>,
    r1: Seq<(usize, usize)>,
    add: int,
    add_size: int,
)
    requires
        lists_apart(lists, r0),
        regions_wf(r0),
        regions_wf(r1),
        forall|x: int| #[trigger] covers(r1, x) ==> covers(r0, x) || add <= x < add + add_size,
        apart_from_lists(lists, add, add_size),
    ensures
        lists_apart(lists, r1),
{
    assert forall|i: int, j: int| 0 <= i < lists.len() && 0 <= j < lists[i].len() implies disjoint_from(
        r1,
        #[trigger] lists[i][j] as int,
        class_size(i),
    ) by {
        let b = lists[i][j] as int;
        lemma_class_size_pos(i);
        lemma_disjoint_iff_uncovered(r0, b, class_size(i));
        lemma_disjoint_iff_uncovered(r1, b, class_size(i));
        assert forall|x: int| b <= x < b + class_size(i) implies !#[trigger] covers(r1, x) by {
            if covers(r1, x) {
                assert(!covers(r0, x));
            }
        }
    }
}

/// A range that the old free regions covered and the new ones do not shares
/// no byte with the blocks on the lists nor with the new regions.
proof fn lemma_taken_apart(
    lists: Seq<Seq<usize>>,
    r0: Seq<(usize, usize)>,
    r1: Seq<(usize, usize)>,
    a: int,
    size: int,
)
    requires
        lists_apart(lists, r0),
        regions_wf(r0),
        regions_wf(r1),
        size > 0,
        forall|x: int| a <= x < a + size ==> covers(r0, x) && !covers(r1, x),
    ensures
        apart_from_lists(lists, a, size),
        disjoint_from(r1, a, size),
{
    lemma_disjoint_iff_uncovered(r1, a, size);
    assert forall|i: int, j: int| 0 <= i < lists.len() && 0 <= j < lists[i].len() implies #[trigger] lists[i][j]
        + class_size(i) <= a || a + size <= lists[i][j] by {
        let b = lists[i][j] as int;
        lemma_class_size_pos(i);
        lemma_disjoint_iff_uncovered(r0, b, class_size(i));
        if !(b + class_size(i) <= a || a + size <= b) {
            let x = if a >= b { a } else { b };
            assert(covers(r0, x));
        }
    }
}

/// Taking the head block off a list keeps the rest apart, and the block
/// taken is apart from what is left.
proof fn lemma_lists_apart_pop(lists: Seq<Seq<usize>>, regions: Seq<(usize, usize)>, index: int)
    requires
        lists_apart(lists, regions),
        0 <= index < lists.len(),
        lists[index].len() > 0,
    ensures
        lists_apart(lists.update(index, lists[index].drop_last()), regions),
        apart_from_lists(lists.update(index, lists[index].drop_last()), lists[index].last() as int, class_size(index)),
        disjoint_from(regions, lists[index].last() as int, class_size(index)),
{
    let l1 = lists.update(index, lists[index].drop_last());
    let last = lists[index].len() - 1;
    assert(lists[index].last() == lists[index][last]);
    assert forall|i: int, j: int| 0 <= i < l1.len() && 0 <= j < l1[i].len() implies #[trigger] l1[i][j] == lists[i][j] by {}
    assert forall|i1: int, j1: int, i2: int, j2: int|
        0 <= i1 < l1.len() && 0 <= j1 < l1[i1].len() && 0 <= i2 < l1.len() && 0 <= j2 < l1[i2].len()
            && (i1 != i2 || j1 != j2) implies #[trigger] l1[i1][j1] + class_size(i1) <= #[trigger] l1[i2][j2]
            || l1[i2][j2] + class_size(i2) <= l1[i1][j1] by {
        assert(l1[i1][j1] == lists[i1][j1]);
        assert(l1[i2][j2] == lists[i2][j2]);
    }
    assert forall|i: int, j: int| 0 <= i < l1.len() && 0 <= j < l1[i].len() implies #[trigger] l1[i][j]
        + class_size(i) <= lists[index].last() || lists[index].last() + class_size(index) <= l1[i][j] by {
        assert(l1[i][j] == lists[i][j]);
        assert(i != index || j != last);
    }
}

/// Putting a block apart from all free memory at the head of a list keeps
/// the lists apart.
proof fn lemma_lists_apart_push(lists: Seq<Seq<usize>>, regions: Seq<(usize, usize)>, index: int, addr: usize)
    requires
        lists_apart(lists, regions),
        0 <= index < lists.len(),
        addr + class_size(index) <= usize::MAX,
        apart_from_lists(lists, addr as int, class_size(index)),
        disjoint_from(regions, addr as int, class_size(index)),
    ensures
        lists_apart(lists.update(index, lists[index].push(addr)), regions),
{
    let l1 = lists.update(index, lists[index].push(addr));
    let n = lists[index].len();
    assert forall|i: int, j: int| 0 <= i < l1.len() && 0 <= j < l1[i].len() implies #[trigger] l1[i][j] == (if i
        == index && j == n {
        addr
    } else {
        lists[i][j]
    }) by {}
    assert forall|i1: int, j1: int, i2: int, j2: int|
        0 <= i1 < l1.len() && 0 <= j1 < l1[i1].len() && 0 <= i2 < l1.len() && 0 <= j2 < l1[i2].len()
            && (i1 != i2 || j1 != j2) implies #[trigger] l1[i1][j1] + class_size(i1) <= #[trigger] l1[i2][j2]
            || l1[i2][j2] + class_size(i2) <= l1[i1][j1] by {
        if i1 == index && j1 == n {
            assert(lists[i2][j2] + class_size(i2) <= addr || addr + class_size(index) <= lists[i2][j2]);
        } else if i2 == index && j2 == n {
            assert(lists[i1][j1] + class_size(i1) <= addr || addr + class_size(index) <= lists[i1][j1]);
        } else {
            assert(l1[i1][j1] == lists[i1][j1]);
            assert(l1[i2][j2] == lists[i2][j2]);
        }
    }
}

/// An allocator with a free list of blocks for each of the block sizes, and
/// a free-list allocator behind them.
///
/// `list_heads[i]` holds the addresses of the free blocks of class `i`; its
/// last element is the head of the list.
pub struct FixedSizeBlockAllocator {
    list_heads: Vec<Vec<usize>>,
    fallback_allocator: LinkedListAllocator,
}

impl FixedSizeBlockAllocator {
    /// The free lists, one per block size.
    pub closed spec fn lists(&self) -> Seq<Seq<usize>> {
        self.list_heads@.map_values(|l: Vec<usize>| l@)
    }

    /// The allocator behind the lists.
    pub closed spec fn fallback(&self) -> LinkedListAllocator {
        self.fallback_allocator
    }

    /// One free list per block size, a consistent allocator behind them,
    /// and blocks on the lists that share no byte with one another nor with
    /// the free regions of the allocator behind them.
    pub closed spec fn wf(&self) -> bool {
        &&& self.list_heads@.len() == NUM_BLOCK_SIZES
        &&& self.fallback_allocator.wf()
        &&& lists_apart(self.lists(), self.fallback_allocator@)
    }

    /// What a consistent allocator guarantees: one list per block size, a
    /// consistent allocator behind them, and free blocks on the lists that
    /// share no byte with one another nor with its free regions.
    pub proof fn lemma_wf(&self)
        requires
            self.wf(),
        ensures
            self.lists().len() == NUM_BLOCK_SIZES,
            self.fallback().wf(),
            lists_apart(self.lists(), self.fallback()@),
    {
    }

    /// `x` is a byte of free memory: of a block on the lists or of a free
    /// region of the allocator behind them.
    pub open spec fn free_byte(&self, x: int) -> bool {
        ||| covers(self.fallback()@, x)
        ||| exists|i: int, j: int|
            0 <= i < self.lists().len() && 0 <= j < self.lists()[i].len() && #[trigger] self.lists()[i][j] <= x
                < self.lists()[i][j] + class_size(i)
    }

    /// A block handed out is not handed out again before it is freed: a
    /// range that shares no byte with free memory, as every block that
    /// `allocate` hands out does afterwards, shares no byte with a range of
    /// free memory, as every later block that `allocate` hands out is.
    pub proof fn lemma_handed_out_blocks_disjoint(&self, a1: int, size1: int, a2: int, size2: int)
        requires
            self.wf(),
            size1 > 0,
            size2 > 0,
            self.apart_from_free(a1, size1),
            forall|x: int| a2 <= x < a2 + size2 ==> #[trigger] self.free_byte(x),
        ensures
            a1 + size1 <= a2 || a2 + size2 <= a1,
    {
        if !(a1 + size1 <= a2 || a2 + size2 <= a1) {
            let x = if a1 >= a2 { a1 } else { a2 };
            assert(self.free_byte(x));
            self.fallback().lemma_wf_regions();
            lemma_disjoint_iff_uncovered(self.fallback()@, a1, size1);
            if !covers(self.fallback()@, x) {
                let (i, j) = choose|i: int, j: int|
                    0 <= i < self.lists().len() && 0 <= j < self.lists()[i].len() && #[trigger] self.lists()[i][j]
                        <= x < self.lists()[i][j] + class_size(i);
                assert(self.lists()[i][j] + class_size(i) <= a1 || a1 + size1 <= self.lists()[i][j]);
            }
        }
    }

    /// `[addr, addr + size)` shares no byte with free memory: neither with a
    /// block on the lists nor with a free region of the allocator behind them.
    pub open spec fn apart_from_free(&self, addr: int, size: int) -> bool {
        apart_from_lists(self.lists(), addr, size) && disjoint_from(self.fallback()@, addr, size)
    }

    /// The bytes held by the free blocks of the lists and of the allocator
    /// behind them.
    pub open spec fn free_total(&self) -> int {
        class_free_below(self.lists(), NUM_BLOCK_SIZES as int) + total_size(self.fallback()@)
    }

    /// Creates an allocator that owns no memory yet.
    pub fn new() -> (a: Self)
        ensures
            a.wf(),
            a.lists().len() == NUM_BLOCK_SIZES,
            forall|i: int| 0 <= i < NUM_BLOCK_SIZES ==> (#[trigger] a.lists()[i]).len() == 0,
            !a.fallback().is_initialized(),
            a.fallback()@ == Seq::<(usize, usize)>::empty(),
    {
        let mut list_heads: Vec<Vec<usize>> = Vec::new();
        let mut i: usize = 0;
        while i < NUM_BLOCK_SIZES
            invariant
                0 <= i <= NUM_BLOCK_SIZES,
                list_heads@.len() == i,
                forall|j: int| 0 <= j < i ==> (#[trigger] list_heads@[j])@.len() == 0,
            decreases NUM_BLOCK_SIZES - i,
        {
            list_heads.push(Vec::new());
            i = i + 1;
        }
        let a = FixedSizeBlockAllocator { list_heads, fallback_allocator: LinkedListAllocator::new() };
        proof {
            assert forall|i: int| 0 <= i < NUM_BLOCK_SIZES implies (#[trigger] a.lists()[i]).len() == 0 by {
                assert(a.lists()[i] == a.list_heads@[i]@);
            }
        }
        a
    }

    /// Hands the heap `[heap_start, heap_start + HEAP_SIZE)` to the
    /// allocator behind the lists.
    pub fn init(&mut self, heap_start: usize)
        requires
            old(self).wf(),
            !old(self).fallback().is_initialized(),
            heap_start % NODE_SIZE == 0,
            heap_start + HEAP_SIZE <= usize::MAX,
            old(self).apart_from_free(heap_start as int, HEAP_SIZE as int),
        ensures
            final(self).wf(),
            final(self).lists() == old(self).lists(),
            final(self).fallback().is_initialized(),
            old(self).fallback()@.len() == 0 ==> final(self).fallback()@ == seq![(heap_start, HEAP_SIZE)],
    {
        self.fallback_allocator.init(heap_start);
        proof {
            assert(self.lists() =~= old(self).lists());
            old(self).fallback().lemma_wf_regions();
            self.fallback().lemma_wf_regions();
            lemma_lists_apart_kept(
                self.lists(),
                old(self).fallback()@,
                self.fallback()@,
                heap_start as int,
                HEAP_SIZE as int,
            );
        }
    }

    /// Whether the allocator behind the lists has been given its heap.
    pub fn initialized(&self) -> (b: bool)
        ensures
            b == self.fallback().is_initialized(),
    {
        self.fallback_allocator.initialized()
    }

    /// The allocator behind the lists.
    pub fn fallback_allocator(&self) -> (f: &LinkedListAllocator)
        ensures
            *f == self.fallback(),
    {
        &self.fallback_allocator
    }

    /// The allocator behind the lists can serve a request without overflow.
    pub open spec fn fallback_can_serve(&self, size: usize, align: usize) -> bool {
        &&& self.fallback().is_initialized()
        &&& valid_layout(size, align)
        &&& valid_layout(size, adjusted_align(align) as usize)
        &&& align_in_range(self.fallback()@, adjusted_size(size, align), adjusted_align(align))
    }

    /// A request can be served without overflow: from a non-empty list of
    /// its block size, or else by the allocator behind the lists, for a block
    /// of that size or, for a request larger than every block size, as it is.
    pub open spec fn serves(&self, size: usize, align: usize) -> bool {
        match class_index(size, align) {
            Some(index) => self.lists()[index].len() > 0 || self.fallback_can_serve(
                class_size(index) as usize,
                class_size(index) as usize,
            ),
            None => self.fallback_can_serve(size, align),
        }
    }

    /// Whether a request can be served without overflow (see `serves`).
    pub fn can_serve(&self, size: usize, align: usize) -> (b: bool)
        requires
            self.wf(),
            valid_layout(size, align),
            class_index(size, align) is None ==> valid_layout(size, adjusted_align(align) as usize),
        ensures
            b == self.serves(size, align),
    {
        match list_index(size, align) {
            Some(index) => {
                proof {
                    assert(self.lists()[index as int] == self.list_heads@[index as int]@);
                }
                if self.list_heads[index].len() > 0 {
                    return true;
                }
                let cs = class_block_size(index);
                proof {
                    lemma_class_layout(index as int);
                }
                if !self.fallback_allocator.initialized() {
                    return false;
                }
                let (sz, al) = LinkedListAllocator::size_align(cs, cs);
                self.fallback_allocator.align_fits(sz, al)
            },
            None => {
                if !self.fallback_allocator.initialized() {
                    return false;
                }
                let (sz, al) = LinkedListAllocator::size_align(size, align);
                self.fallback_allocator.align_fits(sz, al)
            },
        }
    }

    /// Allocates using the allocator behind the lists.
    fn fallback_alloc(&mut self, size: usize, align: usize) -> (r: Option<usize>)
        requires
            old(self).wf(),
            old(self).fallback_can_serve(size, align),
        ensures
            final(self).wf(),
            final(self).lists() == old(self).lists(),
            final(self).fallback().is_initialized(),
            alloc_outcome(old(self).fallback()@, final(self).fallback()@, size, align, r),
            r matches Some(a) ==> forall|x: int|
                a <= x < a + adjusted_size(size, align) ==> covers(old(self).fallback()@, x) && !covers(
                    final(self).fallback()@,
                    x,
                ),
    {
        let r = self.fallback_allocator.allocate(size, align);
        proof {
            assert(self.lists() =~= old(self).lists());
            let r0 = old(self).fallback()@;
            let r1 = self.fallback()@;
            old(self).fallback().lemma_wf_regions();
            self.fallback().lemma_wf_regions();
            if let Some(a) = r {
                let sz = adjusted_size(size, align);
                let al = adjusted_align(align);
                let i = choose|i: int|
                    {
                        &&& is_first_fit(r0, i, sz, al)
                        &&& a == spec_align_up(r0[i].0 as int, al)
                        &&& forall|x: int| covers(r1, x) <==> (covers(r0, x) && !(r0[i].0 <= x < a + sz))
                        &&& total_size(r1) == total_size(r0) - (a + sz - r0[i].0)
                    };
                crate::align::lemma_align_up_props(r0[i].0 as int, al);
                assert forall|x: int| a <= x < a + sz implies covers(r0, x) && !covers(r1, x) by {
                    assert(in_region(r0[i], x));
                }
                lemma_lists_apart_kept(self.lists(), r0, r1, 0, 0);
            } else {
                lemma_lists_apart_kept(self.lists(), r0, r1, 0, 0);
            }
        }
        r
    }

    /// Allocates `size` bytes aligned to `align`: from the head of the list
    /// of the smallest block size that holds them, or, when that list is
    /// empty, as a new block of that size from the allocator behind the
    /// lists; requests larger than every block size go to that allocator as
    /// they are.
    pub fn allocate(&mut self, size: usize, align: usize) -> (r: Option<usize>)
        requires
            old(self).wf(),
            valid_layout(size, align),
            old(self).serves(size, align),
        ensures
            final(self).wf(),
            match class_index(size, align) {
                Some(index) => if old(self).lists()[index].len() > 0 {
                    &&& r == Some(old(self).lists()[index].last())
                    &&& final(self).lists() == old(self).lists().update(index, old(self).lists()[index].drop_last())
                    &&& final(self).fallback() == old(self).fallback()
                } else {
                    &&& final(self).lists() == old(self).lists()
                    &&& final(self).fallback().is_initialized()
                    &&& alloc_outcome(
                        old(self).fallback()@,
                        final(self).fallback()@,
                        class_size(index) as usize,
                        class_size(index) as usize,
                        r,
                    )
                },
                None => {
                    &&& final(self).lists() == old(self).lists()
                    &&& final(self).fallback().is_initialized()
                    &&& alloc_outcome(old(self).fallback()@, final(self).fallback()@, size, align, r)
                },
            },
            r matches Some(a) ==> final(self).apart_from_free(a as int, handed_size(size, align)),
            r matches Some(a) ==> forall|x: int|
                a <= x < a + handed_size(size, align) ==> #[trigger] old(self).free_byte(x),
    {
        match list_index(size, align) {
            Some(index) => {
                match self.list_heads[index].pop() {
                    Some(node) => {
                        proof {
                            assert(self.lists() =~= old(self).lists().update(
                                index as int,
                                old(self).lists()[index as int].drop_last(),
                            ));
                            lemma_lists_apart_pop(old(self).lists(), old(self).fallback()@, index as int);
                            let l0 = old(self).lists();
                            let n = l0[index as int].len() - 1;
                            assert(l0[index as int][n] == node);
                            assert forall|x: int| node <= x < node + class_size(index as int) implies #[trigger] old(
                                self,
                            ).free_byte(x) by {
                                assert(l0[index as int][n] <= x < l0[index as int][n] + class_size(index as int));
                            }
                        }
                        Some(node)
                    },
                    None => {
                        proof {
                            assert(self.lists() =~= old(self).lists());
                        }
                        // no block exists in the list: allocate a new one;
                        // a block's size is also its alignment
                        let block_size = class_block_size(index);
                        let r = self.fallback_alloc(block_size, block_size);
                        proof {
                            if let Some(a) = r {
                                let cs = block_size as int;
                                lemma_class_size_pos(index as int);
                                crate::align::lemma_align_up_props(cs, adjusted_align(block_size));
                                assert(adjusted_size(block_size, block_size) >= cs);
                                old(self).fallback().lemma_wf_regions();
                                self.fallback().lemma_wf_regions();
                                lemma_taken_apart(self.lists(), old(self).fallback()@, self.fallback()@, a as int, cs);
                            }
                        }
                        r
                    },
                }
            },
            None => {
                let r = self.fallback_alloc(size, align);
                proof {
                    if let Some(a) = r {
                        crate::align::lemma_align_up_props(size as int, adjusted_align(align));
                        old(self).fallback().lemma_wf_regions();
                        self.fallback().lemma_wf_regions();
                        lemma_taken_apart(
                            self.lists(),
                            old(self).fallback()@,
                            self.fallback()@,
                            a as int,
                            adjusted_size(size, align),
                        );
                    }
                }
                r
            },
        }
    }

    /// Frees the block at `addr`, allocated for `size` bytes aligned to
    /// `align`: it goes to the head of the list of its block size, or back to
    /// the allocator behind the lists when it is larger than every block
    /// size.
    pub fn dealloc(&mut self, addr: usize, size: usize, align: usize)
        requires
            old(self).wf(),
            valid_layout(size, align),
            class_index(size, align) is None ==> valid_layout(size, adjusted_align(align) as usize),
            old(self).freeable(addr, size, align),
        ensures
            final(self).wf(),
            match class_index(size, align) {
                Some(index) => {
                    &&& final(self).lists() == old(self).lists().update(index, old(self).lists()[index].push(addr))
                    &&& final(self).fallback() == old(self).fallback()
                },
                None => {
                    &&& final(self).lists() == old(self).lists()
                    &&& final(self).fallback().is_initialized() == old(self).fallback().is_initialized()
                    &&& dealloc_outcome(old(self).fallback()@, final(self).fallback()@, addr, size, align)
                },
            },
    {
        match list_index(size, align) {
            Some(index) => {
                self.list_heads[index].push(addr);
                proof {
                    assert(self.lists() =~= old(self).lists().update(
                        index as int,
                        old(self).lists()[index as int].push(addr),
                    ));
                    lemma_lists_apart_push(old(self).lists(), old(self).fallback()@, index as int, addr);
                }
            },
            None => {
                self.fallback_allocator.dealloc(addr, size, align);
                proof {
                    assert(self.lists() =~= old(self).lists());
                    old(self).fallback().lemma_wf_regions();
                    self.fallback().lemma_wf_regions();
                    lemma_lists_apart_kept(
                        self.lists(),
                        old(self).fallback()@,
                        self.fallback()@,
                        addr as int,
                        adjusted_size(size, align),
                    );
                }
            },
        }
    }

    /// Whether the block at `addr`, allocated for `size` bytes aligned to
    /// `align`, can be freed (see `freeable`).
    pub fn can_free(&self, addr: usize, size: usize, align: usize) -> (b: bool)
        requires
            self.wf(),
            valid_layout(size, align),
            class_index(size, align) is None ==> valid_layout(size, adjusted_align(align) as usize),
        ensures
            b == self.freeable(addr, size, align),
    {
        let handed = match list_index(size, align) {
            Some(index) => {
                let cs = class_block_size(index);
                if addr > usize::MAX - cs {
                    return false;
                }
                cs
            },
            None => {
                let (sz, _) = LinkedListAllocator::size_align(size, align);
                if addr % NODE_SIZE != 0 || addr > usize::MAX - sz {
                    return false;
                }
                sz
            },
        };
        let mut i: usize = 0;
        while i < NUM_BLOCK_SIZES
            invariant
                0 <= i <= NUM_BLOCK_SIZES,
                self.wf(),
                handed == handed_size(size, align),
                forall|i2: int, j2: int|
                    0 <= i2 < i && 0 <= j2 < self.lists()[i2].len() ==> #[trigger] self.lists()[i2][j2]
                        + class_size(i2) <= addr || addr + handed <= self.lists()[i2][j2],
            decreases NUM_BLOCK_SIZES - i,
        {
            let cs = class_block_size(i);
            proof {
                assert(self.lists()[i as int] == self.list_heads@[i as int]@);
            }
            let mut j: usize = 0;
            while j < self.list_heads[i].len()
                invariant
                    0 <= i < NUM_BLOCK_SIZES,
                    0 <= j <= self.lists()[i as int].len(),
                    self.lists()[i as int] == self.list_heads@[i as int]@,
                    self.wf(),
                    handed == handed_size(size, align),
                    cs == class_size(i as int),
                    forall|i2: int, j2: int|
                        0 <= i2 < i && 0 <= j2 < self.lists()[i2].len() ==> #[trigger] self.lists()[i2][j2]
                            + class_size(i2) <= addr || addr + handed <= self.lists()[i2][j2],
                    forall|j2: int|
                        0 <= j2 < j ==> #[trigger] self.lists()[i as int][j2] + cs <= addr || addr + handed
                            <= self.lists()[i as int][j2],
                decreases self.lists()[i as int].len() - j,
            {
                let a = self.list_heads[i][j];
                if !(a as u128 + cs as u128 <= addr as u128 || addr as u128 + handed as u128 <= a as u128) {
                    proof {
                        let l = self.lists();
                        assert(!(l[i as int][j as int] + class_size(i as int) <= addr || addr + handed
                            <= l[i as int][j as int]));
                    }
                    return false;
                }
                j = j + 1;
            }
            i = i + 1;
        }
        !self.fallback_allocator.overlaps_free(addr, handed)
    }

    /// The block at `addr`, allocated for `size` bytes aligned to `align`,
    /// can be freed: it fits in the address space (and, for a request larger
    /// than every block size, starts where a free-list node can), and shares
    /// no byte with free memory.
    pub open spec fn freeable(&self, addr: usize, size: usize, align: usize) -> bool {
        &&& match class_index(size, align) {
            Some(index) => addr + class_size(index) <= usize::MAX,
            None => addr % NODE_SIZE == 0 && addr + adjusted_size(size, align) <= usize::MAX,
        }
        &&& self.apart_from_free(addr as int, handed_size(size, align))
    }

    /// The bytes held by the free blocks of the lists and of the allocator
    /// behind them, counted without overflow.
    pub fn free_bytes(&self) -> (r: u128)
        requires
            self.wf(),
        ensures
            r == self.free_total(),
    {
        let mut fixed_free: u128 = 0;
        let mut index: usize = 0;
        while index < NUM_BLOCK_SIZES
            invariant
                0 <= index <= NUM_BLOCK_SIZES,
                self.wf(),
                fixed_free == class_free_below(self.lists(), index as int),
                fixed_free <= index * 2048 * (usize::MAX as int),
            decreases NUM_BLOCK_SIZES - index,
        {
            let count = self.list_heads[index].len();
            let size = class_block_size(index);
            proof {
                lemma_class_sizes();
                assert(self.lists()[index as int].len() == count);
                assert(size <= 2048) by {
                    if index < 8 {
                        lemma_pow2_strictly_increases(index as nat, 8);
                    }
                }
                assert(count as int * size as int <= 2048 * (usize::MAX as int)) by (nonlinear_arith)
                    requires
                        count <= usize::MAX,
                        size <= 2048;
            }
            fixed_free = fixed_free + count as u128 * size as u128;
            index = index + 1;
        }
        proof {
            self.fallback().lemma_wf_regions();
        }
        fixed_free + self.fallback_allocator.free_bytes() as u128
    }

    /// The number of bytes of the heap held neither by a free block of the
    /// lists nor by the allocator behind them.
    pub fn bytes_allocated(&self) -> (r: usize)
        requires
            self.wf(),
            self.free_total() <= HEAP_SIZE,
        ensures
            r == HEAP_SIZE - self.free_total(),
    {
        proof {
            self.fallback().lemma_wf_regions();
        }
        let mut fixed_free: usize = 0;
        let mut index: usize = 0;
        while index < NUM_BLOCK_SIZES
            invariant
                0 <= index <= NUM_BLOCK_SIZES,
                self.wf(),
                self.free_total() <= HEAP_SIZE,
                total_size(self.fallback()@) >= 0,
                fixed_free == class_free_below(self.lists(), index as int),
            decreases NUM_BLOCK_SIZES - index,
        {
            proof {
                lemma_class_free_monotone(self.lists(), index + 1, NUM_BLOCK_SIZES as int);
                lemma_class_free_monotone(self.lists(), index as int, index as int);
            }
            let count = self.list_heads[index].len();
            let size = class_block_size(index);
            proof {
                assert(self.lists()[index as int].len() == count);
                assert(count * size <= HEAP_SIZE) by (nonlinear_arith)
                    requires
                        count * size + fixed_free <= HEAP_SIZE,
                        fixed_free >= 0;
            }
            fixed_free = fixed_free + count * size;
            index = index + 1;
        }
        let fallback_free = self.fallback_allocator.free_bytes();
        HEAP_SIZE - (fixed_free + fallback_free)
    }
}

impl Default for FixedSizeBlockAllocator {
    fn default() -> (a: Self)
        ensures
            a.wf(),
            forall|i: int| 0 <= i < NUM_BLOCK_SIZES ==> (#[trigger] a.lists()[i]).len() == 0,
            !a.fallback().is_initialized(),
    {
        Self::new()
    }
}

/// A block freed to the list of its size is the next block that list hands
/// out, and handing it out leaves the lists as they were before it was freed.
pub proof fn lemma_freed_block_reused_first(lists: Seq<Seq<usize>>, index: int, addr: usize)
    requires
        0 <= index < lists.len(),
    ensures
        ({
            let freed = lists.update(index, lists[index].push(addr));
            &&& freed[index].len() > 0
            &&& freed[index].last() == addr
            &&& freed.update(index, freed[index].drop_last()) == lists
        }),
{
    let freed = lists.update(index, lists[index].push(addr));
    assert(freed[index].drop_last() =~= lists[index]);
    assert(freed.update(index, freed[index].drop_last()) =~= lists);
}

} // verus!
