//! A binary buddy allocator: the heap is split into power-of-two blocks that
//! are halved on allocation and merged with their buddy on deallocation.
use vstd::prelude::*;
use vstd::arithmetic::power2::{
    pow2, is_pow2_equiv, lemma_pow2, lemma_pow2_pos, lemma_pow2_adds,
    lemma_pow2_strictly_increases, lemma2_to64,
};
use vstd::arithmetic::mul::lemma_mul_equality_converse;
use vstd::bits::lemma_usize_shl_is_mul;
use crate::{HEAP_SIZE, PAGE_SIZE};
use crate::regions::LINK_SIZE;
use crate::align::{is_power_of_two, lemma_mask_is_mod};

verus! {


/// Two to the power of twenty: the heap size.
proof fn lemma_heap_size_pow2()
    ensures
        pow2(20) == HEAP_SIZE,
{
    lemma2_to64();
}

/// `2^e` as a machine word is a power of two.
pub proof fn lemma_pow2_is_power_of_two(e: nat)
    requires
        pow2(e) <= usize::MAX,
    ensures
        is_power_of_two(pow2(e) as usize),
{
    lemma_pow2(e);
    is_pow2_equiv(pow2(e) as int);
    assert(vstd::arithmetic::power::pow(2, e) == pow2(e) as int);
}

/// The arithmetic of buddies on offsets below the heap size, for blocks of
/// `2^e` bytes: a block's buddy is the adjacent block of the same size in the
/// enclosing block of twice the size.
proof fn lemma_buddy_bits(off: usize, e: usize)
    by (bit_vector)
    requires
        e < 20,
        off < 0x100000,
        off & (((1usize << e) - 1) as usize) == 0,
    ensures
        (off ^ (1usize << e)) ^ (1usize << e) == off,
        (off ^ (1usize << e)) & (((1usize << e) - 1) as usize) == 0,
        off & (1usize << e) == 0 ==> (off ^ (1usize << e)) == off + (1usize << e),
        off & (1usize << e) == 0 ==> off & (((2usize << e) - 1) as usize) == 0,
        off & (1usize << e) == 0 ==> off + (1usize << e) < 0x100000,
        off & (1usize << e) == 0 && off + (1usize << e) <= 0x100000 ==> off + (2usize << e) <= 0x100000,
        off & (1usize << e) != 0 ==> off & (((2usize << e) - 1) as usize) != 0,
        off & (1usize << e) != 0 ==> (off ^ (1usize << e)) == off - (1usize << e),
        off & (1usize << e) != 0 ==> ((off - (1usize << e)) as usize) & (((2usize << e) - 1) as usize) == 0,
{
}

/// A buddy allocator whose smallest blocks hold `MIN_BLOCK_SIZE` bytes and
/// whose blocks come in `ORDERS` sizes: `MIN_BLOCK_SIZE << order` for
/// `order < ORDERS`.
///
/// `free_lists[order]` holds the addresses of the free blocks of that order;
/// its last element is the head of the list.
pub struct BuddyAllocator<const MIN_BLOCK_SIZE: usize, const ORDERS: usize> {
    free_lists: Vec<Vec<usize>>,
    heap_start: usize,
    initialized: bool,
}

impl<const MIN_BLOCK_SIZE: usize, const ORDERS: usize> BuddyAllocator<MIN_BLOCK_SIZE, ORDERS> {
    /// The configuration tiles the heap: `MIN_BLOCK_SIZE << ORDERS` is the
    /// heap size, there is at least one order, and the smallest block can
    /// hold a free-list link.
    pub open spec fn valid_config() -> bool {
        &&& 1 <= ORDERS
        &&& MIN_BLOCK_SIZE >= LINK_SIZE
        &&& MIN_BLOCK_SIZE * pow2(ORDERS as nat) == HEAP_SIZE
    }

    /// The size in bytes of a block of the given order.
    pub open spec fn block_size(order: int) -> int {
        MIN_BLOCK_SIZE * pow2(order as nat)
    }

    /// In a valid configuration the smallest block is `2^(20 - ORDERS)` bytes.
    pub proof fn lemma_config()
        requires
            Self::valid_config(),
        ensures
            ORDERS <= 17,
            MIN_BLOCK_SIZE == pow2((20 - ORDERS) as nat),
    {
        lemma_heap_size_pow2();
        lemma2_to64();
        if ORDERS >= 18 {
            if ORDERS > 18 {
                lemma_pow2_strictly_increases(18, ORDERS as nat);
            }
            assert(MIN_BLOCK_SIZE * pow2(ORDERS as nat) >= 2097152) by (nonlinear_arith)
                requires
                    MIN_BLOCK_SIZE >= 8,
                    pow2(ORDERS as nat) >= 262144,
            ;
        }
        lemma_pow2_adds((20 - ORDERS) as nat, ORDERS as nat);
        lemma_pow2_pos(ORDERS as nat);
        assert(pow2(ORDERS as nat) * MIN_BLOCK_SIZE == pow2(ORDERS as nat) * pow2((20 - ORDERS) as nat))
            by (nonlinear_arith)
            requires
                MIN_BLOCK_SIZE * pow2(ORDERS as nat) == pow2((20 - ORDERS) as nat) * pow2(ORDERS as nat),
        ;
        lemma_mul_equality_converse(pow2(ORDERS as nat) as int, MIN_BLOCK_SIZE as int, pow2((20 - ORDERS) as nat) as int);
    }

    /// Block sizes are powers of two between the smallest block and the heap,
    /// each twice the one below.
    pub proof fn lemma_block_size(order: int)
        requires
            Self::valid_config(),
            0 <= order <= ORDERS,
        ensures
            Self::block_size(order) == pow2((20 - ORDERS + order) as nat),
            MIN_BLOCK_SIZE <= Self::block_size(order) <= HEAP_SIZE,
            order == ORDERS ==> Self::block_size(order) == HEAP_SIZE,
            order < ORDERS ==> Self::block_size(order + 1) == 2 * Self::block_size(order),
            is_power_of_two(Self::block_size(order) as usize),
            Self::block_size(order) % (LINK_SIZE as int) == 0,
            20 - ORDERS + order < 21,
    {
        Self::lemma_config();
        lemma_heap_size_pow2();
        lemma_pow2_adds((20 - ORDERS) as nat, order as nat);
        if order < ORDERS {
            lemma_pow2_strictly_increases((20 - ORDERS + order) as nat, 20);
            lemma_pow2_adds((20 - ORDERS) as nat, (order + 1) as nat);
            vstd::arithmetic::power2::lemma_pow2_unfold((20 - ORDERS + order + 1) as nat);
        }
        if order > 0 {
            lemma_pow2_strictly_increases((20 - ORDERS) as nat, (20 - ORDERS + order) as nat);
        }
        lemma_pow2_is_power_of_two((20 - ORDERS + order) as nat);
        crate::align::lemma_link_size_is_power_of_two();
        crate::align::lemma_power_of_two_divides(Self::block_size(order) as usize, 8);
    }

    /// Larger orders have larger blocks.
    pub proof fn lemma_block_size_increases(o1: int, o2: int)
        requires
            Self::valid_config(),
            0 <= o1 < o2 <= ORDERS,
        ensures
            Self::block_size(o1) < Self::block_size(o2),
    {
        Self::lemma_config();
        Self::lemma_block_size(o1);
        Self::lemma_block_size(o2);
        lemma_pow2_strictly_increases((20 - ORDERS + o1) as nat, (20 - ORDERS + o2) as nat);
    }

    /// The size of a block of the given order.
    fn order_size(order: usize) -> (r: usize)
        requires
            Self::valid_config(),
            order <= ORDERS,
        ensures
            r == Self::block_size(order as int),
    {
        proof {
            Self::lemma_config();
            Self::lemma_block_size(order as int);
            lemma_usize_shl_is_mul(MIN_BLOCK_SIZE, order);
        }
        MIN_BLOCK_SIZE << order
    }

    /// The block size a request needs: its size, its alignment and the
    /// smallest block size, whichever is largest.
    pub open spec fn required_size(size: usize, align: usize) -> int {
        let m = if size >= align { size } else { align };
        if m >= MIN_BLOCK_SIZE { m as int } else { MIN_BLOCK_SIZE as int }
    }

    /// `order` is the smallest order whose blocks hold `req` bytes.
    pub open spec fn fits_order(req: int, order: int) -> bool {
        &&& 0 <= order < ORDERS
        &&& Self::block_size(order) >= req
        &&& (order == 0 || Self::block_size(order - 1) < req)
    }

    /// The order that serves a request, if the largest block is large enough.
    pub open spec fn request_order(size: usize, align: usize) -> Option<int> {
        let req = Self::required_size(size, align);
        if req > Self::block_size(ORDERS - 1) {
            None
        } else {
            Some(choose|order: int| Self::fits_order(req, order))
        }
    }

    /// Some order at or below `order`, whose blocks hold `req` bytes, is the
    /// smallest that does.
    proof fn lemma_fits_order_exists(req: int, order: int)
        requires
            Self::valid_config(),
            0 <= order < ORDERS,
            Self::block_size(order) >= req,
        ensures
            exists|o: int| Self::fits_order(req, o),
        decreases order,
    {
        if order == 0 || Self::block_size(order - 1) < req {
            assert(Self::fits_order(req, order));
        } else {
            Self::lemma_fits_order_exists(req, order - 1);
        }
    }

    /// The order that serves a request is the smallest whose blocks hold the
    /// request's block size; there is one exactly when the largest block
    /// below the whole heap holds it.
    pub proof fn lemma_request_order(size: usize, align: usize)
        requires
            Self::valid_config(),
        ensures
            Self::request_order(size, align) is None <==> Self::required_size(size, align) > Self::block_size(
                ORDERS - 1,
            ),
            Self::request_order(size, align) matches Some(order) ==> 0 <= order < ORDERS && Self::fits_order(
                Self::required_size(size, align),
                order,
            ),
    {
        let req = Self::required_size(size, align);
        if req <= Self::block_size(ORDERS - 1) {
            Self::lemma_fits_order_exists(req, ORDERS - 1);
        }
    }

    /// At most one order is the smallest that fits.
    pub proof fn lemma_fits_order_unique(req: int, o1: int, o2: int)
        requires
            Self::valid_config(),
            Self::fits_order(req, o1),
            Self::fits_order(req, o2),
        ensures
            o1 == o2,
    {
        if o1 < o2 {
            if o1 < o2 - 1 {
                Self::lemma_block_size_increases(o1, o2 - 1);
            }
        } else if o2 < o1 {
            if o2 < o1 - 1 {
                Self::lemma_block_size_increases(o2, o1 - 1);
            }
        }
    }

    /// The order a block of exactly the size of `order` is served from.
    pub proof fn lemma_request_order_of_block(order: int)
        requires
            Self::valid_config(),
            0 <= order < ORDERS,
        ensures
            Self::request_order(
                Self::block_size(order) as usize,
                Self::block_size(order) as usize,
            ) == Some(order),
    {
        let bs = Self::block_size(order);
        Self::lemma_block_size(order);
        Self::lemma_block_size(ORDERS - 1);
        if order < ORDERS - 1 {
            Self::lemma_block_size_increases(order, ORDERS - 1);
        }
        if order > 0 {
            Self::lemma_block_size_increases(order - 1, order);
        }
        assert(Self::required_size(bs as usize, bs as usize) == bs);
        assert(Self::fits_order(bs, order));
        let o = choose|o: int| Self::fits_order(bs, o);
        Self::lemma_fits_order_unique(bs, o, order);
    }

    /// Chooses the order for a request of `size` bytes aligned to `align`.
    ///
    /// Returns an index into the free lists.
    fn orders_index(&self, size: usize, align: usize) -> (r: Option<usize>)
        requires
            Self::valid_config(),
        ensures
            match r {
                None => Self::request_order(size, align) is None,
                Some(order) => Self::request_order(size, align) == Some(order as int)
                    && Self::fits_order(Self::required_size(size, align), order as int),
            },
    {
        let m = if size >= align { size } else { align };
        let required_block_size = if m >= MIN_BLOCK_SIZE { m } else { MIN_BLOCK_SIZE };
        if required_block_size > Self::order_size(ORDERS - 1) {
            return None;
        }
        let mut order: usize = 0;
        while Self::order_size(order) < required_block_size
            invariant
                Self::valid_config(),
                required_block_size == Self::required_size(size, align),
                required_block_size <= Self::block_size(ORDERS - 1),
                0 <= order < ORDERS,
                order > 0 ==> Self::block_size(order - 1) < required_block_size,
            decreases ORDERS - order,
        {
            proof {
                if order == ORDERS - 1 {
                    assert(false);
                }
            }
            order = order + 1;
        }
        proof {
            let req = required_block_size as int;
            assert(Self::fits_order(req, order as int));
            let o = choose|o: int| Self::fits_order(req, o);
            Self::lemma_fits_order_unique(req, o, order as int);
        }
        Some(order)
    }
}

impl<const MIN_BLOCK_SIZE: usize, const ORDERS: usize> BuddyAllocator<MIN_BLOCK_SIZE, ORDERS> {
    /// The free lists, one per order; the last address of a list is its head.
    pub closed spec fn lists(&self) -> Seq<Seq<usize>> {
        self.free_lists@.map_values(|l: Vec<usize>| l@)
    }

    /// The start of the heap (0 until the heap is handed over).
    pub closed spec fn heap_base(&self) -> int {
        self.heap_start as int
    }

    /// The allocator has been given its heap.
    pub closed spec fn is_initialized(&self) -> bool {
        self.initialized
    }

    /// `a` is the start of a block of the given order of the heap at `hs`:
    /// it lies in the heap at a multiple of the block size.
    pub open spec fn block_ok(hs: int, order: int, a: int) -> bool {
        &&& hs <= a
        &&& (a - hs) % Self::block_size(order) == 0
        &&& a - hs + Self::block_size(order) <= HEAP_SIZE
    }

    /// The buddy of the block of the given order at `a`: the other half of
    /// the block of twice the size that contains it.
    pub open spec fn buddy_of(hs: int, order: int, a: int) -> int {
        hs + (((a - hs) as usize) ^ (Self::block_size(order) as usize))
    }

    /// `x` lies in the block of the given order at `a`.
    pub open spec fn in_block(order: int, a: int, x: int) -> bool {
        a <= x < a + Self::block_size(order)
    }

    /// The blocks share no byte.
    pub open spec fn blocks_disjoint(o1: int, a1: int, o2: int, a2: int) -> bool {
        a1 + Self::block_size(o1) <= a2 || a2 + Self::block_size(o2) <= a1
    }

    /// The free lists of a heap at `hs` that fits in the address space: one
    /// list per order, every entry the
    /// start of a block of its order, no two free blocks sharing a byte, and
    /// no free block below the top order whose buddy is free as well.
    pub open spec fn lists_wf(lists: Seq<Seq<usize>>, hs: int) -> bool {
        &&& 0 <= hs
        &&& hs + HEAP_SIZE <= usize::MAX
        &&& lists.len() == ORDERS
        &&& forall|o: int, i: int|
            0 <= o < ORDERS && 0 <= i < lists[o].len() ==> Self::block_ok(hs, o, #[trigger] lists[o][i] as int)
        &&& forall|o1: int, i1: int, o2: int, i2: int|
            0 <= o1 < ORDERS && 0 <= i1 < lists[o1].len() && 0 <= o2 < ORDERS && 0 <= i2 < lists[o2].len()
                && (o1 != o2 || i1 != i2) ==> Self::blocks_disjoint(
                o1,
                #[trigger] lists[o1][i1] as int,
                o2,
                #[trigger] lists[o2][i2] as int,
            )
        &&& forall|o: int, i: int|
            0 <= o < ORDERS - 1 && 0 <= i < lists[o].len() ==> !lists[o].contains(
                Self::buddy_of(hs, o, #[trigger] lists[o][i] as int) as usize,
            )
    }

    /// The block `[a, a + size)` shares no byte with any free block.
    pub open spec fn disjoint_from_free(lists: Seq<Seq<usize>>, a: int, size: int) -> bool {
        forall|o: int, i: int|
            0 <= o < ORDERS && 0 <= i < lists[o].len() ==> #[trigger] lists[o][i] + Self::block_size(o) <= a
                || a + size <= lists[o][i]
    }

    /// `x` is a byte of a free block.
    pub open spec fn covers_free(lists: Seq<Seq<usize>>, x: int) -> bool {
        exists|o: int, i: int|
            0 <= o < ORDERS && 0 <= i < lists[o].len() && Self::in_block(o, #[trigger] lists[o][i] as int, x)
    }

    /// The allocator is consistent: a valid configuration, one free list per
    /// order in the shape `lists_wf` describes, no free block before the heap
    /// is handed over, and a heap start that can hold a free-list link.
    pub closed spec fn wf(&self) -> bool {
        &&& Self::valid_config()
        &&& Self::lists_wf(self.lists(), self.heap_start as int)
        &&& !self.initialized ==> forall|o: int| 0 <= o < ORDERS ==> (#[trigger] self.lists()[o]).len() == 0
        &&& self.initialized ==> self.heap_start % LINK_SIZE == 0 && self.heap_start != 0
            && self.heap_start % PAGE_SIZE == 0
    }

    /// The buddy of a block is a block of the same order next to it, whose
    /// buddy is the first block; the lower of the two starts a block of the
    /// next order.
    pub proof fn lemma_buddy(hs: int, order: int, a: int)
        requires
            Self::valid_config(),
            0 <= order < ORDERS - 1,
            Self::block_ok(hs, order, a),
        ensures
            Self::block_ok(hs, order, Self::buddy_of(hs, order, a)),
            Self::buddy_of(hs, order, Self::buddy_of(hs, order, a)) == a,
            (a - hs) % Self::block_size(order + 1) == 0 ==> Self::buddy_of(hs, order, a) == a
                + Self::block_size(order),
            (a - hs) % Self::block_size(order + 1) != 0 ==> Self::buddy_of(hs, order, a) == a
                - Self::block_size(order),
            Self::block_ok(
                hs,
                order + 1,
                if a <= Self::buddy_of(hs, order, a) { a } else { Self::buddy_of(hs, order, a) },
            ),
    {
        Self::lemma_config();
        Self::lemma_block_size(order);
        Self::lemma_block_size(order + 1);
        let e = (20 - ORDERS + order) as usize;
        let bs = Self::block_size(order) as usize;
        let bs2 = Self::block_size(order + 1) as usize;
        let off = (a - hs) as usize;
        lemma_usize_shl_is_mul(1, e);
        lemma_usize_shl_is_mul(2, e);
        assert((1usize << e) == bs);
        assert((2usize << e) == bs2);
        lemma_mask_is_mod(off, bs);
        lemma_buddy_bits(off, e);
        let b = off ^ bs;
        lemma_mask_is_mod(b, bs);
        lemma_mask_is_mod(off, bs2);
        if off & bs != 0 {
            lemma_mask_is_mod((off - bs) as usize, bs2);
        }
    }

    /// Removing a free block keeps the free lists well formed, and frees no
    /// byte outside that block.
    #[verifier::spinoff_prover]
    pub proof fn lemma_remove_block(lists: Seq<Seq<usize>>, hs: int, o: int, i: int)
        requires
            Self::lists_wf(lists, hs),
            0 <= o < ORDERS,
            0 <= i < lists[o].len(),
        ensures
            Self::lists_wf(lists.update(o, lists[o].remove(i)), hs),
            Self::disjoint_from_free(lists.update(o, lists[o].remove(i)), lists[o][i] as int, Self::block_size(o)),
            forall|x: int|
                #![trigger Self::covers_free(lists.update(o, lists[o].remove(i)), x)]
                Self::covers_free(lists.update(o, lists[o].remove(i)), x) <==> (Self::covers_free(lists, x)
                    && !Self::in_block(o, lists[o][i] as int, x)),
    {
        let t = lists.update(o, lists[o].remove(i));
        // where each entry of `t` comes from
        let src = |p: int, j: int| if p == o && j >= i { j + 1 } else { j };
        assert forall|p: int, j: int| 0 <= p < ORDERS && 0 <= j < t[p].len() implies #[trigger] t[p][j]
            == lists[p][src(p, j)] && 0 <= src(p, j) < lists[p].len() by {}
        assert forall|p: int, j: int|
            0 <= p < ORDERS && 0 <= j < t[p].len() implies Self::block_ok(hs, p, #[trigger] t[p][j] as int) by {
            assert(t[p][j] == lists[p][src(p, j)]);
        }
        assert forall|p: int, j: int|
            0 <= p < ORDERS && 0 <= j < t[p].len() implies #[trigger] t[p][j] + Self::block_size(p)
                <= lists[o][i] || lists[o][i] + Self::block_size(o) <= t[p][j] by {
            assert(t[p][j] == lists[p][src(p, j)]);
            assert(Self::blocks_disjoint(p, lists[p][src(p, j)] as int, o, lists[o][i] as int));
        }
        assert forall|o1: int, i1: int, o2: int, i2: int|
            0 <= o1 < ORDERS && 0 <= i1 < t[o1].len() && 0 <= o2 < ORDERS && 0 <= i2 < t[o2].len() && (o1
                != o2 || i1 != i2) implies Self::blocks_disjoint(
            o1,
            #[trigger] t[o1][i1] as int,
            o2,
            #[trigger] t[o2][i2] as int,
        ) by {
            assert(t[o1][i1] == lists[o1][src(o1, i1)]);
            assert(t[o2][i2] == lists[o2][src(o2, i2)]);
        }
        assert forall|p: int, j: int|
            0 <= p < ORDERS - 1 && 0 <= j < t[p].len() implies !t[p].contains(
            Self::buddy_of(hs, p, #[trigger] t[p][j] as int) as usize,
        ) by {
            assert(t[p][j] == lists[p][src(p, j)]);
            let b = Self::buddy_of(hs, p, t[p][j] as int) as usize;
            if t[p].contains(b) {
                let k = choose|k: int| 0 <= k < t[p].len() && t[p][k] == b;
                assert(t[p][k] == lists[p][src(p, k)]);
            }
        }
        assert forall|x: int|
            Self::covers_free(t, x) <==> (Self::covers_free(lists, x) && !Self::in_block(
                o,
                lists[o][i] as int,
                x,
            )) by {
            if Self::covers_free(t, x) {
                let (p, j) = choose|p: int, j: int|
                    0 <= p < ORDERS && 0 <= j < t[p].len() && Self::in_block(p, #[trigger] t[p][j] as int, x);
                assert(t[p][j] == lists[p][src(p, j)]);
                assert(Self::in_block(p, lists[p][src(p, j)] as int, x));
                if Self::in_block(o, lists[o][i] as int, x) {
                    assert(Self::blocks_disjoint(p, lists[p][src(p, j)] as int, o, lists[o][i] as int));
                }
            }
            if Self::covers_free(lists, x) && !Self::in_block(o, lists[o][i] as int, x) {
                let (p, j) = choose|p: int, j: int|
                    0 <= p < ORDERS && 0 <= j < lists[p].len() && Self::in_block(
                        p,
                        #[trigger] lists[p][j] as int,
                        x,
                    );
                let tj = if p == o && j > i { j - 1 } else { j };
                assert(t[p][tj] == lists[p][j]);
                assert(Self::in_block(p, t[p][tj] as int, x));
            }
        }
    }

    /// Adding a free block that shares no byte with the free blocks, and
    /// whose buddy is not free, keeps the free lists well formed; it frees
    /// exactly the bytes of that block.
    #[verifier::spinoff_prover]
    pub proof fn lemma_push_block(lists: Seq<Seq<usize>>, hs: int, o: int, a: usize)
        requires
            Self::valid_config(),
            Self::lists_wf(lists, hs),
            0 <= o < ORDERS,
            Self::block_ok(hs, o, a as int),
            Self::disjoint_from_free(lists, a as int, Self::block_size(o)),
            o < ORDERS - 1 ==> !lists[o].contains(Self::buddy_of(hs, o, a as int) as usize),
        ensures
            Self::lists_wf(lists.update(o, lists[o].push(a)), hs),
            forall|x: int|
                #![trigger Self::covers_free(lists.update(o, lists[o].push(a)), x)]
                Self::covers_free(lists.update(o, lists[o].push(a)), x) <==> (Self::covers_free(lists, x)
                    || Self::in_block(o, a as int, x)),
    {
        let t = lists.update(o, lists[o].push(a));
        let n = lists[o].len() as int;
        assert forall|p: int, j: int|
            0 <= p < ORDERS && 0 <= j < t[p].len() implies Self::block_ok(hs, p, #[trigger] t[p][j] as int) by {
            if !(p == o && j == n) {
                assert(t[p][j] == lists[p][j]);
            }
        }
        assert forall|o1: int, i1: int, o2: int, i2: int|
            0 <= o1 < ORDERS && 0 <= i1 < t[o1].len() && 0 <= o2 < ORDERS && 0 <= i2 < t[o2].len() && (o1
                != o2 || i1 != i2) implies Self::blocks_disjoint(
            o1,
            #[trigger] t[o1][i1] as int,
            o2,
            #[trigger] t[o2][i2] as int,
        ) by {
            if o1 == o && i1 == n {
                assert(t[o2][i2] == lists[o2][i2]);
            } else if o2 == o && i2 == n {
                assert(t[o1][i1] == lists[o1][i1]);
            } else {
                assert(t[o1][i1] == lists[o1][i1]);
                assert(t[o2][i2] == lists[o2][i2]);
            }
        }
        assert forall|p: int, j: int|
            0 <= p < ORDERS - 1 && 0 <= j < t[p].len() implies !t[p].contains(
            Self::buddy_of(hs, p, #[trigger] t[p][j] as int) as usize,
        ) by {
            let c = t[p][j];
            let b = Self::buddy_of(hs, p, c as int) as usize;
            if p == o && j == n {
                if t[p].contains(b) {
                    let k = choose|k: int| 0 <= k < t[p].len() && t[p][k] == b;
                    if k < n {
                        assert(lists[p].contains(b));
                    } else {
                        Self::lemma_block_size(o);
                        Self::lemma_buddy(hs, o, a as int);
                    }
                }
            } else {
                assert(c == lists[p][j]);
                if t[p].contains(b) {
                    let k = choose|k: int| 0 <= k < t[p].len() && t[p][k] == b;
                    if p == o && k == n {
                        // `a` would be the buddy of `c`, so `c` is the buddy of `a`
                        Self::lemma_buddy(hs, o, c as int);
                        assert(lists[o].contains(c));
                    } else {
                        assert(lists[p][k] == b);
                    }
                }
            }
        }
        assert forall|x: int|
            Self::covers_free(t, x) <==> (Self::covers_free(lists, x) || Self::in_block(o, a as int, x)) by {
            if Self::covers_free(t, x) {
                let (p, j) = choose|p: int, j: int|
                    0 <= p < ORDERS && 0 <= j < t[p].len() && Self::in_block(p, #[trigger] t[p][j] as int, x);
                if !(p == o && j == n) {
                    assert(t[p][j] == lists[p][j]);
                }
            }
            if Self::covers_free(lists, x) {
                let (p, j) = choose|p: int, j: int|
                    0 <= p < ORDERS && 0 <= j < lists[p].len() && Self::in_block(
                        p,
                        #[trigger] lists[p][j] as int,
                        x,
                    );
                assert(t[p][j] == lists[p][j]);
            }
            if Self::in_block(o, a as int, x) {
                assert(t[o][n] == a);
            }
        }
    }

    /// The first order from `order` up whose free list is not empty, or
    /// `ORDERS` when there is none.
    pub open spec fn first_nonempty(lists: Seq<Seq<usize>>, order: int) -> int
        decreases ORDERS - order,
    {
        if order >= ORDERS {
            ORDERS as int
        } else if lists[order].len() > 0 {
            order
        } else {
            Self::first_nonempty(lists, order + 1)
        }
    }

    /// `first_nonempty` finds a non-empty list above empty ones.
    pub proof fn lemma_first_nonempty(lists: Seq<Seq<usize>>, order: int)
        requires
            0 <= order <= ORDERS,
        ensures
            order <= Self::first_nonempty(lists, order) <= ORDERS,
            Self::first_nonempty(lists, order) < ORDERS ==> lists[Self::first_nonempty(lists, order)].len() > 0,
            forall|j: int| order <= j < Self::first_nonempty(lists, order) ==> (#[trigger] lists[j]).len() == 0,
        decreases ORDERS - order,
    {
        if order < ORDERS && lists[order].len() == 0 {
            Self::lemma_first_nonempty(lists, order + 1);
        }
    }

    /// The free lists after the block `a` at the head of list `k` is split
    /// down to `order`: it leaves list `k`, and the upper half of each split
    /// joins the list of its order.
    pub open spec fn after_split(lists: Seq<Seq<usize>>, order: int, k: int, a: usize) -> Seq<Seq<usize>> {
        Seq::new(
            lists.len(),
            |j: int|
                if j == k {
                    lists[k].drop_last()
                } else if order <= j < k {
                    lists[j].push((a + Self::block_size(j)) as usize)
                } else {
                    lists[j]
                },
        )
    }

    /// Creates an allocator that owns no memory yet.
    pub fn new() -> (a: Self)
        ensures
            Self::valid_config() ==> a.wf(),
            !a.is_initialized(),
            a.heap_base() == 0,
            a.lists().len() == ORDERS,
            forall|o: int| 0 <= o < ORDERS ==> (#[trigger] a.lists()[o]).len() == 0,
    {
        let mut free_lists: Vec<Vec<usize>> = Vec::new();
        let mut i: usize = 0;
        while i < ORDERS
            invariant
                0 <= i <= ORDERS,
                free_lists@.len() == i,
                forall|o: int| 0 <= o < i ==> (#[trigger] free_lists@[o])@.len() == 0,
            decreases ORDERS - i,
        {
            free_lists.push(Vec::new());
            i = i + 1;
        }
        let a = BuddyAllocator { free_lists, heap_start: 0, initialized: false };
        proof {
            assert forall|o: int| 0 <= o < ORDERS implies (#[trigger] a.lists()[o]).len() == 0 by {
                assert(a.lists()[o] == a.free_lists@[o]@);
            }
        }
        a
    }

    /// Puts the block at `addr` at the head of the free list of `order`.
    fn add_free_block(&mut self, addr: usize, order: usize)
        requires
            order < ORDERS,
            old(self).free_lists@.len() == ORDERS,
            addr % LINK_SIZE == 0,
            Self::block_size(order as int) >= LINK_SIZE,
        ensures
            final(self).lists() == old(self).lists().update(
                order as int,
                old(self).lists()[order as int].push(addr),
            ),
            final(self).heap_start == old(self).heap_start,
            final(self).initialized == old(self).initialized,
    {
        self.free_lists[order].push(addr);
        proof {
            assert(self.lists() =~= old(self).lists().update(
                order as int,
                old(self).lists()[order as int].push(addr),
            ));
        }
    }

    /// Takes a free block of `order`, splitting a larger free block when the
    /// list of `order` is empty: the block at the head of the first non-empty
    /// list above is halved down to `order`, each upper half going to the
    /// free list of its order.
    #[verifier::spinoff_prover]
    fn split_block(&mut self, order: usize) -> (r: Option<usize>)
        requires
            old(self).wf(),
            order <= ORDERS,
        ensures
            final(self).wf(),
            final(self).heap_base() == old(self).heap_base(),
            final(self).is_initialized() == old(self).is_initialized(),
            ({
                let k = Self::first_nonempty(old(self).lists(), order as int);
                match r {
                    None => k == ORDERS && final(self).lists() == old(self).lists(),
                    Some(a) => {
                        &&& order <= k < ORDERS
                        &&& a == old(self).lists()[k].last()
                        &&& final(self).lists() == Self::after_split(old(self).lists(), order as int, k, a)
                        &&& Self::block_ok(old(self).heap_base(), order as int, a as int)
                        &&& Self::disjoint_from_free(final(self).lists(), a as int, Self::block_size(order as int))
                        &&& forall|x: int|
                            #![trigger Self::covers_free(final(self).lists(), x)]
                            Self::covers_free(final(self).lists(), x) <==> (Self::covers_free(old(self).lists(), x)
                                && !Self::in_block(order as int, a as int, x))
                        &&& forall|x: int|
                            #![trigger Self::in_block(order as int, a as int, x)]
                            Self::in_block(order as int, a as int, x) ==> Self::covers_free(old(self).lists(), x)
                    },
                }
            }),
        decreases ORDERS - order,
    {
        let ghost hs = self.heap_start as int;
        let ghost l0 = self.lists();
        proof {
            Self::lemma_first_nonempty(l0, order as int);
        }
        if order >= ORDERS {
            return None;
        }
        let popped = self.free_lists[order].pop();
        match popped {
            Some(block) => {
                let ghost n = l0[order as int].len() - 1;
                proof {
                    assert(self.lists() =~= l0.update(order as int, l0[order as int].remove(n)));
                    Self::lemma_remove_block(l0, hs, order as int, n);
                    assert(Self::after_split(l0, order as int, order as int, block) =~= self.lists());
                    assert forall|x: int| Self::in_block(order as int, block as int, x) implies Self::covers_free(l0, x) by {
                        assert(l0[order as int][n] == block);
                    }
                }
                Some(block)
            },
            None => {
                proof {
                    assert(self.lists() =~= l0);
                }
                // no block at this order: split one from above
                let addr = match self.split_block(order + 1) {
                    Some(a) => a,
                    None => return None,
                };
                let ghost l1 = self.lists();
                let ghost k = Self::first_nonempty(l0, order as int);
                let bs = Self::order_size(order);
                proof {
                    Self::lemma_config();
                    Self::lemma_block_size(order as int);
                    Self::lemma_block_size(order + 1);
                    assert(self.initialized);
                    crate::align::lemma_power_of_two_divides(
                        Self::block_size(order + 1) as usize,
                        Self::block_size(order as int) as usize,
                    );
                    crate::align::lemma_multiple_of_multiple(
                        addr - hs,
                        Self::block_size(order + 1),
                        Self::block_size(order as int),
                    );
                    crate::align::lemma_multiple_of_multiple(
                        addr - hs,
                        Self::block_size(order as int),
                        LINK_SIZE as int,
                    );
                    crate::align::lemma_sum_of_multiples(hs, addr - hs, LINK_SIZE as int);
                    crate::align::lemma_sum_of_multiples(addr as int, bs as int, LINK_SIZE as int);
                    crate::align::lemma_sum_of_multiples(addr - hs, bs as int, bs as int);
                    vstd::arithmetic::div_mod::lemma_mod_self_0(bs as int);
                }
                let buddy = addr + bs;
                proof {
                    if order + 1 < ORDERS {
                        Self::lemma_buddy(hs, order as int, addr as int);
                    } else {
                        assert(false);
                    }
                    if l1[order as int].contains(addr) {
                        let j = choose|j: int| 0 <= j < l1[order as int].len() && l1[order as int][j] == addr;
                        assert(l1[order as int][j] + Self::block_size(order as int) <= addr || addr
                            + Self::block_size(order + 1) <= l1[order as int][j]);
                    }
                    Self::lemma_push_block(l1, hs, order as int, buddy);
                }
                self.add_free_block(buddy, order);
                proof {
                    assert(self.lists() =~= Self::after_split(l0, order as int, k, addr));
                    assert forall|x: int|
                        Self::covers_free(self.lists(), x) <==> (Self::covers_free(l0, x) && !Self::in_block(
                            order as int,
                            addr as int,
                            x,
                        )) by {
                        assert(Self::covers_free(self.lists(), x) <==> (Self::covers_free(l1, x)
                            || Self::in_block(order as int, buddy as int, x)));
                        assert(Self::covers_free(l1, x) <==> (Self::covers_free(l0, x) && !Self::in_block(
                            order + 1,
                            addr as int,
                            x,
                        )));
                        if Self::in_block(order as int, buddy as int, x) {
                            assert(Self::in_block(order + 1, addr as int, x));
                        }
                        if Self::covers_free(l0, x) && !Self::in_block(order as int, addr as int, x)
                            && Self::in_block(order + 1, addr as int, x) {
                            assert(Self::in_block(order as int, buddy as int, x));
                        }
                    }
                    assert forall|x: int| Self::in_block(order as int, addr as int, x) implies Self::covers_free(l0, x) by {
                        assert(Self::in_block(order + 1, addr as int, x));
                    }
                }
                Some(addr)
            },
        }
    }

    /// Allocates a block for `size` bytes aligned to `align`: a free block of
    /// the request's order, split from a larger one when needed. Returns
    /// `None` when the request exceeds the largest block or no free block is
    /// large enough.
    pub fn allocate(&mut self, size: usize, align: usize) -> (r: Option<usize>)
        requires
            old(self).wf(),
        ensures
            final(self).wf(),
            final(self).heap_base() == old(self).heap_base(),
            final(self).is_initialized() == old(self).is_initialized(),
            match Self::request_order(size, align) {
                None => r is None && final(self).lists() == old(self).lists(),
                Some(order) => {
                    let k = Self::first_nonempty(old(self).lists(), order);
                    match r {
                        None => k == ORDERS && final(self).lists() == old(self).lists(),
                        Some(a) => {
                            &&& order <= k < ORDERS
                            &&& a == old(self).lists()[k].last()
                            &&& final(self).lists() == Self::after_split(old(self).lists(), order, k, a)
                            &&& Self::block_ok(old(self).heap_base(), order, a as int)
                            &&& a != 0
                            &&& (is_power_of_two(align) && align <= PAGE_SIZE ==> a % align == 0)
                            &&& forall|x: int|
                                Self::covers_free(final(self).lists(), x) <==> (Self::covers_free(
                                    old(self).lists(),
                                    x,
                                ) && !Self::in_block(order, a as int, x))
                            &&& Self::free_bytes(final(self).lists()) == Self::free_bytes(old(self).lists())
                                - Self::block_size(order)
                        },
                    }
                },
            },
    {
        match self.orders_index(size, align) {
            // `split_block` takes a free block of the order when there is one
            Some(order) => {
                let r = self.split_block(order);
                proof {
                    if let Some(a) = r {
                        let k = Self::first_nonempty(old(self).lists(), order as int);
                        Self::lemma_first_nonempty(old(self).lists(), order as int);
                        assert(old(self).lists()[k].len() > 0);
                        assert(old(self).is_initialized());
                        Self::lemma_block_aligned(old(self).heap_base(), order as int, a as int, size, align);
                        Self::lemma_free_bytes_add_block(
                            self.lists(),
                            old(self).lists(),
                            self.heap_start as int,
                            order as int,
                            a as int,
                        );
                    }
                }
                r
            },
            None => None,
        }
    }

    /// A block of the order that serves a request, in a page-aligned heap
    /// that does not start at 0, does not start at 0 either, and is aligned
    /// to the request's alignment when that is a power of two of at most a
    /// page.
    proof fn lemma_block_aligned(hs: int, order: int, a: int, size: usize, align: usize)
        requires
            Self::valid_config(),
            hs > 0,
            hs % (PAGE_SIZE as int) == 0,
            Self::fits_order(Self::required_size(size, align), order),
            Self::block_ok(hs, order, a),
        ensures
            a != 0,
            is_power_of_two(align) && align <= PAGE_SIZE ==> a % (align as int) == 0,
    {
        if is_power_of_two(align) && align <= PAGE_SIZE {
            let bs = Self::block_size(order);
            Self::lemma_block_size(order);
            crate::align::lemma_power_of_two_divides(bs as usize, align);
            crate::align::lemma_mask_is_mod(0, align);
            crate::align::lemma_multiple_of_multiple(a - hs, bs, align as int);
            lemma2_to64();
            lemma_pow2_is_power_of_two(12);
            crate::align::lemma_power_of_two_divides(PAGE_SIZE, align);
            crate::align::lemma_multiple_of_multiple(hs, PAGE_SIZE as int, align as int);
            crate::align::lemma_sum_of_multiples(a - hs, hs, align as int);
        }
    }

    /// When the bytes of free blocks grow by one block that was not free,
    /// the free bytes grow by its size.
    proof fn lemma_free_bytes_add_block(l1: Seq<Seq<usize>>, l2: Seq<Seq<usize>>, hs: int, o: int, a: int)
        requires
            Self::valid_config(),
            Self::lists_wf(l1, hs),
            Self::lists_wf(l2, hs),
            0 <= o < ORDERS,
            forall|x: int| Self::covers_free(l2, x) <==> (Self::covers_free(l1, x) || Self::in_block(o, a, x)),
            forall|x: int| Self::covers_free(l1, x) ==> !Self::in_block(o, a, x),
        ensures
            Self::free_bytes(l2) == Self::free_bytes(l1) + Self::block_size(o),
    {
        Self::lemma_free_set_len(l1, hs);
        Self::lemma_free_set_len(l2, hs);
        Self::lemma_block_size(o);
        let block = vstd::set_lib::set_int_range(a, a + Self::block_size(o));
        vstd::set_lib::lemma_int_range(a, a + Self::block_size(o));
        assert(Self::free_set(l2) =~= Self::free_set(l1) + block);
        assert(Self::free_set(l1).disjoint(block));
        vstd::set_lib::lemma_set_disjoint_lens(Self::free_set(l1), block);
    }

    /// Hands the heap `[heap_start, heap_start + HEAP_SIZE)` to the
    /// allocator: its two halves become free blocks of the top order.
    #[verifier::spinoff_prover]
    pub fn init(&mut self, heap_start: usize)
        requires
            old(self).wf(),
            !old(self).is_initialized(),
            heap_start != 0,
            heap_start % PAGE_SIZE == 0,
            heap_start + HEAP_SIZE <= usize::MAX,
        ensures
            final(self).wf(),
            final(self).is_initialized(),
            final(self).heap_base() == heap_start,
            final(self).lists() == Seq::new(
                ORDERS as nat,
                |o: int|
                    if o == ORDERS - 1 {
                        seq![heap_start, (heap_start + HEAP_SIZE / 2) as usize]
                    } else {
                        Seq::<usize>::empty()
                    },
            ),
    {
        proof {
            crate::align::lemma_multiple_of_multiple(heap_start as int, PAGE_SIZE as int, LINK_SIZE as int);
            Self::lemma_config();
            Self::lemma_block_size(ORDERS - 1);
            Self::lemma_block_size(ORDERS as int);
            vstd::arithmetic::div_mod::lemma_mod_self_0(Self::block_size(ORDERS - 1));
        }
        let ghost l0 = self.lists();
        self.heap_start = heap_start;
        let top = ORDERS - 1;
        proof {
            assert(self.lists() == l0);
            vstd::arithmetic::div_mod::lemma_small_mod(0, Self::block_size(ORDERS - 1) as nat);
            assert(Self::lists_wf(l0, heap_start as int));
            Self::lemma_push_block(l0, heap_start as int, top as int, heap_start);
        }
        self.add_free_block(self.heap_start, top);
        let ghost l1 = self.lists();
        let second = self.heap_start + HEAP_SIZE / 2;
        proof {
            crate::align::lemma_sum_of_multiples(heap_start as int, (HEAP_SIZE / 2) as int, LINK_SIZE as int);
            Self::lemma_push_block(l1, heap_start as int, top as int, second);
        }
        self.add_free_block(second, top);
        self.initialized = true;
        proof {
            assert forall|o: int| 0 <= o < ORDERS implies #[trigger] self.lists()[o] =~= (if o == ORDERS - 1 {
                seq![heap_start, (heap_start + HEAP_SIZE / 2) as usize]
            } else {
                Seq::<usize>::empty()
            }) by {
                assert(l0[o].len() == 0);
            }
            assert(self.lists() =~= Seq::new(
                ORDERS as nat,
                |o: int|
                    if o == ORDERS - 1 {
                        seq![heap_start, (heap_start + HEAP_SIZE / 2) as usize]
                    } else {
                        Seq::<usize>::empty()
                    },
            ));
        }
    }

    /// The free lists after the block of `order` at `a` is freed: while its
    /// buddy is free (below the top order) the buddy leaves its list and the
    /// two merge into the block of the next order; the block reached goes to
    /// the head of the list of its order.
    pub open spec fn merged(lists: Seq<Seq<usize>>, hs: int, a: int, order: int) -> Seq<Seq<usize>>
        decreases ORDERS - order,
    {
        if order >= ORDERS - 1 {
            lists.update(order, lists[order].push(a as usize))
        } else {
            let b = Self::buddy_of(hs, order, a) as usize;
            if lists[order].contains(b) {
                let rest = lists.update(order, lists[order].remove(lists[order].index_of(b)));
                Self::merged(rest, hs, if a <= b { a } else { b as int }, order + 1)
            } else {
                lists.update(order, lists[order].push(a as usize))
            }
        }
    }

    /// No address occurs twice in a free list of well-formed free lists.
    proof fn lemma_no_duplicates(lists: Seq<Seq<usize>>, hs: int, o: int)
        requires
            Self::valid_config(),
            Self::lists_wf(lists, hs),
            0 <= o < ORDERS,
        ensures
            lists[o].no_duplicates(),
    {
        Self::lemma_block_size(o);
        assert forall|i: int, j: int| 0 <= i < lists[o].len() && 0 <= j < lists[o].len() && i != j implies lists[o][i]
            != lists[o][j] by {
            assert(Self::blocks_disjoint(o, lists[o][i] as int, o, lists[o][j] as int));
        }
    }

    /// Removes `buddy` from the free list `list`, searching from its head.
    ///
    /// Returns whether it was there.
    fn remove_buddy(list: &mut Vec<usize>, buddy: usize) -> (found: bool)
        ensures
            found == old(list)@.contains(buddy),
            found ==> exists|i: int|
                0 <= i < old(list)@.len() && old(list)@[i] == buddy && final(list)@ == old(list)@.remove(i),
            !found ==> final(list)@ == old(list)@,
    {
        let ghost l0 = list@;
        let mut i = list.len();
        while i > 0
            invariant
                0 <= i <= list.len(),
                list@ == l0,
                l0 == old(list)@,
                forall|j: int| i <= j < l0.len() ==> l0[j] != buddy,
            decreases i,
        {
            i = i - 1;
            if list[i] == buddy {
                list.remove(i);
                proof {
                    assert(l0[i as int] == buddy);
                }
                return true;
            }
        }
        false
    }

    /// Whether the block at `addr`, allocated for `size` bytes aligned to
    /// `align`, can be freed: the request has an order, `addr` starts a block
    /// of that order in the heap, and that block shares no byte with a free
    /// block.
    pub fn can_free(&self, addr: usize, size: usize, align: usize) -> (b: bool)
        requires
            self.wf(),
        ensures
            b == (Self::request_order(size, align) matches Some(order) && Self::block_ok(
                self.heap_base(),
                order,
                addr as int,
            ) && Self::disjoint_from_free(self.lists(), addr as int, Self::block_size(order))),
    {
        let order = match self.orders_index(size, align) {
            Some(order) => order,
            None => return false,
        };
        proof {
            Self::lemma_block_size(order as int);
        }
        let bs = Self::order_size(order);
        if addr < self.heap_start {
            return false;
        }
        let off = addr - self.heap_start;
        if off % bs != 0 || off > HEAP_SIZE - bs {
            return false;
        }
        let mut o: usize = 0;
        while o < ORDERS
            invariant
                0 <= o <= ORDERS,
                self.wf(),
                0 < bs,
                bs == Self::block_size(order as int),
                Self::request_order(size, align) == Some(order as int),
                Self::block_ok(self.heap_base(), order as int, addr as int),
                forall|o2: int, i: int|
                    0 <= o2 < o && 0 <= i < self.lists()[o2].len() ==> #[trigger] self.lists()[o2][i]
                        + Self::block_size(o2) <= addr || addr + bs <= self.lists()[o2][i],
            decreases ORDERS - o,
        {
            let obs = Self::order_size(o);
            let mut i: usize = 0;
            proof {
                assert(self.lists()[o as int] == self.free_lists@[o as int]@);
            }
            while i < self.free_lists[o].len()
                invariant
                    0 <= o < ORDERS,
                    0 <= i <= self.lists()[o as int].len(),
                    self.lists()[o as int] == self.free_lists@[o as int]@,
                    self.wf(),
                    bs == Self::block_size(order as int),
                    Self::request_order(size, align) == Some(order as int),
                    Self::block_ok(self.heap_base(), order as int, addr as int),
                    obs == Self::block_size(o as int),
                    forall|o2: int, i2: int|
                        0 <= o2 < o && 0 <= i2 < self.lists()[o2].len() ==> #[trigger] self.lists()[o2][i2]
                            + Self::block_size(o2) <= addr || addr + bs <= self.lists()[o2][i2],
                    forall|i2: int|
                        0 <= i2 < i ==> #[trigger] self.lists()[o as int][i2] + obs <= addr || addr + bs
                            <= self.lists()[o as int][i2],
                decreases self.lists()[o as int].len() - i,
            {
                let a = self.free_lists[o][i];
                if !(a as u128 + obs as u128 <= addr as u128 || addr as u128 + bs as u128 <= a as u128) {
                    proof {
                        let l = self.lists();
                        assert(!(l[o as int][i as int] + Self::block_size(o as int) <= addr || addr + bs
                            <= l[o as int][i as int]));
                    }
                    return false;
                }
                i = i + 1;
            }
            o = o + 1;
        }
        true
    }

    /// Frees the block at `addr`, allocated for `size` bytes aligned to
    /// `align`: while the block's buddy is free (below the top order), the
    /// buddy is taken off its free list and the two merge into the block of
    /// the next order; the block reached joins the free list of its order.
    pub fn dealloc(&mut self, addr: usize, size: usize, align: usize)
        requires
            old(self).wf(),
            old(self).is_initialized(),
            Self::request_order(size, align) is Some,
            Self::block_ok(old(self).heap_base(), Self::request_order(size, align).unwrap(), addr as int),
            Self::disjoint_from_free(
                old(self).lists(),
                addr as int,
                Self::block_size(Self::request_order(size, align).unwrap()),
            ),
        ensures
            final(self).wf(),
            final(self).is_initialized(),
            final(self).heap_base() == old(self).heap_base(),
            final(self).lists() == Self::merged(
                old(self).lists(),
                old(self).heap_base(),
                addr as int,
                Self::request_order(size, align).unwrap(),
            ),
            forall|x: int|
                #![trigger Self::covers_free(final(self).lists(), x)]
                Self::covers_free(final(self).lists(), x) <==> (Self::covers_free(old(self).lists(), x)
                    || Self::in_block(Self::request_order(size, align).unwrap(), addr as int, x)),
            Self::free_bytes(final(self).lists()) == Self::free_bytes(old(self).lists()) + Self::block_size(
                Self::request_order(size, align).unwrap(),
            ),
    {
        self.free_block(addr, size, align);
        proof {
            let order = Self::request_order(size, align).unwrap();
            let l0 = old(self).lists();
            assert forall|x: int| Self::covers_free(l0, x) implies !Self::in_block(order, addr as int, x) by {
                let (o, i) = choose|o: int, i: int|
                    0 <= o < ORDERS && 0 <= i < l0[o].len() && Self::in_block(o, #[trigger] l0[o][i] as int, x);
            }
            Self::lemma_free_bytes_add_block(l0, self.lists(), self.heap_start as int, order, addr as int);
        }
    }

    /// The merging loop of `dealloc`, one order per call: while the block's
    /// buddy is free (below the top order), the buddy is taken off its free
    /// list and the two merge into the block of the next order; the block
    /// reached joins the free list of its order.
    #[verifier::spinoff_prover]
    fn free_block(&mut self, addr: usize, size: usize, align: usize)
        requires
            old(self).wf(),
            old(self).is_initialized(),
            Self::request_order(size, align) is Some,
            Self::block_ok(old(self).heap_base(), Self::request_order(size, align).unwrap(), addr as int),
            Self::disjoint_from_free(
                old(self).lists(),
                addr as int,
                Self::block_size(Self::request_order(size, align).unwrap()),
            ),
        ensures
            final(self).wf(),
            final(self).is_initialized(),
            final(self).heap_base() == old(self).heap_base(),
            final(self).lists() == Self::merged(
                old(self).lists(),
                old(self).heap_base(),
                addr as int,
                Self::request_order(size, align).unwrap(),
            ),
            forall|x: int|
                #![trigger Self::covers_free(final(self).lists(), x)]
                Self::covers_free(final(self).lists(), x) <==> (Self::covers_free(old(self).lists(), x)
                    || Self::in_block(Self::request_order(size, align).unwrap(), addr as int, x)),
            0 <= Self::request_order(size, align).unwrap() < ORDERS,
        decreases ORDERS - Self::request_order(size, align).unwrap(),
    {
        let ghost hs = self.heap_start as int;
        let ghost l0 = self.lists();
        let this_addr = addr;
        let order = match self.orders_index(size, align) {
            Some(order) => order,
            None => {
                proof {
                    assert(false);
                }
                return;
            },
        };
        proof {
            Self::lemma_config();
            Self::lemma_block_size(order as int);
            crate::align::lemma_multiple_of_multiple(addr - hs, Self::block_size(order as int), LINK_SIZE as int);
            crate::align::lemma_sum_of_multiples(hs, addr - hs, LINK_SIZE as int);
        }
        if order == ORDERS - 1 {
            proof {
                Self::lemma_push_block(l0, hs, order as int, this_addr);
            }
            self.add_free_block(this_addr, order);
            proof {
                assert forall|x: int|
                    Self::covers_free(self.lists(), x) <==> (Self::covers_free(l0, x) || Self::in_block(
                        order as int,
                        addr as int,
                        x,
                    )) by {}
            }
            return;
        }
        let bs = Self::order_size(order);
        proof {
            Self::lemma_buddy(hs, order as int, addr as int);
        }
        let buddy = self.heap_start + ((this_addr - self.heap_start) ^ bs);
        proof {
            assert(buddy == Self::buddy_of(hs, order as int, addr as int));
        }
        let found = Self::remove_buddy(&mut self.free_lists[order], buddy);
        if found {
            let ghost i = choose|i: int|
                0 <= i < l0[order as int].len() && l0[order as int][i] == buddy && self.free_lists@[order as int]@
                    == l0[order as int].remove(i);
            let ghost l2 = self.lists();
            proof {
                assert(l2 =~= l0.update(order as int, l0[order as int].remove(i)));
                Self::lemma_no_duplicates(l0, hs, order as int);
                assert(l0[order as int].index_of(buddy) == i);
                Self::lemma_remove_block(l0, hs, order as int, i);
            }
            let merged = if this_addr <= buddy { this_addr } else { buddy };
            let next = Self::order_size(order + 1);
            proof {
                Self::lemma_request_order_of_block(order + 1);
                Self::lemma_block_size(order + 1);
                assert forall|o: int, j: int| 0 <= o < ORDERS && 0 <= j < l2[o].len() implies #[trigger] l2[o][j]
                    + Self::block_size(o) <= merged || merged + Self::block_size(order + 1) <= l2[o][j] by {
                    Self::lemma_block_size(o);
                    let src = if o == order && j >= i { j + 1 } else { j };
                    assert(l2[o][j] == l0[o][src]);
                }
            }
            self.free_block(merged, next, next);
            proof {
                assert forall|x: int|
                    Self::covers_free(self.lists(), x) <==> (Self::covers_free(l0, x) || Self::in_block(
                        order as int,
                        addr as int,
                        x,
                    )) by {
                    assert(Self::covers_free(self.lists(), x) <==> (Self::covers_free(l2, x) || Self::in_block(
                        order + 1,
                        merged as int,
                        x,
                    )));
                    assert(Self::covers_free(l2, x) <==> (Self::covers_free(l0, x) && !Self::in_block(
                        order as int,
                        buddy as int,
                        x,
                    )));
                    if Self::in_block(order as int, buddy as int, x) {
                        assert(l0[order as int][i] == buddy);
                        assert(Self::covers_free(l0, x));
                    }
                }
            }
        } else {
            proof {
                assert(self.lists() =~= l0);
                Self::lemma_push_block(l0, hs, order as int, this_addr);
            }
            self.add_free_block(this_addr, order);
            proof {
                assert forall|x: int|
                    Self::covers_free(self.lists(), x) <==> (Self::covers_free(l0, x) || Self::in_block(
                        order as int,
                        addr as int,
                        x,
                    )) by {}
            }
        }
    }

    /// The bytes of the free blocks of orders below `n`.
    pub open spec fn free_bytes_below(lists: Seq<Seq<usize>>, n: int) -> int
        decreases n,
    {
        if n <= 0 {
            0
        } else {
            Self::free_bytes_below(lists, n - 1) + lists[n - 1].len() * Self::block_size(n - 1)
        }
    }

    /// The bytes of all free blocks.
    pub open spec fn free_bytes(lists: Seq<Seq<usize>>) -> int {
        Self::free_bytes_below(lists, ORDERS as int)
    }

    /// The bytes covered by free blocks, as a set.
    pub open spec fn free_set(lists: Seq<Seq<usize>>) -> Set<int> {
        Set::new(|x: int| Self::covers_free(lists, x))
    }

    /// Partial sums of free bytes grow with the order and are never negative.
    proof fn lemma_free_bytes_below_monotone(lists: Seq<Seq<usize>>, m: int, n: int)
        requires
            Self::valid_config(),
            0 <= m <= n <= ORDERS,
        ensures
            0 <= Self::free_bytes_below(lists, m) <= Self::free_bytes_below(lists, n),
        decreases n,
    {
        if n > 0 {
            Self::lemma_block_size(n - 1);
            assert(lists[n - 1].len() * Self::block_size(n - 1) >= 0) by (nonlinear_arith)
                requires Self::block_size(n - 1) >= 0;
            if m < n {
                Self::lemma_free_bytes_below_monotone(lists, m, n - 1);
            } else {
                Self::lemma_free_bytes_below_monotone(lists, n - 1, n - 1);
            }
        }
    }

    /// Removing a free block takes its bytes off the free bytes.
    proof fn lemma_free_bytes_remove(lists: Seq<Seq<usize>>, o: int, i: int, n: int)
        requires
            0 <= o < ORDERS,
            0 <= i < lists[o].len(),
            0 <= n <= ORDERS,
            lists.len() == ORDERS,
        ensures
            Self::free_bytes_below(lists.update(o, lists[o].remove(i)), n) == Self::free_bytes_below(lists, n)
                - (if o < n { Self::block_size(o) } else { 0 }),
        decreases n,
    {
        if n > 0 {
            Self::lemma_free_bytes_remove(lists, o, i, n - 1);
            if n - 1 == o {
                assert((lists[o].len() - 1) * Self::block_size(o) == lists[o].len() * Self::block_size(o)
                    - Self::block_size(o)) by (nonlinear_arith);
            }
        }
    }

    /// No free list has an entry when all are empty.
    proof fn lemma_free_bytes_empty(lists: Seq<Seq<usize>>, n: int)
        requires
            0 <= n <= lists.len(),
            forall|o: int| 0 <= o < lists.len() ==> (#[trigger] lists[o]).len() == 0,
        ensures
            Self::free_bytes_below(lists, n) == 0,
        decreases n,
    {
        if n > 0 {
            Self::lemma_free_bytes_empty(lists, n - 1);
            assert(lists[n - 1].len() == 0);
        }
    }

    /// The free blocks cover exactly as many bytes as their sizes add up to.
    #[verifier::spinoff_prover]
    pub proof fn lemma_free_set_len(lists: Seq<Seq<usize>>, hs: int)
        requires
            Self::valid_config(),
            Self::lists_wf(lists, hs),
        ensures
            Self::free_set(lists).finite(),
            Self::free_set(lists).len() == Self::free_bytes(lists),
        decreases Self::free_bytes(lists),
    {
        if forall|o: int| 0 <= o < ORDERS ==> (#[trigger] lists[o]).len() == 0 {
            Self::lemma_free_bytes_empty(lists, ORDERS as int);
            assert(Self::free_set(lists) =~= Set::<int>::empty());
        } else {
            let o = choose|o: int| 0 <= o < ORDERS && (#[trigger] lists[o]).len() != 0;
            let i = lists[o].len() - 1;
            let a = lists[o][i] as int;
            let rest = lists.update(o, lists[o].remove(i));
            Self::lemma_block_size(o);
            Self::lemma_remove_block(lists, hs, o, i);
            Self::lemma_free_bytes_remove(lists, o, i, ORDERS as int);
            Self::lemma_free_bytes_below_monotone(rest, 0, ORDERS as int);
            Self::lemma_free_set_len(rest, hs);
            let block = vstd::set_lib::set_int_range(a, a + Self::block_size(o));
            vstd::set_lib::lemma_int_range(a, a + Self::block_size(o));
            assert(Self::free_set(lists) =~= Self::free_set(rest) + block) by {
                assert forall|x: int| Self::free_set(lists).contains(x) <==> (Self::free_set(rest) + block).contains(x) by {
                    assert(Self::covers_free(rest, x) <==> (Self::covers_free(lists, x) && !Self::in_block(o, a, x)));
                    if Self::in_block(o, a, x) {
                        assert(lists[o][i] == a);
                    }
                }
            }
            assert(Self::free_set(rest).disjoint(block)) by {
                assert forall|x: int| Self::free_set(rest).contains(x) implies !block.contains(x) by {
                    assert(Self::covers_free(rest, x) <==> (Self::covers_free(lists, x) && !Self::in_block(o, a, x)));
                }
            }
            vstd::set_lib::lemma_set_disjoint_lens(Self::free_set(rest), block);
        }
    }

    /// The free blocks of a heap never hold more bytes than the heap.
    pub proof fn lemma_free_bytes_bounded(lists: Seq<Seq<usize>>, hs: int)
        requires
            Self::valid_config(),
            Self::lists_wf(lists, hs),
        ensures
            0 <= Self::free_bytes(lists) <= HEAP_SIZE,
    {
        Self::lemma_free_set_len(lists, hs);
        let heap = vstd::set_lib::set_int_range(hs, hs + HEAP_SIZE);
        vstd::set_lib::lemma_int_range(hs, hs + HEAP_SIZE);
        assert forall|x: int| Self::free_set(lists).contains(x) implies heap.contains(x) by {
            let (o, i) = choose|o: int, i: int|
                0 <= o < ORDERS && 0 <= i < lists[o].len() && Self::in_block(o, #[trigger] lists[o][i] as int, x);
        }
        vstd::set_lib::lemma_len_subset(Self::free_set(lists), heap);
    }

    /// The number of bytes of the heap that are not in a free block.
    pub fn bytes_allocated(&self) -> (r: usize)
        requires
            self.wf(),
        ensures
            r == HEAP_SIZE - Self::free_bytes(self.lists()),
    {
        proof {
            Self::lemma_free_bytes_bounded(self.lists(), self.heap_start as int);
        }
        let mut free_bytes: usize = 0;
        let mut order: usize = 0;
        while order < ORDERS
            invariant
                0 <= order <= ORDERS,
                self.wf(),
                free_bytes == Self::free_bytes_below(self.lists(), order as int),
                Self::free_bytes(self.lists()) <= HEAP_SIZE,
            decreases ORDERS - order,
        {
            proof {
                Self::lemma_free_bytes_below_monotone(self.lists(), order + 1, ORDERS as int);
                Self::lemma_free_bytes_below_monotone(self.lists(), order as int, order as int);
                Self::lemma_block_size(order as int);
            }
            let count = self.free_lists[order].len();
            let size = Self::order_size(order);
            proof {
                assert(self.lists()[order as int].len() == count);
                assert(count * size <= HEAP_SIZE) by (nonlinear_arith)
                    requires
                        count * size + free_bytes <= HEAP_SIZE,
                        free_bytes >= 0;
            }
            free_bytes = free_bytes + count * size;
            order = order + 1;
        }
        HEAP_SIZE - free_bytes
    }

    /// What a consistent allocator guarantees: a valid configuration; free
    /// lists, one per order, whose blocks lie in the heap at multiples of
    /// their size, share no byte, and have no free buddy below the top order;
    /// no free block before the heap is handed over, and a heap start that is
    /// a non-zero multiple of the page size after.
    pub proof fn lemma_wf(&self)
        requires
            self.wf(),
        ensures
            Self::valid_config(),
            Self::lists_wf(self.lists(), self.heap_base()),
            self.lists().len() == ORDERS,
            !self.is_initialized() ==> forall|o: int| 0 <= o < ORDERS ==> (#[trigger] self.lists()[o]).len() == 0,
            self.is_initialized() ==> self.heap_base() != 0 && self.heap_base() % (PAGE_SIZE as int) == 0,
    {
    }

    /// Whether the allocator has been given its heap.
    pub fn initialized(&self) -> (b: bool)
        ensures
            b == self.is_initialized(),
    {
        self.initialized
    }

    /// Freeing a block right after it was allocated gives back the free lists
    /// the allocation started from: the halves split off on the way down are
    /// merged again on the way up, and the block taken returns to the head
    /// of its list.
    #[verifier::spinoff_prover]
    pub proof fn lemma_dealloc_undoes_allocate(lists: Seq<Seq<usize>>, hs: int, order: int)
        requires
            Self::valid_config(),
            Self::lists_wf(lists, hs),
            0 <= order < ORDERS,
            Self::first_nonempty(lists, order) < ORDERS,
        ensures
            ({
                let k = Self::first_nonempty(lists, order);
                let a = lists[k].last();
                Self::merged(Self::after_split(lists, order, k, a), hs, a as int, order) == lists
            }),
        decreases Self::first_nonempty(lists, order) - order,
    {
        let k = Self::first_nonempty(lists, order);
        let a = lists[k].last();
        let n = lists[k].len() - 1;
        Self::lemma_first_nonempty(lists, order);
        let after = Self::after_split(lists, order, k, a);
        assert(lists[k][n] == a);
        Self::lemma_block_size(order);
        Self::lemma_block_size(k);
        if order == k {
            if order < ORDERS - 1 {
                let b = Self::buddy_of(hs, order, a as int) as usize;
                Self::lemma_buddy(hs, order, a as int);
                assert(!lists[k].contains(b));
                assert(!after[order].contains(b)) by {
                    if after[order].contains(b) {
                        let j = choose|j: int| 0 <= j < after[order].len() && after[order][j] == b;
                        assert(lists[k][j] == b);
                    }
                }
            }
            assert(Self::merged(after, hs, a as int, order) =~= lists) by {
                assert(after[order].push(a) =~= lists[order]);
            }
        } else {
            let bs = Self::block_size(order);
            let b = Self::buddy_of(hs, order, a as int) as usize;
            // `a` starts a block of order `k`, so also one of `order + 1`
            Self::lemma_block_size(order + 1);
            if order + 1 < k {
                Self::lemma_block_size_increases(order + 1, k);
            }
            crate::align::lemma_power_of_two_divides(
                Self::block_size(k) as usize,
                Self::block_size(order + 1) as usize,
            );
            crate::align::lemma_power_of_two_divides(
                Self::block_size(order + 1) as usize,
                bs as usize,
            );
            crate::align::lemma_multiple_of_multiple(a - hs, Self::block_size(k), Self::block_size(order + 1));
            crate::align::lemma_multiple_of_multiple(a - hs, Self::block_size(order + 1), bs);
            Self::lemma_buddy(hs, order, a as int);
            assert(b == a + bs);
            assert(after[order] =~= seq![b]);
            assert(after[order].contains(b)) by {
                assert(after[order][0] == b);
            }
            assert(after[order].index_of(b) == 0);
            let rest = after.update(order, after[order].remove(0));
            assert(Self::first_nonempty(lists, order + 1) == k);
            assert(rest =~= Self::after_split(lists, order + 1, k, a)) by {
                assert(rest[order] =~= lists[order]);
            }
            Self::lemma_dealloc_undoes_allocate(lists, hs, order + 1);
        }
    }
}

impl<const MIN_BLOCK_SIZE: usize, const ORDERS: usize> Default for BuddyAllocator<MIN_BLOCK_SIZE, ORDERS> {
    fn default() -> (a: Self)
        ensures
            Self::valid_config() ==> a.wf(),
            !a.is_initialized(),
            forall|o: int| 0 <= o < ORDERS ==> (#[trigger] a.lists()[o]).len() == 0,
    {
        Self::new()
    }
}

} // verus!
