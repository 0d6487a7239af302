use vstd::prelude::*;
use vstd::arithmetic::power2::{is_pow2, is_pow2_equiv, pow2, lemma_pow2};
use vstd::arithmetic::div_mod::lemma_fundamental_div_mod;
use vstd::bits::{low_bits_mask, lemma_usize_low_bits_mask_is_mod};

verus! {

/// `n` is a power of two (1, 2, 4, ...), as a layout's alignment always is.
pub open spec fn is_power_of_two(n: usize) -> bool {
    is_pow2(n as int)
}

/// The smallest multiple of `align` that is not below `addr`.
pub open spec fn spec_align_up(addr: int, align: int) -> int {
    if addr % align == 0 {
        addr
    } else {
        addr - addr % align + align
    }
}

/// Clearing the low bits of `y` selected by `m` rounds `y` down by at most `m`.
proof fn lemma_clear_low_bits(y: usize, m: usize)
    by (bit_vector)
    ensures
        (y & !m) & m == 0,
        (y & !m) <= y,
        y - (y & !m) <= m,
{
}

/// The power of two `a` is `2^k` for some `k` below the word width.
pub proof fn lemma_power_of_two_exponent(a: usize) -> (k: nat)
    requires
        is_power_of_two(a),
    ensures
        pow2(k) == a,
        k < usize::BITS,
        a > 0,
        a <= isize::MAX + 1,
{
    is_pow2_equiv(a as int);
    let k = choose|i: nat| vstd::arithmetic::power::pow(2, i) == a as int;
    lemma_pow2(k);
    vstd::arithmetic::power2::lemma2_to64();
    vstd::arithmetic::power2::lemma2_to64_rest();
    if k >= usize::BITS {
        if k > usize::BITS {
            vstd::arithmetic::power2::lemma_pow2_strictly_increases(usize::BITS as nat, k);
        }
        assert(false);
    }
    vstd::arithmetic::power2::lemma_pow2_pos(k);
    if k < usize::BITS - 1 {
        vstd::arithmetic::power2::lemma_pow2_strictly_increases(k, (usize::BITS - 1) as nat);
    }
    k
}

/// For a power of two `a`, masking with `a - 1` gives the remainder modulo `a`.
pub proof fn lemma_mask_is_mod(x: usize, a: usize)
    requires
        is_power_of_two(a),
    ensures
        a > 0,
        x & ((a - 1) as usize) == x % a,
{
    let k = lemma_power_of_two_exponent(a);
    assert(low_bits_mask(k) == a - 1);
    lemma_usize_low_bits_mask_is_mod(x, k);
}

/// The only multiple of `a` in the window `[x, x + a)` is `spec_align_up(x, a)`.
pub proof fn lemma_align_up_unique(x: int, a: int, r: int)
    requires
        a > 0,
        x >= 0,
        r % a == 0,
        x <= r < x + a,
    ensures
        r == spec_align_up(x, a),
{
    lemma_fundamental_div_mod(x, a);
    lemma_fundamental_div_mod(r, a);
    let qx = x / a;
    let qr = r / a;
    let s = x % a;
    assert(r == a * qr);
    assert(x == a * qx + s);
    assert(a * qx + a == a * (qx + 1)) by (nonlinear_arith);
    assert(a * qx + 2 * a == a * (qx + 2)) by (nonlinear_arith);
    if s == 0 {
        assert(qx <= qr) by (nonlinear_arith)
            requires a > 0, a * qx <= a * qr;
        assert(qr < qx + 1) by (nonlinear_arith)
            requires a > 0, a * qr < a * (qx + 1);
        assert(qr == qx);
    } else {
        assert(qx < qr) by (nonlinear_arith)
            requires a > 0, a * qx < a * qr;
        assert(qr < qx + 2) by (nonlinear_arith)
            requires a > 0, a * qr < a * (qx + 2);
        assert(qr == qx + 1);
    }
}

/// `spec_align_up(x, a)` is a multiple of `a` in `[x, x + a)`.
pub proof fn lemma_align_up_props(x: int, a: int)
    requires
        a > 0,
        x >= 0,
    ensures
        spec_align_up(x, a) % a == 0,
        x <= spec_align_up(x, a) < x + a,
{
    lemma_fundamental_div_mod(x, a);
    if x % a != 0 {
        let q = x / a;
        assert(spec_align_up(x, a) == (q + 1) * a) by (nonlinear_arith)
            requires x == a * q + x % a, spec_align_up(x, a) == x - x % a + a;
        vstd::arithmetic::div_mod::lemma_mod_multiples_basic(q + 1, a);
    }
}

/// A sum of multiples of `m` is a multiple of `m`.
pub proof fn lemma_sum_of_multiples(a: int, b: int, m: int)
    requires
        m > 0,
        a % m == 0,
        b % m == 0,
    ensures
        (a + b) % m == 0,
{
    lemma_fundamental_div_mod(a, m);
    lemma_fundamental_div_mod(b, m);
    let qa = a / m;
    let qb = b / m;
    assert(a + b == (qa + qb) * m) by (nonlinear_arith)
        requires a == m * qa, b == m * qb;
    vstd::arithmetic::div_mod::lemma_mod_multiples_basic(qa + qb, m);
}

/// A free-list node's size is a power of two.
pub proof fn lemma_node_size_is_power_of_two()
    ensures
        is_power_of_two(16),
{
    reveal_with_fuel(is_pow2, 6);
}

/// A free-list link's size is a power of two.
pub proof fn lemma_link_size_is_power_of_two()
    ensures
        is_power_of_two(8),
{
    reveal_with_fuel(is_pow2, 5);
}

/// A power of two is a multiple of every smaller power of two.
pub proof fn lemma_power_of_two_divides(a: usize, b: usize)
    requires
        is_power_of_two(a),
        is_power_of_two(b),
        b <= a,
    ensures
        a % b == 0,
{
    let ka = lemma_power_of_two_exponent(a);
    let kb = lemma_power_of_two_exponent(b);
    if ka < kb {
        vstd::arithmetic::power2::lemma_pow2_strictly_increases(ka, kb);
    }
    vstd::arithmetic::power2::lemma_pow2_adds(kb, (ka - kb) as nat);
    vstd::arithmetic::power2::lemma_pow2_pos((ka - kb) as nat);
    vstd::arithmetic::div_mod::lemma_mod_multiples_basic(pow2((ka - kb) as nat) as int, b as int);
    assert(pow2((ka - kb) as nat) * pow2(kb) == pow2(kb) * pow2((ka - kb) as nat)) by (nonlinear_arith);
}

/// A multiple of a multiple of `c` is a multiple of `c`.
pub proof fn lemma_multiple_of_multiple(x: int, a: int, c: int)
    requires
        a > 0,
        c > 0,
        x % a == 0,
        a % c == 0,
    ensures
        x % c == 0,
{
    lemma_fundamental_div_mod(x, a);
    lemma_fundamental_div_mod(a, c);
    let q = x / a;
    let m = a / c;
    assert(x == c * (m * q)) by (nonlinear_arith)
        requires x == a * q, a == c * m;
    vstd::arithmetic::div_mod::lemma_mod_multiples_basic(m * q, c);
    assert((m * q) * c == c * (m * q)) by (nonlinear_arith);
}

/// Aligns `addr` upwards to the power of two `align`.
pub(crate) fn align_up(addr: usize, align: usize) -> (r: usize)
    requires
        is_power_of_two(align),
        addr + align - 1 <= usize::MAX,
    ensures
        r == spec_align_up(addr as int, align as int),
{
    proof {
        lemma_mask_is_mod(0, align);
    }
    let m = align - 1;
    let y = addr + m;
    let r = y & !m;
    proof {
        lemma_clear_low_bits(y, m);
        lemma_mask_is_mod(r, align);
        lemma_align_up_unique(addr as int, align as int, r as int);
    }
    r
}

} // verus!
