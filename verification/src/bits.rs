//! The free bitmap's arithmetic: population count, trailing zeros and
//! low-bit masks over `u64`.
//!
//! A slab tracks its free slots in a `u64` where bit `i` set means slot `i`
//! is free. Issuing clears the lowest set bit; releasing sets a bit back.
//! The lemmas here relate those bit operations to the population count and
//! to the position of the lowest set bit.

use vstd::prelude::*;

verus! {

use vstd::arithmetic::power2::{
    pow2,
    lemma_pow2_unfold,
    lemma_pow2_pos,
    lemma_pow2_strictly_increases,
    lemma2_to64,
    lemma2_to64_rest,
};
use vstd::arithmetic::div_mod::lemma_basic_div;
use vstd::bits::{lemma_u64_pow2_no_overflow, lemma_u64_shl_is_mul, lemma_u64_shr_is_div};
use vstd::std_specs::bits::{u64_trailing_zeros, axiom_u64_trailing_zeros};

/// Number of set bits in `m`.
pub open spec fn popcount(m: u64) -> nat
    decreases m,
{
    if m == 0 {
        0
    } else {
        (m % 2) as nat + popcount(m / 2)
    }
}

/// `m` with its lowest set bit cleared (and `0` if `m` is `0`).
pub open spec fn clear_lowest(m: u64) -> u64 {
    m & ((m - 1) as u64)
}

/// Relies on `u64::count_ones`: it returns the number of ones in the
/// binary representation of its argument.
pub assume_specification[ u64::count_ones ](m: u64) -> (r: u32)
    ensures
        r as nat == popcount(m),
;

/// `popcount` unfolds one binary digit at a time, for `0` as well.
proof fn lemma_popcount_unfold(m: u64)
    ensures
        popcount(m) == (m % 2) as nat + popcount(m / 2),
{
    if m == 0 {
        assert(popcount(0u64) == 0);
    }
}

/// A bitmap has no set bits exactly when it is zero.
pub proof fn lemma_popcount_zero(m: u64)
    ensures
        popcount(m) == 0 <==> m == 0,
    decreases m,
{
    if m != 0 && m % 2 == 0 {
        lemma_popcount_zero(m / 2);
    }
}

/// A bitmap below `pow2(n)` has at most `n` set bits.
pub proof fn lemma_popcount_bound(m: u64, n: nat)
    requires
        m < pow2(n),
    ensures
        popcount(m) <= n,
    decreases m,
{
    if m != 0 {
        if n == 0 {
            assert(pow2(0) == 1) by {
                lemma2_to64();
            }
        } else {
            lemma_pow2_unfold(n);
            lemma_popcount_bound(m / 2, (n - 1) as nat);
        }
    }
}

/// The all-free bitmap `pow2(n) - 1` has exactly `n` set bits.
pub proof fn lemma_popcount_mask(n: nat)
    requires
        n <= 64,
    ensures
        pow2(n) - 1 <= u64::MAX,
        popcount((pow2(n) - 1) as u64) == n,
    decreases n,
{
    lemma2_to64();
    lemma2_to64_rest();
    if n == 0 {
    } else {
        lemma_pow2_unfold(n);
        lemma_pow2_pos((n - 1) as nat);
        if n < 64 {
            lemma_pow2_strictly_increases(n, 64);
        }
        lemma_popcount_mask((n - 1) as nat);
        let m = (pow2(n) - 1) as u64;
        assert(m % 2 == 1 && m / 2 == (pow2((n - 1) as nat) - 1) as u64);
    }
}

/// Clearing a set bit removes exactly one from the population count.
proof fn lemma_popcount_clear_bit(m: u64, i: u64)
    requires
        i < 64,
        (m >> i) & 1 == 1,
    ensures
        popcount(m & !(1u64 << i)) == popcount(m) - 1,
        popcount(m) >= 1,
    decreases i,
{
    let mc = m & !(1u64 << i);
    lemma_popcount_unfold(m);
    lemma_popcount_unfold(mc);
    if i == 0 {
        assert(m % 2 == 1 && mc % 2 == 0 && mc / 2 == m / 2) by (bit_vector)
            requires
                (m >> 0u64) & 1 == 1,
                mc == m & !(1u64 << 0u64),
        ;
    } else {
        assert(mc % 2 == m % 2 && mc / 2 == (m / 2) & !(1u64 << ((i - 1) as u64)) && ((m / 2) >> (
        (i - 1) as u64)) & 1 == 1) by (bit_vector)
            requires
                1 <= i < 64,
                (m >> i) & 1 == 1,
                mc == m & !(1u64 << i),
        ;
        lemma_popcount_clear_bit(m / 2, (i - 1) as u64);
        lemma_popcount_unfold(m / 2);
        lemma_popcount_unfold(mc / 2);
    }
}

/// Setting a clear bit adds exactly one to the population count.
pub proof fn lemma_popcount_set_bit(m: u64, i: u64)
    requires
        i < 64,
        (m >> i) & 1 == 0,
    ensures
        popcount(m | (1u64 << i)) == popcount(m) + 1,
    decreases i,
{
    let ms = m | (1u64 << i);
    lemma_popcount_unfold(m);
    lemma_popcount_unfold(ms);
    if i == 0 {
        assert(m % 2 == 0 && ms % 2 == 1 && ms / 2 == m / 2) by (bit_vector)
            requires
                (m >> 0u64) & 1 == 0,
                ms == m | (1u64 << 0u64),
        ;
    } else {
        assert(ms % 2 == m % 2 && ms / 2 == (m / 2) | (1u64 << ((i - 1) as u64)) && ((m / 2) >> (
        (i - 1) as u64)) & 1 == 0) by (bit_vector)
            requires
                1 <= i < 64,
                (m >> i) & 1 == 0,
                ms == m | (1u64 << i),
        ;
        lemma_popcount_set_bit(m / 2, (i - 1) as u64);
        lemma_popcount_unfold(m / 2);
        lemma_popcount_unfold(ms / 2);
    }
}

/// Setting a bit below `n` keeps the bitmap below `pow2(n)`.
pub proof fn lemma_set_bit_bound(m: u64, i: u64, n: nat)
    requires
        i < n <= 64,
        m < pow2(n),
    ensures
        (m | (1u64 << i)) < pow2(n),
{
    lemma2_to64_rest();
    if n == 64 {
        assert((m | (1u64 << i)) <= 0xffff_ffff_ffff_ffffu64) by (bit_vector);
    } else {
        let nn = n as u64;
        lemma_u64_pow2_no_overflow(n);
        lemma_u64_shl_is_mul(1u64, nn);
        assert(m <= (1u64 << nn) - 1 && i < nn ==> (m | (1u64 << i)) <= (1u64 << nn) - 1)
            by (bit_vector)
            requires
                i < nn < 64,
        ;
    }
}

/// Clearing bits never grows the bitmap.
proof fn lemma_clear_bit_le(m: u64, i: u64)
    requires
        i < 64,
    ensures
        m & !(1u64 << i) <= m,
{
    assert(m & !(1u64 << i) <= m) by (bit_vector)
        requires
            i < 64,
    ;
}

/// A bitmap below `pow2(n)` has its lowest set bit below `n`.
pub proof fn lemma_tz_bound(m: u64, n: nat)
    requires
        m != 0,
        n <= 64,
        m < pow2(n),
    ensures
        (u64_trailing_zeros(m) as nat) < n,
        (m >> (u64_trailing_zeros(m) as u64)) & 1 == 1,
{
    axiom_u64_trailing_zeros(m);
    let t = u64_trailing_zeros(m) as nat;
    if t >= n {
        lemma_u64_shr_is_div(m, t as u64);
        if n < t {
            lemma_pow2_strictly_increases(n, t);
        }
        lemma_pow2_pos(t);
        lemma_basic_div(m as int, pow2(t) as int);
        assert(m >> (t as u64) == 0);
        assert(0u64 & 1 == 0) by (bit_vector);
    }
}

/// The lowest set bit of an odd bitmap is bit zero.
pub proof fn lemma_tz_odd(m: u64)
    requires
        m % 2 == 1,
    ensures
        u64_trailing_zeros(m) == 0,
{
    axiom_u64_trailing_zeros(m);
    let t = u64_trailing_zeros(m) as u64;
    assert(m % 2 == 1 ==> (m >> 0u64) & 1 == 1) by (bit_vector);
    if t > 0 {
        assert((m >> 0u64) & 1 == 0);
    }
}

/// Clearing the lowest set bit with a mask at its position equals
/// `clear_lowest`, and removes exactly one set bit.
pub proof fn lemma_clear_lowest(m: u64)
    requires
        m != 0,
    ensures
        (u64_trailing_zeros(m) as nat) < 64,
        m & !(1u64 << (u64_trailing_zeros(m) as u64)) == clear_lowest(m),
        popcount(clear_lowest(m)) == popcount(m) - 1,
        popcount(m) >= 1,
        clear_lowest(m) <= m,
{
    axiom_u64_trailing_zeros(m);
    let t = u64_trailing_zeros(m) as u64;
    assert(m & !(1u64 << t) == (m & ((m - 1) as u64)) && (m >> t) & 1 == 1) by (bit_vector)
        requires
            m != 0,
            t < 64,
            m << ((64 - t) as u64) == 0,
            (m >> t) & 1 == 1,
    ;
    lemma_popcount_clear_bit(m, t);
    lemma_clear_bit_le(m, t);
}

/// Restoring the just-cleared lowest bit gives back the original bitmap.
pub proof fn lemma_clear_lowest_restore(m: u64)
    requires
        m != 0,
    ensures
        clear_lowest(m) | (1u64 << (u64_trailing_zeros(m) as u64)) == m,
        (clear_lowest(m) >> (u64_trailing_zeros(m) as u64)) & 1 == 0,
{
    axiom_u64_trailing_zeros(m);
    let t = u64_trailing_zeros(m) as u64;
    assert(((m & ((m - 1) as u64)) | (1u64 << t)) == m && ((m & ((m - 1) as u64)) >> t) & 1
        == 0) by (bit_vector)
        requires
            m != 0,
            t < 64,
            m << ((64 - t) as u64) == 0,
            (m >> t) & 1 == 1,
    ;
}

/// After clearing the lowest set bit, the new lowest set bit is strictly
/// higher: issuing twice from a slab hands out slots in increasing order.
pub proof fn lemma_clear_lowest_tz(m: u64)
    requires
        m != 0,
        clear_lowest(m) != 0,
    ensures
        u64_trailing_zeros(clear_lowest(m)) > u64_trailing_zeros(m),
{
    axiom_u64_trailing_zeros(m);
    axiom_u64_trailing_zeros(clear_lowest(m));
    let t = u64_trailing_zeros(m) as u64;
    let t2 = u64_trailing_zeros(clear_lowest(m)) as u64;
    let mc = clear_lowest(m);
    if t2 <= t {
        assert(false) by (bit_vector)
            requires
                m != 0,
                t < 64,
                t2 < 64,
                t2 <= t,
                mc == m & ((m - 1) as u64),
                m << ((64 - t) as u64) == 0,
                (m >> t) & 1 == 1,
                (mc >> t2) & 1 == 1,
        ;
    }
}

} // verus!
