//! Bit-level specification functions shared by the whole crate: single
//! bits, nibbles (4-bit groups) and parities of 64-bit block values,
//! together with the lemmas that connect them.

use vstd::prelude::*;

verus! {

/// Bit `i` of `x`, as 0 or 1 (bit 0 is the least significant).
pub open spec fn bit_at(x: u64, i: u64) -> u64 {
    (x >> i) & 1
}

/// The 4-bit group of `x` at nibble index `i` (nibble 0 is the least
/// significant).
pub open spec fn nib_at(x: u64, i: u64) -> u64 {
    (x >> (4 * i) as u64) & 0xf
}

/// Parity (XOR-fold) of the low `n` bits of `x`.
pub open spec fn par_rec(x: u64, n: nat) -> u64
    decreases n,
{
    if n == 0 {
        0
    } else {
        par_rec(x, (n - 1) as nat) ^ bit_at(x, (n - 1) as u64)
    }
}

/// Parity of all 64 bits of `x`, as 0 or 1.
pub open spec fn parity64(x: u64) -> u64 {
    par_rec(x, 64)
}

/// The parity fold only ever produces 0 or 1.
pub proof fn lemma_par_rec_bounded(x: u64, n: nat)
    requires
        n <= 64,
    ensures
        par_rec(x, n) == 0 || par_rec(x, n) == 1,
    decreases n,
{
    if n > 0 {
        lemma_par_rec_bounded(x, (n - 1) as nat);
        let a = par_rec(x, (n - 1) as nat);
        let k: u64 = (n - 1) as u64;
        assert(a == 0 || a == 1 ==> a ^ ((x >> k) & 1) == 0 || a ^ ((x >> k) & 1) == 1)
            by (bit_vector);
    }
}

/// Bits at or above position `n` do not change the parity fold when the
/// value is below `2^n`.
pub proof fn lemma_par_rec_high_zero(x: u64, m: nat, n: nat)
    requires
        m <= n <= 64,
        forall|k: u64| m <= k < n ==> bit_at(x, k) == 0,
    ensures
        par_rec(x, n) == par_rec(x, m),
    decreases n - m,
{
    if n > m {
        let a = par_rec(x, (n - 1) as nat);
        let k: u64 = (n - 1) as u64;
        assert(bit_at(x, k) == 0);
        assert((x >> k) & 1 == 0 ==> a ^ ((x >> k) & 1) == a) by (bit_vector);
        lemma_par_rec_high_zero(x, m, (n - 1) as nat);
    }
}

/// The mask selecting the low `n` bits, for `n < 64`.
pub open spec fn low_mask(n: u64) -> u64 {
    (((1u64 << n) - 1) as u64)
}

proof fn lemma_mask_eq(x: u64, y: u64, n: u64)
    requires
        n <= 63,
        forall|i: u64| i < n ==> bit_at(x, i) == bit_at(y, i),
    ensures
        x & low_mask(n) == y & low_mask(n),
    decreases n,
{
    if n == 0 {
        assert(x & low_mask(0) == y & low_mask(0)) by (bit_vector);
    } else {
        lemma_mask_eq(x, y, (n - 1) as u64);
        let m: u64 = (n - 1) as u64;
        assert(bit_at(x, m) == bit_at(y, m));
        assert((x & low_mask(m) == y & low_mask(m) && (x >> m) & 1 == (y >> m) & 1 && m < 63)
            ==> x & low_mask((m + 1) as u64) == y & low_mask((m + 1) as u64)) by (bit_vector);
    }
}

/// Two 64-bit values that agree on every bit position are equal.
pub proof fn lemma_bit_ext(x: u64, y: u64)
    requires
        forall|i: u64| i < 64 ==> bit_at(x, i) == bit_at(y, i),
    ensures
        x == y,
{
    lemma_mask_eq(x, y, 63);
    assert(bit_at(x, 63) == bit_at(y, 63));
    assert((x & low_mask(63) == y & low_mask(63) && (x >> 63) & 1 == (y >> 63) & 1)
        ==> x == y) by (bit_vector);
}

/// Every bit of `x` can be read out of the nibble that contains it.
pub proof fn lemma_bit_from_nib(x: u64, e: u64)
    by (bit_vector)
    requires
        e < 64,
    ensures
        bit_at(x, e) == (nib_at(x, e / 4) >> (e % 4)) & 1,
{
}

/// Two 64-bit values that agree on every nibble are equal.
pub proof fn lemma_nib_ext(x: u64, y: u64)
    requires
        forall|i: u64| i < 16 ==> nib_at(x, i) == nib_at(y, i),
    ensures
        x == y,
{
    assert forall|e: u64| e < 64 implies bit_at(x, e) == bit_at(y, e) by {
        lemma_bit_from_nib(x, e);
        lemma_bit_from_nib(y, e);
        assert(nib_at(x, e / 4) == nib_at(y, e / 4));
    }
    lemma_bit_ext(x, y);
}

/// XOR by the same value twice gives the original back.
pub proof fn lemma_xor_cancel(x: u64, k: u64)
    by (bit_vector)
    ensures
        (x ^ k) ^ k == x,
{
}

/// How OR-ing a single shifted bit into an accumulator changes each bit.
pub proof fn lemma_or_bit(acc: u64, b: u64, d: u64, e: u64)
    by (bit_vector)
    requires
        b <= 1,
        d < 64,
        e < 64,
    ensures
        e != d ==> bit_at(acc | (b << d), e) == bit_at(acc, e),
        bit_at(acc, d) == 0 ==> bit_at(acc | (b << d), d) == b,
{
}

/// How OR-ing a single shifted nibble into an accumulator changes each
/// nibble.
pub proof fn lemma_or_nib(acc: u64, v: u64, k: u64, j: u64)
    by (bit_vector)
    requires
        v < 16,
        k < 16,
        j < 16,
    ensures
        j != k ==> nib_at(acc | (v << ((4 * k) as u64)), j) == nib_at(acc, j),
        nib_at(acc, k) == 0 ==> nib_at(acc | (v << ((4 * k) as u64)), k) == v,
{
}

/// A value below `2^n` has all bits at or above `n` clear.
pub proof fn lemma_small_high_bits_zero(x: u64, n: u64, k: u64)
    by (bit_vector)
    requires
        n < 64,
        k < 64,
        n <= k,
        x < (1u64 << n),
    ensures
        (x >> k) & 1 == 0,
{
}

} // verus!
