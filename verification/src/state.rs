//! The 64-bit cipher state and the three layers of one PRESENT round:
//! key mixing, parallel substitution and the bit-slice permutation.

use vstd::prelude::*;
use crate::bits::{bit_at, lemma_bit_ext, lemma_or_bit};
use crate::sbox::{present_sbox, present_table, spec_sbox_state};
use crate::keys::KeyT;

verus! {

/// The destination of bit `i` under the PRESENT permutation: a bit-slice
/// transpose across the 16 sbox lanes of 4 bits each.
pub open spec fn pbit(i: u64) -> u64 {
    (((i % 4) * 16 + i / 4) as u64)
}

/// The source of bit `d` under the PRESENT permutation: the inverse
/// transpose.
pub open spec fn qbit(d: u64) -> u64 {
    (((d % 16) * 4 + d / 16) as u64)
}

/// The transpose maps bit positions bijectively: distinct bits go to
/// distinct places, within range, and `qbit` undoes `pbit`.
pub proof fn lemma_pbit_facts(i: u64, j: u64)
    by (bit_vector)
    requires
        i < 64,
        j < 64,
    ensures
        (((i % 4) * 16 + i / 4) as u64) < 64,
        i != j ==> (((i % 4) * 16 + i / 4) as u64) != (((j % 4) * 16 + j / 4) as u64),
        ((((((i % 4) * 16 + i / 4) as u64) % 16) * 4 + (((i % 4) * 16 + i / 4) as u64) / 16)
            as u64) == i,
        (((((((i % 16) * 4 + i / 16) as u64) % 4) * 16 + (((i % 16) * 4 + i / 16) as u64) / 4))
            as u64) == i,
        (((i % 16) * 4 + i / 16) as u64) < 64,
{
}

proof fn lemma_bit_le1(x: u64, i: u64)
    by (bit_vector)
    ensures
        (x >> i) & 1 <= 1,
{
}

/// Accumulator for the forward permutation: the low `k` source bits
/// placed at their destinations, all other bits zero.
pub open spec fn perm_acc(x: u64, k: nat) -> u64
    decreases k,
{
    if k == 0 {
        0
    } else {
        perm_acc(x, (k - 1) as nat) | (bit_at(x, (k - 1) as u64) << pbit((k - 1) as u64))
    }
}

/// The PRESENT bit permutation of a 64-bit block.
pub open spec fn spec_perm(x: u64) -> u64 {
    perm_acc(x, 64)
}

/// Accumulator for the inverse permutation.
pub open spec fn inv_perm_acc(x: u64, k: nat) -> u64
    decreases k,
{
    if k == 0 {
        0
    } else {
        inv_perm_acc(x, (k - 1) as nat) | (bit_at(x, pbit((k - 1) as u64)) << ((k - 1) as u64))
    }
}

/// The inverse PRESENT bit permutation of a 64-bit block.
pub open spec fn spec_inv_perm(x: u64) -> u64 {
    inv_perm_acc(x, 64)
}

proof fn lemma_perm_acc_bits(x: u64, k: nat)
    requires
        k <= 64,
    ensures
        forall|j: u64| j < k ==> #[trigger] bit_at(perm_acc(x, k), pbit(j)) == bit_at(x, j),
        forall|j: u64| k <= j < 64 ==> #[trigger] bit_at(perm_acc(x, k), pbit(j)) == 0,
    decreases k,
{
    if k == 0 {
        assert forall|j: u64| j < 64 implies #[trigger] bit_at(0u64, pbit(j)) == 0 by {
            let d = pbit(j);
            assert((0u64 >> d) & 1 == 0) by (bit_vector);
        }
    } else {
        lemma_perm_acc_bits(x, (k - 1) as nat);
        let prev = perm_acc(x, (k - 1) as nat);
        let kk: u64 = (k - 1) as u64;
        let b = bit_at(x, kk);
        let res = prev | (b << pbit(kk));
        assert forall|j: u64| j < 64 implies (#[trigger] bit_at(res, pbit(j))) == (if j < k {
            bit_at(x, j)
        } else {
            0u64
        }) by {
            lemma_bit_le1(x, kk);
            lemma_pbit_facts(kk, kk);
            lemma_pbit_facts(j, kk);
            lemma_or_bit(prev, b, pbit(kk), pbit(j));
            if j == kk {
                assert(bit_at(prev, pbit(kk)) == 0);
            }
        }
        assert(perm_acc(x, k) == res);
    }
}

proof fn lemma_inv_perm_acc_bits(x: u64, k: nat)
    requires
        k <= 64,
    ensures
        forall|j: u64| j < k ==> #[trigger] bit_at(inv_perm_acc(x, k), j) == bit_at(x, pbit(j)),
        forall|j: u64| k <= j < 64 ==> #[trigger] bit_at(inv_perm_acc(x, k), j) == 0,
    decreases k,
{
    if k == 0 {
        assert forall|j: u64| j < 64 implies #[trigger] bit_at(0u64, j) == 0 by {
            assert((0u64 >> j) & 1 == 0) by (bit_vector);
        }
    } else {
        lemma_inv_perm_acc_bits(x, (k - 1) as nat);
        let prev = inv_perm_acc(x, (k - 1) as nat);
        let kk: u64 = (k - 1) as u64;
        let b = bit_at(x, pbit(kk));
        let res = prev | (b << kk);
        assert forall|j: u64| j < 64 implies (#[trigger] bit_at(res, j)) == (if j < k {
            bit_at(x, pbit(j))
        } else {
            0u64
        }) by {
            lemma_bit_le1(x, pbit(kk));
            lemma_pbit_facts(kk, kk);
            lemma_or_bit(prev, b, kk, j);
            if j == kk {
                assert(bit_at(prev, kk) == 0);
            }
        }
        assert(inv_perm_acc(x, k) == res);
    }
}

/// Each destination bit of the permuted block carries the matching source
/// bit.
pub proof fn lemma_perm_bits(x: u64, j: u64)
    requires
        j < 64,
    ensures
        bit_at(spec_perm(x), pbit(j)) == bit_at(x, j),
        bit_at(spec_inv_perm(x), j) == bit_at(x, pbit(j)),
{
    lemma_perm_acc_bits(x, 64);
    lemma_inv_perm_acc_bits(x, 64);
}

/// The inverse permutation undoes the forward permutation on every block.
pub proof fn lemma_perm_roundtrip(x: u64)
    ensures
        spec_inv_perm(spec_perm(x)) == x,
{
    assert forall|j: u64| j < 64 implies bit_at(spec_inv_perm(spec_perm(x)), j) == bit_at(x, j) by {
        lemma_perm_bits(spec_perm(x), j);
        lemma_perm_bits(x, j);
    }
    lemma_bit_ext(spec_inv_perm(spec_perm(x)), x);
}

/// The forward permutation also undoes the inverse permutation.
pub proof fn lemma_perm_roundtrip_rev(x: u64)
    ensures
        spec_perm(spec_inv_perm(x)) == x,
{
    assert forall|j: u64| j < 64 implies bit_at(spec_perm(spec_inv_perm(x)), j) == bit_at(x, j) by {
        let s = qbit(j);
        lemma_pbit_facts(j, j);
        assert(pbit(s) == j && s < 64);
        lemma_perm_bits(spec_inv_perm(x), s);
        lemma_perm_bits(x, s);
    }
    lemma_bit_ext(spec_perm(spec_inv_perm(x)), x);
}

/// Applies the PRESENT bit permutation: bit `i` of the input becomes bit
/// `pbit(i)` of the output.
pub fn permute_block(x: u64) -> (r: u64)
    ensures
        r == spec_perm(x),
{
    let mut out: u64 = 0;
    let mut k: usize = 0;
    while k < 64
        invariant
            k <= 64,
            out == perm_acc(x, k as nat),
        decreases 64 - k,
    {
        let new_idx: usize = (k % 4) * 16 + k / 4;
        proof {
            let kk: u64 = k as u64;
            assert(((k % 4) * 16 + k / 4) as u64 == (((kk % 4) * 16 + kk / 4) as u64))
                by (bit_vector)
                requires
                    kk == k as u64,
                    k < 64,
            ;
            assert(((x >> k) & 1) == bit_at(x, kk));
        }
        out = out | (((x >> k) & 1) << new_idx);
        k += 1;
    }
    out
}

/// Applies the inverse PRESENT bit permutation: bit `pbit(i)` of the
/// input returns to bit `i` of the output.
pub fn inv_permute_block(x: u64) -> (r: u64)
    ensures
        r == spec_inv_perm(x),
{
    let mut out: u64 = 0;
    let mut k: usize = 0;
    while k < 64
        invariant
            k <= 64,
            out == inv_perm_acc(x, k as nat),
        decreases 64 - k,
    {
        let src: usize = (k % 4) * 16 + k / 4;
        proof {
            let kk: u64 = k as u64;
            assert(((k % 4) * 16 + k / 4) as u64 == (((kk % 4) * 16 + kk / 4) as u64))
                by (bit_vector)
                requires
                    kk == k as u64,
                    k < 64,
            ;
            lemma_pbit_facts(kk, kk);
            assert(((x >> src) & 1) == bit_at(x, pbit(kk)));
        }
        out = out | (((x >> src) & 1) << k);
        k += 1;
    }
    out
}

/// One PRESENT round applied to a state: key mixing, substitution layer,
/// permutation layer.
pub open spec fn spec_present_round(s: u64, k: u64) -> u64 {
    spec_perm(spec_sbox_state(present_table(), s ^ k))
}

/// The 64-bit working register of the cipher.
pub struct StateT(pub u64);

impl StateT {
    /// XORs round key `round` of the schedule into the state.
    pub fn kxor_layer(&self, key: &KeyT, round: usize) -> (r: Self)
        requires
            round < key.keys@.len(),
        ensures
            r.0 == self.0 ^ key.keys@[round as int].high,
    {
        StateT(self.0 ^ key.subkey(round).round_key())
    }

    /// Applies the PRESENT sbox to every nibble of the state.
    pub fn sbox_layer(&self) -> (r: Self)
        ensures
            r.0 == spec_sbox_state(present_table(), self.0),
    {
        StateT(present_sbox().look_up_state(self.0))
    }

    /// Applies the PRESENT bit permutation to the state.
    pub fn perm_layer(&self) -> (r: Self)
        ensures
            r.0 == spec_perm(self.0),
    {
        StateT(permute_block(self.0))
    }

    /// Computes one full PRESENT round with round key `round`.
    pub fn round(&self, key: &KeyT, round: usize) -> (r: Self)
        requires
            round < key.keys@.len(),
        ensures
            r.0 == spec_present_round(self.0, key.keys@[round as int].high),
    {
        self.kxor_layer(key, round).sbox_layer().perm_layer()
    }
}

} // verus!
