//! The substitution box: a bijective table over nibbles, with point
//! lookup, whole-block parallel lookup, and algebraic inversion.

use vstd::prelude::*;
use crate::bits::{bit_at, nib_at, parity64, par_rec, lemma_or_nib, lemma_nib_ext,
    lemma_par_rec_bounded, lemma_par_rec_high_zero, lemma_small_high_bits_zero};
use vstd::set_lib::{set_int_range, lemma_int_range, lemma_len_subset, lemma_subset_equality};

verus! {

/// A well-formed sbox table: 16 entries, each a nibble, no two equal.
pub open spec fn sbox_wf(t: Seq<u64>) -> bool {
    &&& t.len() == 16
    &&& forall|i: int| 0 <= i < 16 ==> t[i] < 16
    &&& forall|i: int, j: int| 0 <= i < j < 16 ==> t[i] != t[j]
}

/// The PRESENT sbox as a sequence of nibbles.
pub open spec fn present_table() -> Seq<u64> {
    seq![0xc, 0x5, 0x6, 0xb, 0x9, 0x0, 0xa, 0xd, 0x3, 0xe, 0xf, 0x8, 0x4, 0x7, 0x1, 0x2]
}

/// Both nibbles of `idx` looked up independently and repacked.
pub open spec fn spec_look_up_byte(t: Seq<u64>, idx: u8) -> u64 {
    ((t[(idx >> 4) as int] & 0xf) << 4) | (t[(idx & 0xf) as int] & 0xf)
}

/// Accumulator for the parallel sbox application: the low `k` nibbles of
/// `x` substituted and reassembled, higher nibbles zero.
pub open spec fn sbox_state_acc(t: Seq<u64>, x: u64, k: nat) -> u64
    decreases k,
{
    if k == 0 {
        0
    } else {
        sbox_state_acc(t, x, (k - 1) as nat) | ((t[nib_at(x, (k - 1) as u64) as int] & 0xf) << ((4
            * (k - 1)) as u64))
    }
}

/// The sbox applied in parallel to all 16 nibbles of a 64-bit block.
pub open spec fn spec_sbox_state(t: Seq<u64>, x: u64) -> u64 {
    sbox_state_acc(t, x, 16)
}

proof fn lemma_low_nibble(a: u64)
    by (bit_vector)
    ensures
        a & 0xf < 16,
{
}

proof fn lemma_sbox_state_acc_nibs(t: Seq<u64>, x: u64, k: nat)
    requires
        k <= 16,
    ensures
        forall|j: u64| j < k ==> nib_at(sbox_state_acc(t, x, k), j) == t[nib_at(x, j) as int]
            & 0xf,
        forall|j: u64| k <= j < 16 ==> nib_at(sbox_state_acc(t, x, k), j) == 0,
    decreases k,
{
    if k == 0 {
        assert forall|j: u64| j < 16 implies nib_at(0, j) == 0 by {
            assert((0u64 >> ((4 * j) as u64)) & 0xf == 0) by (bit_vector);
        }
    } else {
        lemma_sbox_state_acc_nibs(t, x, (k - 1) as nat);
        let prev = sbox_state_acc(t, x, (k - 1) as nat);
        let kk: u64 = (k - 1) as u64;
        let v = t[nib_at(x, kk) as int] & 0xf;
        lemma_low_nibble(t[nib_at(x, kk) as int]);
        let res = prev | (v << ((4 * kk) as u64));
        assert forall|j: u64| j < 16 implies (#[trigger] nib_at(res, j)) == (if j < k {
            t[nib_at(x, j) as int] & 0xf
        } else {
            0u64
        }) by {
            lemma_or_nib(prev, v, kk, j);
        }
        assert(sbox_state_acc(t, x, k) == res);
    }
}

/// Nibble `j` of the substituted block is the substitution of nibble `j`
/// of the input.
pub proof fn lemma_sbox_state_nibs(t: Seq<u64>, x: u64, j: u64)
    requires
        j < 16,
    ensures
        nib_at(spec_sbox_state(t, x), j) == t[nib_at(x, j) as int] & 0xf,
{
    lemma_sbox_state_acc_nibs(t, x, 16);
}

/// `u` inverts `t`: looking up through `t` and then `u` gives the index
/// back.
pub open spec fn inverts(u: Seq<u64>, t: Seq<u64>) -> bool {
    &&& u.len() == 16
    &&& forall|i: int| 0 <= i < 16 ==> u[t[i] as int] == i
}

/// `v` occurs somewhere in the table.
pub open spec fn in_table(t: Seq<u64>, v: u64) -> bool {
    exists|i: int| 0 <= i < 16 && t[i] == v
}

/// A bijective sbox table reaches every nibble value: with 16 distinct
/// entries drawn from 16 possible values, each value occurs exactly once.
pub proof fn lemma_bijection_onto(t: Seq<u64>)
    requires
        sbox_wf(t),
    ensures
        forall|v: u64| v < 16 ==> #[trigger] in_table(t, v),
{
    let vals = t.map_values(|w: u64| w as int);
    assert(vals.no_duplicates());
    vals.unique_seq_to_set();
    let range = set_int_range(0, 16);
    lemma_int_range(0, 16);
    assert(vals.to_set().subset_of(range));
    lemma_len_subset(vals.to_set(), range);
    lemma_subset_equality(vals.to_set(), range);
    assert forall|v: u64| v < 16 implies #[trigger] in_table(t, v) by {
        assert(range.contains(v as int));
        assert(vals.to_set().contains(v as int));
        assert(vals.contains(v as int));
        let i = choose|i: int| 0 <= i < vals.len() && vals[i] == v as int;
        assert(t[i] == v);
    }
}

/// Every nibble extracted by `nib_at` is below 16.
pub proof fn lemma_nib_lt16(x: u64, i: u64)
    by (bit_vector)
    ensures
        (x >> ((4 * i) as u64)) & 0xf < 16,
{
}

/// Masking a nibble value with `0xf` leaves it unchanged.
pub proof fn lemma_mask16_noop(a: u64)
    by (bit_vector)
    ensures
        a < 16 ==> a & 0xf == a,
{
}

/// A table has at most one inverse.
pub proof fn lemma_inverts_unique(t: Seq<u64>, u1: Seq<u64>, u2: Seq<u64>)
    requires
        sbox_wf(t),
        inverts(u1, t),
        inverts(u2, t),
    ensures
        u1 =~= u2,
{
    lemma_bijection_onto(t);
    assert forall|p: int| 0 <= p < 16 implies u1[p] == u2[p] by {
        assert(in_table(t, p as u64));
        let q = choose|q: int| 0 <= q < 16 && t[q] == p as u64;
        assert(u1[t[q] as int] == q && u2[t[q] as int] == q);
    }
}

/// Applying an sbox and then its inverse in parallel over a block gives
/// the block back.
pub proof fn lemma_sbox_state_roundtrip(t: Seq<u64>, u: Seq<u64>, x: u64)
    requires
        sbox_wf(t),
        inverts(u, t),
    ensures
        spec_sbox_state(u, spec_sbox_state(t, x)) == x,
{
    let mid = spec_sbox_state(t, x);
    let out = spec_sbox_state(u, mid);
    assert forall|j: u64| j < 16 implies nib_at(out, j) == nib_at(x, j) by {
        lemma_sbox_state_nibs(t, x, j);
        lemma_sbox_state_nibs(u, mid, j);
        assert(nib_at(x, j) < 16) by {
            lemma_nib_lt16(x, j);
        }
        let i = nib_at(x, j) as int;
        assert(t[i] < 16);
        lemma_mask16_noop(t[i]);
        assert(nib_at(mid, j) == t[i]);
        assert(u[t[i] as int] == i);
        lemma_mask16_noop(nib_at(x, j));
        assert(nib_at(out, j) == u[t[i] as int] & 0xf);
        assert((i as u64) & 0xf == i as u64);
    }
    lemma_nib_ext(out, x);
}

/// Inverting an inverse gives the original table back.
pub proof fn lemma_inverse_involutive(t: Seq<u64>, u: Seq<u64>, w: Seq<u64>)
    requires
        sbox_wf(t),
        inverts(u, t),
        inverts(w, u),
    ensures
        w =~= t,
{
    assert forall|p: int| 0 <= p < 16 implies w[p] == t[p] by {
        assert(u[t[p] as int] == p);
        assert(w[u[t[p] as int] as int] == t[p]);
    }
}

/// The sbox: a table of 16 nibble values forming a bijection.
pub struct SboxT {
    s: [u8; 16],
}

impl SboxT {
    /// The table as a sequence of 64-bit values.
    pub closed spec fn tbl(&self) -> Seq<u64> {
        self.s@.map_values(|v: u8| v as u64)
    }

    /// The construction invariant: the table is a bijection on nibbles.
    pub open spec fn wf(&self) -> bool {
        sbox_wf(self.tbl())
    }

    /// Builds an sbox from a table, rejecting any table that is not a
    /// bijection on nibble values.
    pub fn new(ary: [u8; 16]) -> (r: Option<SboxT>)
        ensures
            r is Some <==> sbox_wf(ary@.map_values(|v: u8| v as u64)),
            r is Some ==> r.unwrap().tbl() == ary@.map_values(|v: u8| v as u64),
    {
        let ghost t = ary@.map_values(|v: u8| v as u64);
        let mut seen = [false;16];
        let mut i: usize = 0;
        while i < 16
            invariant
                i <= 16,
                t == ary@.map_values(|v: u8| v as u64),
                forall|j: int| 0 <= j < i ==> t[j] < 16,
                forall|j: int, k: int| 0 <= j < k < i ==> t[j] != t[k],
                forall|v: int| 0 <= v < 16 ==> (seen@[v] <==> exists|j: int|
                    0 <= j < i && t[j] == v),
            decreases 16 - i,
        {
            let v = ary[i];
            if v >= 16 {
                assert(t[i as int] >= 16);
                return None;
            }
            if seen[v as usize] {
                assert(exists|j: int| 0 <= j < i && t[j] == v as int);
                return None;
            }
            seen[v as usize] = true;
            i += 1;
        }
        Some(SboxT { s: ary })
    }

    /// Looks both nibbles of `idx` up in the table and repacks them into
    /// one byte.
    pub fn look_up_byte(&self, idx: u8) -> (r: u8)
        requires
            self.wf(),
        ensures
            r as u64 == spec_look_up_byte(self.tbl(), idx),
    {
        proof {
            assert(idx & 0xf < 16 && idx >> 4 < 16) by (bit_vector);
        }
        let lo = self.s[(idx & 0xf) as usize];
        let hi = self.s[(idx >> 4) as usize];
        proof {
            assert(self.tbl()[(idx & 0xf) as int] == lo as u64);
            assert(self.tbl()[(idx >> 4) as int] == hi as u64);
            assert(((hi as u64) < 16 && (lo as u64) < 16) ==> ((hi << 4) | lo) as u64 == (((
            hi as u64) & 0xf) << 4) | ((lo as u64) & 0xf)) by (bit_vector);
        }
        (hi << 4) | lo
    }

    /// Applies the sbox to every nibble of the 64-bit state in parallel.
    pub fn look_up_state(&self, idx: u64) -> (r: u64)
        requires
            self.wf(),
        ensures
            r == spec_sbox_state(self.tbl(), idx),
    {
        let mut out: u64 = 0;
        let mut i: usize = 0;
        while i < 16
            invariant
                i <= 16,
                self.wf(),
                out == sbox_state_acc(self.tbl(), idx, i as nat),
            decreases 16 - i,
        {
            let sh: usize = 4 * i;
            let nib = ((idx >> sh) & 0xf) as usize;
            proof {
                assert((idx >> ((4 * (i as u64)) as u64)) & 0xf < 16) by (bit_vector);
                assert(nib_at(idx, i as u64) == (idx >> sh) & 0xf);
                assert(self.tbl()[nib_at(idx, i as u64) as int] == self.s@[nib_at(
                    idx,
                    i as u64,
                ) as int] as u64);
                let e = self.tbl()[nib_at(idx, i as u64) as int];
                assert(e < 16 ==> e & 0xf == e) by (bit_vector);
            }
            out = out | ((self.s[nib] as u64) << sh);
            i += 1;
        }
        out
    }

    /// The algebraic inverse: a table `r` with `r[self[i]] == i` for every
    /// nibble `i`.
    pub fn inverse(&self) -> (r: SboxT)
        requires
            self.wf(),
        ensures
            r.wf(),
            inverts(r.tbl(), self.tbl()),
    {
        proof {
            lemma_bijection_onto(self.tbl());
        }
        let mut a = [0u8;16];
        let mut i: usize = 0;
        while i < 16
            invariant
                i <= 16,
                self.wf(),
                forall|j: int| 0 <= j < i ==> a@[self.tbl()[j] as int] == j,
            decreases 16 - i,
        {
            let v = self.s[i];
            assert(self.tbl()[i as int] == v as u64);
            assert(v < 16);
            a[v as usize] = i as u8;
            assert forall|j: int| 0 <= j < i + 1 implies a@[self.tbl()[j] as int] == j by {
                if j < i {
                    assert(self.tbl()[j] != self.tbl()[i as int]);
                }
            }
            i += 1;
        }
        let r = SboxT { s: a };
        proof {
            assert forall|p: int| 0 <= p < 16 implies r.tbl()[p] < 16 by {
                assert(in_table(self.tbl(), p as u64));
                let q = choose|q: int| 0 <= q < 16 && self.tbl()[q] == p as u64;
                assert(r.tbl()[self.tbl()[q] as int] == q);
            }
            assert forall|p: int, q: int| 0 <= p < q < 16 implies r.tbl()[p] != r.tbl()[q] by {
                assert(in_table(self.tbl(), p as u64));
                assert(in_table(self.tbl(), q as u64));
                let ip = choose|ip: int| 0 <= ip < 16 && self.tbl()[ip] == p as u64;
                let iq = choose|iq: int| 0 <= iq < 16 && self.tbl()[iq] == q as u64;
                assert(r.tbl()[self.tbl()[ip] as int] == ip);
                assert(r.tbl()[self.tbl()[iq] as int] == iq);
                if ip == iq {
                    assert(p == q);
                }
            }
        }
        r
    }
}

impl SboxT {
    /// Computes the linear approximation table of this sbox by the fast
    /// in-place Walsh-Hadamard transform, one butterfly per output mask.
    /// Entries are raw Walsh coefficients; the table's bias view halves
    /// them.
    pub fn walsh_transform(&self) -> (lat: crate::walsh::LAT)
        requires
            self.wf(),
        ensures
            lat.wf(),
            lat.size() == 16,
            forall|a: int, b: int| 0 <= a < 16 && 0 <= b < 16 ==> #[trigger] lat.m()[a][b]
                == crate::walsh::spec_lat(self.tbl(), a as u64, b as u64),
    {
        let mut t: Vec<u64> = Vec::new();
        let mut i: usize = 0;
        while i < 16
            invariant
                i <= 16,
                self.wf(),
                t@.len() == i,
                forall|j: int| 0 <= j < i ==> t@[j] == self.tbl()[j],
            decreases 16 - i,
        {
            t.push(self.s[i] as u64);
            i += 1;
        }
        proof {
            assert(t@ =~= self.tbl());
            vstd::arithmetic::power2::lemma2_to64();
        }
        crate::walsh::walsh_transform_table(&t, Ghost(4))
    }
}

/// Returns the PRESENT sbox.
pub fn present_sbox() -> (r: SboxT)
    ensures
        r.wf(),
        r.tbl() == present_table(),
{
    let s = SboxT {
        s: [0xc, 0x5, 0x6, 0xb, 0x9, 0x0, 0xa, 0xd, 0x3, 0xe, 0xf, 0x8, 0x4, 0x7, 0x1, 0x2],
    };
    proof {
        assert(s.tbl() =~= present_table());
        lemma_present_table_wf();
    }
    s
}

/// The PRESENT table is a bijection on nibbles.
pub proof fn lemma_present_table_wf()
    ensures
        sbox_wf(present_table()),
{
    let t = present_table();
    assert(t.len() == 16);
    assert(forall|i: int| 0 <= i < 16 ==> t[i] < 16);
    assert(forall|i: int, j: int| 0 <= i < j < 16 ==> t[i] != t[j]);
}

/// Parity of the bitwise AND of two bytes: the F2 dot product.
pub fn dot_product_f2(a: u8, b: u8) -> (r: u8)
    ensures
        r as u64 == parity64((a & b) as u64),
        r <= 1,
{
    let ghost ab = (a & b) as u64;
    let mut x: u8 = 0;
    let mut i: usize = 0;
    while i < 8
        invariant
            i <= 8,
            ab == (a & b) as u64,
            x as u64 == par_rec(ab, i as nat),
        decreases 8 - i,
    {
        let d = ((a >> i) & (b >> i)) & 1;
        proof {
            assert((((a >> i) & (b >> i)) & 1) as u64 == (((a & b) as u64) >> (i as u64)) & 1)
                by (bit_vector);
            let k: u64 = i as u64;
            let p = par_rec(ab, i as nat);
            lemma_par_rec_bounded(ab, i as nat);
            assert((p <= 1 && d as u64 == (ab >> k) & 1 && x as u64 == p) ==> (x ^ d) as u64 == p
                ^ ((ab >> k) & 1)) by (bit_vector);
        }
        x = x ^ d;
        i += 1;
    }
    proof {
        assert forall|k: u64| 8 <= k < 64 implies bit_at(ab, k) == 0 by {
            assert(ab < 256);
            assert(ab < (1u64 << 8)) by (bit_vector)
                requires
                    ab < 256,
            ;
            lemma_small_high_bits_zero(ab, 8, k);
        }
        lemma_par_rec_high_zero(ab, 8, 64);
        lemma_par_rec_bounded(ab, 64);
    }
    x
}

} // verus!
