//! The linear analysis engine, written against trait-level descriptions
//! of a substitution-permutation cipher: a parallel sbox layer and a bit
//! permutation layer. The engine computes the linear approximation table,
//! builds the one-round one-bit-trail transfer matrix, and counts trails
//! over many rounds by matrix exponentiation.

use vstd::prelude::*;
use crate::walsh::{LAT, spec_lat, walsh_transform_table, biased_one_bit, one_bit_mask};
use crate::matrix::{TrailMatrix, spec_mat_pow, mat_fits};
use vstd::arithmetic::power2::pow2;

verus! {

/// A substitution box applied in parallel across the whole cipher state.
pub trait Sbox<T>: Sized {
    /// The substitution table this implementation realizes.
    spec fn table() -> Seq<u64>;

    /// The instance is a faithful copy of the table.
    spec fn wf(&self) -> bool;

    /// What applying the sbox in parallel to a whole state yields.
    spec fn spec_lookup_state(s: T) -> T;

    /// The width of the cipher state in bits.
    spec fn spec_state_size() -> usize;

    /// The table is a bijection on a bounded power-of-two domain.
    proof fn properties()
        ensures
            exists|e: nat| e <= 15 && Self::table().len() == pow2(e),
            forall|i: int| 0 <= i < Self::table().len() ==> #[trigger] Self::table()[i] < Self::table().len(),
            forall|i: int, j: int| 0 <= i < j < Self::table().len() ==> Self::table()[i]
                != Self::table()[j],
    ;

    /// A fresh instance of the fixed sbox description.
    fn new() -> (r: Self)
        ensures
            r.wf(),
    ;

    /// The domain size of the table.
    fn len(&self) -> (n: usize)
        requires
            self.wf(),
        ensures
            n == Self::table().len(),
    ;

    /// Point lookup of one table entry.
    fn lookup(&self, i: usize) -> (r: usize)
        requires
            self.wf(),
            i < Self::table().len(),
        ensures
            r as u64 == Self::table()[i as int],
    ;

    /// Applies the sbox to every group of the state in parallel.
    fn lookup_state(&self, s: T) -> (r: T)
        requires
            self.wf(),
        ensures
            r == Self::spec_lookup_state(s),
    ;

    /// The width of the cipher state in bits.
    fn state_size() -> (n: usize)
        ensures
            n == Self::spec_state_size(),
    ;
}

/// A permutation of bit positions over the cipher state.
pub trait BitPerm<T>: Sized {
    /// The destination bit of each source bit.
    spec fn table() -> Seq<usize>;

    /// The instance is a faithful copy of the table.
    spec fn wf(&self) -> bool;

    /// What applying the permutation to a whole state yields.
    spec fn spec_lookup_state(s: T) -> T;

    /// The width of the cipher state in bits.
    spec fn spec_state_size() -> usize;

    /// Destinations stay inside the state.
    proof fn properties()
        ensures
            Self::table().len() == Self::spec_state_size(),
            forall|i: int| 0 <= i < Self::table().len() ==> #[trigger] Self::table()[i]
                < Self::table().len(),
    ;

    /// A fresh instance of the fixed permutation description.
    fn new() -> (r: Self)
        ensures
            r.wf(),
    ;

    /// The destination bit position of source bit `i`.
    fn at(&self, i: usize) -> (r: usize)
        requires
            self.wf(),
            i < Self::table().len(),
        ensures
            r == Self::table()[i as int],
    ;

    /// Applies the permutation to a whole state.
    fn lookup_state(&self, s: T) -> (r: T)
        requires
            self.wf(),
        ensures
            r == Self::spec_lookup_state(s),
    ;

    /// The width of the cipher state in bits.
    fn state_size() -> (n: usize)
        ensures
            n == Self::spec_state_size(),
    ;
}

/// Computes the linear approximation table of the sbox of `S` by the
/// Walsh-Hadamard transform.
pub fn walsh_transform<T, S: Sbox<T>>() -> (lat: LAT)
    ensures
        lat.wf(),
        lat.size() == S::table().len(),
        lat.size() <= 32768,
        forall|a: int, b: int| 0 <= a < lat.size() && 0 <= b < lat.size() ==> #[trigger] lat.m(
        )[a][b] == spec_lat(S::table(), a as u64, b as u64),
{
    let s = S::new();
    let n = s.len();
    let mut t: Vec<u64> = Vec::new();
    let mut i: usize = 0;
    while i < n
        invariant
            i <= n,
            s.wf(),
            n == S::table().len(),
            t@.len() == i,
            forall|j: int| 0 <= j < i ==> t@[j] == S::table()[j],
        decreases n - i,
    {
        let v = s.lookup(i);
        t.push(v as u64);
        i += 1;
    }
    proof {
        assert(t@ =~= S::table());
        S::properties();
    }
    let ghost k: nat = choose|e: nat| e <= 15 && S::table().len() == pow2(e);
    proof {
        vstd::arithmetic::power2::lemma2_to64();
        vstd::arithmetic::power2::lemma_pow2_strictly_increases(k, 16);
    }
    walsh_transform_table(&t, Ghost(k))
}

/// One entry of the one-round transfer matrix: 1 exactly when a one-bit
/// linear approximation enters the sbox group of global bit `i`, leaves
/// on some single output bit of that group with nonzero correlation, and
/// the permutation carries that output bit to global bit `j`.
pub open spec fn transfer_entry(t: Seq<u64>, p: Seq<usize>, i: int, j: int) -> int {
    if exists|l: nat|
        l < 4 && #[trigger] spec_lat(t, pow2((i % 4) as nat) as u64, pow2(l) as u64) != 0 && p[(i
            / 4) * 4 + l] == j {
        1int
    } else {
        0int
    }
}

/// The one-round one-bit-trail transfer matrix over all state bits.
pub open spec fn spec_transfer(t: Seq<u64>, p: Seq<usize>, nbits: int) -> Seq<Seq<int>> {
    Seq::new(nbits as nat, |i: int| Seq::new(nbits as nat, |j: int| transfer_entry(t, p, i, j)))
}

/// Whether entry `bi` of the biased-mask list carries a one-bit
/// approximation from global bit `i` to global bit `j`.
pub open spec fn mask_sends(
    masks: Seq<(usize, usize, i32)>,
    p: Seq<usize>,
    i: int,
    j: int,
    bi: int,
) -> bool {
    let (a, b, v) = masks[bi];
    &&& a as int == pow2((i % 4) as nat)
    &&& exists|lg: nat| lg < 4 && b as int == pow2(lg) && p[(i / 4) * 4 + lg] == j
}

/// Whether some entry of the list prefix of length `upto` sends bit `i`
/// to bit `j`.
pub open spec fn prefix_hit(
    masks: Seq<(usize, usize, i32)>,
    p: Seq<usize>,
    i: int,
    j: int,
    upto: int,
) -> bool {
    exists|bi: int| 0 <= bi < upto && #[trigger] mask_sends(masks, p, i, j, bi)
}

/// The base-two logarithm of a single-bit nibble mask.
fn log2_nibble_mask(b: usize) -> (lg: usize)
    requires
        one_bit_mask(b as int, 16),
    ensures
        lg < 4,
        b as int == pow2(lg as nat),
{
    proof {
        vstd::arithmetic::power2::lemma2_to64();
        let e = choose|e: nat| b as int == pow2(e) && (b as int) < 16;
        if e > 4 {
            vstd::arithmetic::power2::lemma_pow2_strictly_increases(4, e);
        }
        if e >= 4 {
            assert(pow2(e) >= 16);
            assert(false);
        }
        assert(b == 1 || b == 2 || b == 4 || b == 8);
    }
    if b == 1 {
        0
    } else if b == 2 {
        1
    } else if b == 4 {
        2
    } else {
        3
    }
}

proof fn lemma_group_bit_facts(i: int, nbits: int)
    requires
        0 <= i < nbits,
        nbits % 4 == 0,
    ensures
        0 <= (i / 4) * 4 <= i,
        (i / 4) * 4 + 4 <= nbits,
        0 <= i % 4 < 4,
{
    vstd::arithmetic::div_mod::lemma_fundamental_div_mod(i, 4);
    vstd::arithmetic::div_mod::lemma_fundamental_div_mod(nbits, 4);
    let q = i / 4;
    assert(i == 4 * q + i % 4);
    let qn = nbits / 4;
    assert(nbits == 4 * qn);
    assert(q < qn) by (nonlinear_arith)
        requires
            i == 4 * q + i % 4 && nbits == 4 * qn && i < nbits && 0 <= i % 4 < 4,
    ;
    assert(q * 4 + 4 <= qn * 4) by (nonlinear_arith)
        requires
            q < qn,
    ;
    assert(q * 4 == 4 * q);
    assert(qn * 4 == 4 * qn);
}

/// Builds the one-round transfer matrix from the biased one-bit masks of
/// the sbox of `S` and the permutation of `P`, and raises it to the
/// `rounds`-th power by repeated squaring.
fn state_graph<T, S: Sbox<T>, P: BitPerm<T>>(rounds: usize) -> (r: Option<TrailMatrix>)
    requires
        S::table().len() == 16,
        P::spec_state_size() == S::spec_state_size(),
        S::spec_state_size() % 4 == 0,
        4 <= S::spec_state_size(),
        S::spec_state_size() * S::spec_state_size() < usize::MAX,
    ensures
        ({
            let nb = S::spec_state_size() as int;
            let tm = spec_transfer(S::table(), P::table(), nb);
            match r {
                Some(m) => {
                    &&& m.wf()
                    &&& m.n == S::spec_state_size()
                    &&& m.m() == spec_mat_pow(tm, nb, rounds as nat)
                },
                None => exists|s: nat| 1 <= s <= rounds && !mat_fits(spec_mat_pow(tm, nb, s), nb),
            }
        }),
{
    let ghost tt = S::table();
    let ghost pt = P::table();
    let lat = walsh_transform::<T, S>();
    let masks = biased_one_bit(&lat);
    let p = P::new();
    let nbits = S::state_size();
    proof {
        P::properties();
        vstd::arithmetic::power2::lemma2_to64();
    }
    let ghost nb = nbits as int;
    let mut m = TrailMatrix::zero(nbits);
    let mut i: usize = 0;
    while i < nbits
        invariant
            i <= nbits,
            nbits == S::spec_state_size(),
            nb == nbits as int,
            nbits % 4 == 0,
            4 <= nbits,
            nbits * nbits < usize::MAX,
            tt == S::table(),
            pt == P::table(),
            tt.len() == 16,
            pt.len() == nbits,
            forall|q: int| 0 <= q < pt.len() ==> #[trigger] pt[q] < nbits,
            p.wf(),
            lat.wf(),
            lat.size() == 16,
            forall|a: int, b: int| 0 <= a < 16 && 0 <= b < 16 ==> #[trigger] lat.m()[a][b]
                == spec_lat(tt, a as u64, b as u64),
            forall|idx: int| 0 <= idx < masks@.len() ==> {
                let (a, b, v) = #[trigger] masks@[idx];
                &&& one_bit_mask(a as int, 16)
                &&& one_bit_mask(b as int, 16)
                &&& v as int == lat.m()[a as int][b as int]
                &&& v != 0
            },
            forall|a: int, b: int| one_bit_mask(a, 16) && one_bit_mask(b, 16) && lat.m()[a][b]
                != 0 ==> exists|idx: int| 0 <= idx < masks@.len() && #[trigger] masks@[idx] == (
            a as usize, b as usize, lat.m()[a][b] as i32),
            m.wf(),
            m.n == nbits,
            forall|i2: int, j2: int| 0 <= i2 < i && 0 <= j2 < nb ==> #[trigger] m.m()[i2][j2]
                == transfer_entry(tt, pt, i2, j2),
            forall|i2: int, j2: int| i <= i2 < nb && 0 <= j2 < nb ==> #[trigger] m.m()[i2][j2]
                == 0,
        decreases nbits - i,
    {
        let mut bi: usize = 0;
        while bi < masks.len()
            invariant
                i < nbits,
                nbits == S::spec_state_size(),
                nb == nbits as int,
                nbits % 4 == 0,
                4 <= nbits,
                nbits * nbits < usize::MAX,
                tt == S::table(),
                pt == P::table(),
                tt.len() == 16,
                pt.len() == nbits,
                forall|q: int| 0 <= q < pt.len() ==> #[trigger] pt[q] < nbits,
                p.wf(),
                lat.wf(),
                lat.size() == 16,
                bi <= masks@.len(),
                forall|a: int, b: int| 0 <= a < 16 && 0 <= b < 16 ==> #[trigger] lat.m()[a][b]
                    == spec_lat(tt, a as u64, b as u64),
                forall|idx: int| 0 <= idx < masks@.len() ==> {
                    let (a, b, v) = #[trigger] masks@[idx];
                    &&& one_bit_mask(a as int, 16)
                    &&& one_bit_mask(b as int, 16)
                    &&& v as int == lat.m()[a as int][b as int]
                    &&& v != 0
                },
                forall|a: int, b: int| one_bit_mask(a, 16) && one_bit_mask(b, 16) && lat.m(
                )[a][b] != 0 ==> exists|idx: int| 0 <= idx < masks@.len() && #[trigger] masks@[idx]
                    == (a as usize, b as usize, lat.m()[a][b] as i32),
                m.wf(),
                m.n == nbits,
                forall|i2: int, j2: int| 0 <= i2 < i && 0 <= j2 < nb ==> #[trigger] m.m()[i2][j2]
                    == transfer_entry(tt, pt, i2, j2),
                forall|j2: int| 0 <= j2 < nb ==> #[trigger] m.m()[i as int][j2] == (if prefix_hit(
                    masks@,
                    pt,
                    i as int,
                    j2,
                    bi as int,
                ) {
                    1int
                } else {
                    0int
                }),
                forall|i2: int, j2: int| i < i2 < nb && 0 <= j2 < nb ==> #[trigger] m.m()[i2][j2]
                    == 0,
            decreases masks@.len() - bi,
        {
            let (a, b, _v) = masks[bi];
            proof {
                lemma_group_bit_facts(i as int, nb);
            }
            let gmask: usize = 1usize << (i % 4);
            proof {
                vstd::arithmetic::power2::lemma2_to64();
                let r4: usize = i % 4;
                assert(r4 == 0 || r4 == 1 || r4 == 2 || r4 == 3);
                assert(1usize << 0usize == 1 && 1usize << 1usize == 2 && 1usize << 2usize == 4
                    && 1usize << 3usize == 8) by (bit_vector);
                assert(gmask as int == pow2((i % 4) as nat));
            }
            if a == gmask {
                let lg = log2_nibble_mask(b);
                let dst = (i / 4) * 4 + lg;
                proof {
                    assert((i / 4) as int == (i as int) / 4 && (i % 4) as int == (i as int)
                        % 4);
                    assert(dst < nbits);
                }
                let c = p.at(dst);
                let ghost pre = m.m();
                m.set(i, c, 1);
                proof {
                    let (ga, gb, gv) = masks@[bi as int];
                    assert(mask_sends(masks@, pt, i as int, c as int, bi as int)) by {
                        assert(gb as int == pow2(lg as nat) && (lg as nat) < 4 && pt[(i as int)
                            / 4 * 4 + lg as nat] == c as int);
                    }
                    assert forall|j2: int| 0 <= j2 < nb implies #[trigger] m.m()[i as int][j2]
                        == (if prefix_hit(masks@, pt, i as int, j2, bi + 1) {
                        1int
                    } else {
                        0int
                    }) by {
                        if j2 == c as int {
                            assert(prefix_hit(masks@, pt, i as int, j2, bi + 1));
                        } else {
                            assert(m.m()[i as int][j2] == pre[i as int][j2]);
                            if prefix_hit(masks@, pt, i as int, j2, bi + 1) {
                                let w = choose|w: int|
                                    0 <= w < bi + 1 && mask_sends(masks@, pt, i as int, j2, w);
                                if w == bi as int {
                                    let lg2 = choose|lg2: nat|
                                        lg2 < 4 && gb as int == pow2(lg2) && pt[(i as int) / 4 * 4
                                            + lg2] == j2;
                                    if lg2 < lg as nat {
                                        vstd::arithmetic::power2::lemma_pow2_strictly_increases(
                                            lg2,
                                            lg as nat,
                                        );
                                    }
                                    if lg2 > lg as nat {
                                        vstd::arithmetic::power2::lemma_pow2_strictly_increases(
                                            lg as nat,
                                            lg2,
                                        );
                                    }
                                    assert(lg2 == lg as nat);
                                    assert(j2 == c as int);
                                    assert(false);
                                }
                                assert(prefix_hit(masks@, pt, i as int, j2, bi as int));
                            }
                            if prefix_hit(masks@, pt, i as int, j2, bi as int) {
                                let w = choose|w: int|
                                    0 <= w < bi && mask_sends(masks@, pt, i as int, j2, w);
                                assert(prefix_hit(masks@, pt, i as int, j2, bi + 1));
                            }
                        }
                    }
                }
            } else {
                proof {
                    assert forall|j2: int| 0 <= j2 < nb implies #[trigger] m.m()[i as int][j2]
                        == (if prefix_hit(masks@, pt, i as int, j2, bi + 1) {
                        1int
                    } else {
                        0int
                    }) by {
                        if prefix_hit(masks@, pt, i as int, j2, bi + 1) {
                            let w = choose|w: int|
                                0 <= w < bi + 1 && mask_sends(masks@, pt, i as int, j2, w);
                            if w == bi as int {
                                assert(a as int == pow2((i as int % 4) as nat));
                                assert(false);
                            }
                            assert(prefix_hit(masks@, pt, i as int, j2, bi as int));
                        }
                        if prefix_hit(masks@, pt, i as int, j2, bi as int) {
                            let w = choose|w: int|
                                0 <= w < bi && mask_sends(masks@, pt, i as int, j2, w);
                            assert(prefix_hit(masks@, pt, i as int, j2, bi + 1));
                        }
                    }
                }
            }
            bi += 1;
        }
        proof {
            assert forall|j2: int| 0 <= j2 < nb implies #[trigger] m.m()[i as int][j2]
                == transfer_entry(tt, pt, i as int, j2) by {
                lemma_group_bit_facts(i as int, nb);
                vstd::arithmetic::power2::lemma2_to64();
                if prefix_hit(masks@, pt, i as int, j2, masks@.len() as int) {
                    let w = choose|w: int|
                        0 <= w < masks@.len() && mask_sends(masks@, pt, i as int, j2, w);
                    let (a, b, v) = masks@[w];
                    let lg = choose|lg: nat|
                        lg < 4 && b as int == pow2(lg) && pt[(i as int) / 4 * 4 + lg] == j2;
                    assert(v as int == lat.m()[a as int][b as int]);
                    assert(lat.m()[a as int][b as int] == spec_lat(tt, a as u64, b as u64));
                    assert(a as u64 == pow2((i as int % 4) as nat) as u64);
                    assert(b as u64 == pow2(lg) as u64);
                    assert(spec_lat(tt, pow2((i as int % 4) as nat) as u64, pow2(lg) as u64)
                        != 0);
                    assert(transfer_entry(tt, pt, i as int, j2) == 1);
                } else {
                    if transfer_entry(tt, pt, i as int, j2) == 1 {
                        let l = choose|l: nat|
                            l < 4 && #[trigger] spec_lat(
                                tt,
                                pow2((i as int % 4) as nat) as u64,
                                pow2(l) as u64,
                            ) != 0 && pt[(i as int) / 4 * 4 + l] == j2;
                        vstd::arithmetic::power2::lemma_pow2_strictly_increases((i as int % 4) as nat, 4);
                        vstd::arithmetic::power2::lemma_pow2_strictly_increases(l, 4);
                        let am: int = pow2((i as int % 4) as nat) as int;
                        let bm: int = pow2(l) as int;
                        assert(one_bit_mask(am, 16));
                        assert(one_bit_mask(bm, 16));
                        assert(lat.m()[am][bm] == spec_lat(tt, am as u64, bm as u64));
                        assert(am as u64 == pow2((i as int % 4) as nat) as u64);
                        assert(lat.m()[am][bm] != 0);
                        let idx = choose|idx: int|
                            0 <= idx < masks@.len() && masks@[idx] == (
                            am as usize,
                            bm as usize,
                            lat.m()[am][bm] as i32,
                            );
                        assert(mask_sends(masks@, pt, i as int, j2, idx)) by {
                            assert(masks@[idx].0 as int == am);
                            assert(masks@[idx].1 as int == pow2(l));
                        }
                        assert(false);
                    }
                }
            }
        }
        i += 1;
    }
    proof {
        assert(m.m() =~~= spec_transfer(tt, pt, nb));
    }
    m.pow(rounds)
}

/// The largest trail count reached by any one-bit mask pair after the
/// given number of rounds, or `None` when a trail count overflows 64
/// bits.
pub fn number_one_bit_trails<T, S: Sbox<T>, P: BitPerm<T>>(rounds: usize) -> (r: Option<u64>)
    requires
        S::table().len() == 16,
        P::spec_state_size() == S::spec_state_size(),
        S::spec_state_size() % 4 == 0,
        4 <= S::spec_state_size(),
        S::spec_state_size() * S::spec_state_size() < usize::MAX,
    ensures
        ({
            let nb = S::spec_state_size() as int;
            let powm = spec_mat_pow(
                spec_transfer(S::table(), P::table(), nb),
                nb,
                rounds as nat,
            );
            match r {
                Some(v) => {
                    &&& exists|i: int, j: int| 0 <= i < nb && 0 <= j < nb && #[trigger] powm[i][j]
                        == v as int
                    &&& forall|i: int, j: int| 0 <= i < nb && 0 <= j < nb ==> #[trigger] powm[i][j]
                        <= v as int
                },
                None => exists|s: nat| 1 <= s <= rounds && !mat_fits(
                    spec_mat_pow(spec_transfer(S::table(), P::table(), nb), nb, s),
                    nb,
                ),
            }
        }),
{
    let mat = match state_graph::<T, S, P>(rounds) {
        Some(m) => m,
        None => {
            return None;
        },
    };
    let n = mat.size();
    let mut max: u64 = mat.get(0, 0);
    let ghost mut mi: int = 0;
    let ghost mut mj: int = 0;
    let mut i: usize = 0;
    while i < n
        invariant
            i <= n,
            mat.wf(),
            mat.n == n,
            n >= 1,
            0 <= mi < n,
            0 <= mj < n,
            max as int == mat.m()[mi][mj],
            forall|i2: int, j2: int| 0 <= i2 < i && 0 <= j2 < n ==> #[trigger] mat.m()[i2][j2]
                <= max as int,
        decreases n - i,
    {
        let mut j: usize = 0;
        while j < n
            invariant
                i < n,
                j <= n,
                mat.wf(),
                mat.n == n,
                0 <= mi < n,
                0 <= mj < n,
                max as int == mat.m()[mi][mj],
                forall|i2: int, j2: int| 0 <= i2 < i && 0 <= j2 < n ==> #[trigger] mat.m(
                )[i2][j2] <= max as int,
                forall|j2: int| 0 <= j2 < j ==> #[trigger] mat.m()[i as int][j2] <= max as int,
            decreases n - j,
        {
            let v = mat.get(i, j);
            if v > max {
                max = v;
                proof {
                    mi = i as int;
                    mj = j as int;
                }
            }
            j += 1;
        }
        i += 1;
    }
    Some(max)
}

/// All mask-pair positions with a nonzero trail count after the given
/// number of rounds, or `None` when a trail count overflows 64 bits.
pub fn all_combinations<T, S: Sbox<T>, P: BitPerm<T>>(rounds: usize) -> (r: Option<
    Vec<(usize, usize)>,
>)
    requires
        S::table().len() == 16,
        P::spec_state_size() == S::spec_state_size(),
        S::spec_state_size() % 4 == 0,
        4 <= S::spec_state_size(),
        S::spec_state_size() * S::spec_state_size() < usize::MAX,
    ensures
        ({
            let nb = S::spec_state_size() as int;
            let powm = spec_mat_pow(
                spec_transfer(S::table(), P::table(), nb),
                nb,
                rounds as nat,
            );
            match r {
                Some(v) => {
                    &&& forall|idx: int| 0 <= idx < v@.len() ==> {
                        let (i, j) = #[trigger] v@[idx];
                        &&& (i as int) < nb
                        &&& (j as int) < nb
                        &&& powm[i as int][j as int] != 0
                    }
                    &&& forall|i: int, j: int| 0 <= i < nb && 0 <= j < nb && #[trigger] powm[i][j]
                        != 0 ==> v@.contains((i as usize, j as usize))
                    &&& forall|i1: int, i2: int| 0 <= i1 < i2 < v@.len() ==> v@[i1] != v@[i2]
                },
                None => exists|s: nat| 1 <= s <= rounds && !mat_fits(
                    spec_mat_pow(spec_transfer(S::table(), P::table(), nb), nb, s),
                    nb,
                ),
            }
        }),
{
    let mat = match state_graph::<T, S, P>(rounds) {
        Some(m) => m,
        None => {
            return None;
        },
    };
    let n = mat.size();
    let mut result: Vec<(usize, usize)> = Vec::new();
    let mut i: usize = 0;
    while i < n
        invariant
            i <= n,
            mat.wf(),
            mat.n == n,
            forall|idx: int| 0 <= idx < result@.len() ==> {
                let (a, b) = #[trigger] result@[idx];
                &&& (a as int) < n
                &&& (b as int) < n
                &&& mat.m()[a as int][b as int] != 0
            },
            forall|i2: int, j2: int| 0 <= i2 < i && 0 <= j2 < n && #[trigger] mat.m()[i2][j2]
                != 0 ==> result@.contains((i2 as usize, j2 as usize)),
            forall|idx: int| 0 <= idx < result@.len() ==> ((#[trigger] result@[idx]).0 as int) < i,
            forall|i1: int, i2: int| 0 <= i1 < i2 < result@.len() ==> result@[i1] != result@[i2],
        decreases n - i,
    {
        let mut j: usize = 0;
        while j < n
            invariant
                i < n,
                j <= n,
                mat.wf(),
                mat.n == n,
                forall|idx: int| 0 <= idx < result@.len() ==> {
                    let (a, b) = #[trigger] result@[idx];
                    &&& (a as int) < n
                    &&& (b as int) < n
                    &&& mat.m()[a as int][b as int] != 0
                },
                forall|i2: int, j2: int| 0 <= i2 < i && 0 <= j2 < n && #[trigger] mat.m(
                )[i2][j2] != 0 ==> result@.contains((i2 as usize, j2 as usize)),
                forall|j2: int| 0 <= j2 < j && #[trigger] mat.m()[i as int][j2] != 0 ==> result@.contains(
                    (i as usize, j2 as usize),
                ),
                forall|idx: int| 0 <= idx < result@.len() ==> ((#[trigger] result@[idx]).0 as int)
                    < i || ((result@[idx].0 as int) == i && (result@[idx].1 as int) < j),
                forall|i1: int, i2: int| 0 <= i1 < i2 < result@.len() ==> result@[i1]
                    != result@[i2],
            decreases n - j,
        {
            let v = mat.get(i, j);
            let ghost pre = result@;
            if v != 0 {
                result.push((i, j));
                proof {
                    assert forall|i1: int, i2: int| 0 <= i1 < i2 < result@.len() implies result@[i1]
                        != result@[i2] by {
                        if i2 == result@.len() - 1 {
                            assert(result@[i1] == pre[i1]);
                            assert(((result@[i1].0 as int) < i) || ((result@[i1].0 as int) == i
                                && (result@[i1].1 as int) < j));
                        } else {
                            assert(result@[i1] == pre[i1] && result@[i2] == pre[i2]);
                        }
                    }
                }
            }
            proof {
                assert forall|i2: int, j2: int|
                    0 <= i2 < i && 0 <= j2 < n && #[trigger] mat.m()[i2][j2] != 0 implies result@.contains(
                    (i2 as usize, j2 as usize),
                ) by {
                    let idx = choose|idx: int|
                        0 <= idx < pre.len() && pre[idx] == (i2 as usize, j2 as usize);
                    assert(result@[idx] == pre[idx]);
                }
                assert forall|j2: int|
                    0 <= j2 < j + 1 && #[trigger] mat.m()[i as int][j2] != 0 implies result@.contains(
                    (i as usize, j2 as usize),
                ) by {
                    if j2 < j {
                        let idx = choose|idx: int|
                            0 <= idx < pre.len() && pre[idx] == (i as usize, j2 as usize);
                        assert(result@[idx] == pre[idx]);
                    } else {
                        assert(result@[result@.len() - 1] == (i, j));
                    }
                }
            }
            j += 1;
        }
        i += 1;
    }
    Some(result)
}

} // verus!
