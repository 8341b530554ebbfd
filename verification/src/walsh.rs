//! The Walsh-Hadamard transform and the linear approximation table: the
//! fast in-place butterfly, its proof against the defining correlation
//! sum, and the extraction of biased one-bit mask pairs.

use vstd::prelude::*;
use crate::bits::{parity64, par_rec, bit_at, lemma_par_rec_bounded, lemma_par_rec_high_zero};
use crate::sums::{sum, lemma_sum_ext, lemma_sum_split};
use vstd::arithmetic::power2::pow2;

verus! {

/// The sign `(-1)^p` for a parity bit `p`.
pub open spec fn pm1(p: u64) -> int {
    1 - 2 * (p as int)
}

/// The sign contributed by masks `a` and `x`: `(-1)^parity(a & x)`.
pub open spec fn corr_term(a: u64, x: u64) -> int {
    pm1(parity64(a & x))
}

/// One summand of the linear approximation table entry `(a, b)`: the
/// agreement sign of input parity `a · x` and output parity `b · t[x]`.
pub open spec fn lat_term(t: Seq<u64>, a: u64, b: u64, x: int) -> int {
    pm1(parity64(a & (x as u64)) ^ parity64(b & t[x]))
}

/// The linear approximation table entry for input mask `a` and output
/// mask `b`: the signed count, over all domain inputs `x`, of agreement
/// between the parities of `a · x` and `b · t[x]`.
pub open spec fn spec_lat(t: Seq<u64>, a: u64, b: u64) -> int {
    sum(t.len() as int, |x: int| lat_term(t, a, b, x))
}

/// The recursive Walsh-Hadamard transform: transform both halves, then
/// combine them pointwise as sums and differences.
pub open spec fn wht_rec(v: Seq<int>) -> Seq<int>
    decreases v.len(),
{
    if v.len() <= 1 {
        v
    } else {
        let w = v.len() as int / 2;
        let h = wht_rec(v.take(w));
        let g = wht_rec(v.skip(w));
        Seq::new(v.len(), |i: int| if i < w { h[i] + g[i] } else { h[i - w] - g[i - w] })
    }
}

/// The transform preserves the length.
pub proof fn lemma_wht_rec_len(v: Seq<int>)
    ensures
        wht_rec(v).len() == v.len(),
    decreases v.len(),
{
    if v.len() > 1 {
        let w = v.len() as int / 2;
        lemma_wht_rec_len(v.take(w));
        lemma_wht_rec_len(v.skip(w));
    }
}

/// Entries of the transform of a power-of-two-length vector are bounded
/// by the length times the largest input magnitude.
pub proof fn lemma_wht_rec_bound(v: Seq<int>, k: nat, c: int)
    requires
        c >= 0,
        k <= 15,
        v.len() == pow2(k),
        forall|x: int| 0 <= x < v.len() ==> -c <= #[trigger] v[x] <= c,
    ensures
        forall|i: int| 0 <= i < v.len() ==> -(v.len() * c) <= #[trigger] wht_rec(v)[i] <= v.len()
            * c,
    decreases k,
{
    lemma_wht_rec_len(v);
    vstd::arithmetic::power2::lemma2_to64();
    if k == 0 {
        assert forall|i: int| 0 <= i < v.len() implies -(v.len() * c) <= #[trigger] wht_rec(v)[i]
            <= v.len() * c by {
            assert(v.len() * c == c) by (nonlinear_arith)
                requires
                    v.len() == 1,
            ;
        }
    } else {
        vstd::arithmetic::power2::lemma_pow2_unfold(k);
        let len = v.len() as int;
        let w = len / 2;
        assert(w == pow2((k - 1) as nat) && len == 2 * w);
        let h = wht_rec(v.take(w));
        let g = wht_rec(v.skip(w));
        lemma_wht_rec_len(v.take(w));
        lemma_wht_rec_len(v.skip(w));
        lemma_wht_rec_bound(v.take(w), (k - 1) as nat, c);
        lemma_wht_rec_bound(v.skip(w), (k - 1) as nat, c);
        assert forall|i: int| 0 <= i < len implies -(len * c) <= #[trigger] wht_rec(v)[i] <= len
            * c by {
            assert(w * c + w * c == len * c) by (nonlinear_arith)
                requires
                    len == 2 * w,
            ;
            if i < w {
                assert(-(w * c) <= h[i] <= w * c);
                assert(-(w * c) <= g[i] <= w * c);
            } else {
                assert(-(w * c) <= h[i - w] <= w * c);
                assert(-(w * c) <= g[i - w] <= w * c);
            }
        }
    }
}

/// The bit-mask facts behind the butterfly: how masks below `2^k` and
/// their translates by `2^k` interact under AND and parity.
proof fn lemma_split_parity(a: u64, x: u64, k: u64)
    by (bit_vector)
    requires
        k < 16,
        a < (1u64 << k),
        x < (1u64 << k),
    ensures
        a & ((x + (1u64 << k)) as u64) == a & x,
        ((a + (1u64 << k)) as u64) & x == a & x,
        parity64(((a + (1u64 << k)) as u64) & ((x + (1u64 << k)) as u64)) == parity64(a & x) ^ 1,
        parity64(a & x) <= 1,
{
}

proof fn lemma_parity_zero()
    ensures
        parity64(0) == 0,
{
    assert forall|i: u64| 0 <= i < 64 implies bit_at(0u64, i) == 0 by {
        assert((0u64 >> i) & 1 == 0) by (bit_vector);
    }
    lemma_par_rec_high_zero(0, 0, 64);
}

/// The Walsh-Hadamard transform of a power-of-two-length vector computes,
/// at each index `a`, the correlation sum of `v` against the parity
/// pattern of mask `a`.
pub proof fn lemma_wht_sum(v: Seq<int>, k: nat, a: u64)
    requires
        k <= 15,
        v.len() == pow2(k),
        (a as int) < pow2(k),
    ensures
        wht_rec(v)[a as int] == sum(v.len() as int, |x: int| corr_term(a, x as u64) * v[x]),
    decreases k,
{
    vstd::arithmetic::power2::lemma2_to64();
    if k == 0 {
        assert(v.len() == 1 && a == 0);
        let f = |x: int| corr_term(a, x as u64) * v[x];
        lemma_parity_zero();
        assert(0u64 & 0u64 == 0u64) by (bit_vector);
        assert(corr_term(a, 0u64) == 1);
        assert(f(0) == v[0]);
        assert(sum(1, f) == sum(0, f) + f(0));
    } else {
        vstd::arithmetic::power2::lemma_pow2_unfold(k);
        let len = v.len() as int;
        let w = len / 2;
        let kk = (k - 1) as nat;
        assert(pow2(k) == 2 * pow2(kk));
        assert(w == pow2(kk));
        let h = v.take(w);
        let g = v.skip(w);
        let hw = wht_rec(h);
        let gw = wht_rec(g);
        lemma_wht_rec_len(h);
        lemma_wht_rec_len(g);
        let wbit: u64 = (1u64 << (kk as u64));
        vstd::arithmetic::power2::lemma_pow2_strictly_increases(kk, 15);
        vstd::bits::lemma_u64_shl_is_mul(1u64, kk as u64);
        assert(wbit == pow2(kk));
        let f = |x: int| corr_term(a, x as u64) * v[x];
        lemma_sum_split(w, w, f);
        if a < wbit {
            // Low half of the output: both halves weighted identically.
            lemma_wht_sum(h, kk, a);
            lemma_wht_sum(g, kk, a);
            assert forall|x: int| 0 <= x < w implies (|x: int| corr_term(a, x as u64) * h[x])(x)
                == (#[trigger] f(x)) by {
                assert(h[x] == v[x]);
            }
            lemma_sum_ext(w, |x: int| corr_term(a, x as u64) * h[x], f);
            let fs = |x: int| f(x + w);
            assert forall|x: int| 0 <= x < w implies (|x: int| corr_term(a, x as u64) * g[x])(x)
                == (#[trigger] fs(x)) by {
                assert(g[x] == v[x + w]);
                let xu: u64 = x as u64;
                lemma_split_parity(a, xu, kk as u64);
                assert(((x + w) as u64) == (xu + wbit) as u64);
                assert(corr_term(a, (xu + wbit) as u64) == corr_term(a, xu));
            }
            lemma_sum_ext(w, |x: int| corr_term(a, x as u64) * g[x], fs);
            assert(wht_rec(v)[a as int] == hw[a as int] + gw[a as int]);
        } else {
            // High half of the output: the translated half is negated.
            let ap: u64 = (a - wbit) as u64;
            assert((ap as int) < pow2(kk));
            lemma_wht_sum(h, kk, ap);
            lemma_wht_sum(g, kk, ap);
            assert forall|x: int| 0 <= x < w implies (|x: int| corr_term(ap, x as u64) * h[x])(x)
                == (#[trigger] f(x)) by {
                assert(h[x] == v[x]);
                let xu: u64 = x as u64;
                lemma_split_parity(ap, xu, kk as u64);
                assert(a == (ap + wbit) as u64);
                assert(corr_term((ap + wbit) as u64, xu) == corr_term(ap, xu));
            }
            lemma_sum_ext(w, |x: int| corr_term(ap, x as u64) * h[x], f);
            let fs = |x: int| f(x + w);
            let f2 = |x: int| corr_term(ap, x as u64) * g[x];
            assert forall|x: int| 0 <= x < w implies -(#[trigger] f2(x)) == fs(x) by {
                assert(g[x] == v[x + w]);
                let xu: u64 = x as u64;
                lemma_split_parity(ap, xu, kk as u64);
                assert(((x + w) as u64) == (xu + wbit) as u64);
                assert(a == (ap + wbit) as u64);
                lemma_par_rec_bounded(ap & xu, 64);
                assert(parity64(((ap + wbit) as u64) & ((xu + wbit) as u64)) == parity64(ap & xu)
                    ^ 1);
                let p = parity64(ap & xu);
                assert(p <= 1 ==> (p ^ 1 == 1 - p)) by (bit_vector);
                assert(pm1((p ^ 1) as u64) == -pm1(p));
                assert(corr_term(a, (xu + wbit) as u64) == -corr_term(ap, xu));
                let t1 = corr_term(ap, xu);
                let gg = g[x];
                assert((-t1) * gg == -(t1 * gg)) by (nonlinear_arith);
            }
            lemma_sum_ext(w, |x: int| -f2(x), fs);
            lemma_sum_neg(w, f2);
            assert(sum(w, fs) == -sum(w, f2));
            assert(gw[ap as int] == sum(w, f2));
            assert(hw[ap as int] == sum(w, f));
            assert(wht_rec(v)[a as int] == hw[ap as int] - gw[ap as int]);
            assert(wht_rec(v)[a as int] == sum(len, f));
        }
    }
}

/// A row of signed 32-bit values as mathematical integers.
pub open spec fn row_int(s: Seq<i32>) -> Seq<int> {
    s.map_values(|t: i32| t as int)
}

/// The state of the in-place butterfly after all passes up to block size
/// `step`: each aligned block of `step` entries holds the transform of
/// the corresponding block of the initial row.
pub open spec fn partial_wht(init: Seq<int>, step: int) -> Seq<int> {
    Seq::new(
        init.len(),
        |i: int|
            {
                let b = (i / step) * step;
                wht_rec(init.subrange(b, b + step))[i - b]
            },
    )
}

/// Before the first pass, each singleton block is its own transform.
proof fn lemma_partial_one(init: Seq<int>)
    ensures
        partial_wht(init, 1) =~= init,
{
    assert forall|i: int| 0 <= i < init.len() implies partial_wht(init, 1)[i] == init[i] by {
        assert(i / 1 == i) by (nonlinear_arith);
        let s = init.subrange(i, i + 1);
        assert(s.len() == 1);
        assert(wht_rec(s)[0] == s[0]);
    }
}

/// After the final pass, the single full-width block is the whole
/// transform.
proof fn lemma_partial_full(init: Seq<int>)
    requires
        init.len() >= 1,
    ensures
        partial_wht(init, init.len() as int) =~= wht_rec(init),
{
    let n = init.len() as int;
    lemma_wht_rec_len(init);
    assert(init.subrange(0, n) =~= init);
    assert forall|i: int| 0 <= i < n implies partial_wht(init, n)[i] == wht_rec(init)[i] by {
        assert(i / n == 0) by (nonlinear_arith)
            requires
                0 <= i < n,
        ;
        assert(0 * n == 0) by (nonlinear_arith);
    }
}

/// One butterfly pass at block size `2 * s` combines, pointwise, the two
/// half-block transforms: a sum in the lower half, a difference in the
/// upper half.
proof fn lemma_partial_pass(init: Seq<int>, s: int, m: int, i: int)
    requires
        s >= 1,
        m >= 1,
        init.len() == m * (2 * s),
        0 <= i < init.len(),
    ensures
        i % (2 * s) < s ==> partial_wht(init, 2 * s)[i] == partial_wht(init, s)[i] + partial_wht(
            init,
            s,
        )[i + s],
        i % (2 * s) >= s ==> partial_wht(init, 2 * s)[i] == partial_wht(init, s)[i - s]
            - partial_wht(init, s)[i],
{
    let len = init.len() as int;
    let q = i / (2 * s);
    let r = i % (2 * s);
    vstd::arithmetic::div_mod::lemma_fundamental_div_mod(i, 2 * s);
    let bb = q * (2 * s);
    assert(0 <= r < 2 * s);
    assert(i == bb + r);
    assert(q >= 0) by (nonlinear_arith)
        requires
            i >= 0 && s >= 1 && i == q * (2 * s) + r && r < 2 * s,
    ;
    assert(q * (2 * s) <= i);
    assert(q < m) by (nonlinear_arith)
        requires
            q * (2 * s) <= i && i < m * (2 * s) && s >= 1,
    ;
    assert((q + 1) * (2 * s) <= m * (2 * s)) by (nonlinear_arith)
        requires
            q < m && s >= 1,
    ;
    assert(bb + 2 * s == (q + 1) * (2 * s)) by (nonlinear_arith)
        requires
            bb == q * (2 * s),
    ;
    assert(bb + 2 * s <= len);
    let sub2 = init.subrange(bb, bb + 2 * s);
    assert(sub2.len() == 2 * s);
    let h = wht_rec(sub2.take(s));
    let g = wht_rec(sub2.skip(s));
    assert(sub2.take(s) =~= init.subrange(bb, bb + s));
    assert(sub2.skip(s) =~= init.subrange(bb + s, bb + 2 * s));
    lemma_wht_rec_len(sub2.take(s));
    lemma_wht_rec_len(sub2.skip(s));
    assert(sub2.len() as int / 2 == s) by (nonlinear_arith)
        requires
            sub2.len() == 2 * s && s >= 1,
    ;
    assert(partial_wht(init, 2 * s)[i] == wht_rec(sub2)[i - bb]);
    assert((2 * q) * s == bb && (2 * q + 1) * s == bb + s) by (nonlinear_arith)
        requires
            bb == q * (2 * s),
    ;
    if r < s {
        // `i` sits in the lower half of its double block.
        assert(i == (2 * q) * s + r);
        vstd::arithmetic::div_mod::lemma_fundamental_div_mod_converse(i, s, 2 * q, r);
        assert(i / s == 2 * q && i % s == r);
        assert(partial_wht(init, s)[i] == h[r]);
        assert(i + s == (2 * q + 1) * s + r);
        vstd::arithmetic::div_mod::lemma_fundamental_div_mod_converse(i + s, s, 2 * q + 1, r);
        assert(partial_wht(init, s)[i + s] == g[r]);
        assert(wht_rec(sub2)[i - bb] == h[r] + g[r]);
    } else {
        let rr = r - s;
        assert(i == (2 * q + 1) * s + rr);
        vstd::arithmetic::div_mod::lemma_fundamental_div_mod_converse(i, s, 2 * q + 1, rr);
        assert(partial_wht(init, s)[i] == g[rr]);
        assert(i - s == (2 * q) * s + rr);
        vstd::arithmetic::div_mod::lemma_fundamental_div_mod_converse(i - s, s, 2 * q, rr);
        assert(partial_wht(init, s)[i - s] == h[rr]);
        assert(wht_rec(sub2)[i - bb] == h[rr] - g[rr]);
    }
}

/// Entries of the partially transformed row are bounded by the block
/// size, for rows of plus or minus one values.
proof fn lemma_partial_bound(init: Seq<int>, j: nat, k: nat, i: int)
    requires
        j <= k <= 15,
        init.len() == pow2(k),
        0 <= i < init.len(),
        forall|x: int| 0 <= x < init.len() ==> -1 <= #[trigger] init[x] <= 1,
    ensures
        -(pow2(j) as int) <= partial_wht(init, pow2(j) as int)[i] <= pow2(j) as int,
{
    let s = pow2(j) as int;
    vstd::arithmetic::power2::lemma_pow2_pos(j);
    let q = i / s;
    let bb = q * s;
    vstd::arithmetic::div_mod::lemma_fundamental_div_mod(i, s);
    let r = i % s;
    assert(q >= 0) by (nonlinear_arith)
        requires
            i >= 0 && s >= 1 && i == q * s + r && 0 <= r < s,
    ;
    vstd::arithmetic::power2::lemma_pow2_adds((k - j) as nat, j);
    let m = pow2((k - j) as nat) as int;
    assert(init.len() == m * s);
    assert(q * s <= i);
    assert(q < m) by (nonlinear_arith)
        requires
            q * s <= i && i < m * s && s >= 1,
    ;
    assert((q + 1) * s <= m * s) by (nonlinear_arith)
        requires
            q < m && s >= 1,
    ;
    assert(bb + s == (q + 1) * s) by (nonlinear_arith)
        requires
            bb == q * s,
    ;
    assert(bb + s <= init.len());
    let sub = init.subrange(bb, bb + s);
    assert(sub.len() == s);
    lemma_wht_rec_bound(sub, j, 1);
    lemma_wht_rec_len(sub);
    assert(partial_wht(init, s)[i] == wht_rec(sub)[r]);
    assert(-(s * 1) <= wht_rec(sub)[r] <= s * 1);
    assert(s * 1 == s);
}

/// Runs the in-place radix-2 Walsh-Hadamard butterfly over a row of
/// plus or minus one values whose length is `2^k`: for `step` doubling
/// from 1 to half the length, elements `step` apart within each block of
/// `2 * step` are replaced by their sum and difference.
pub fn wht_in_place(row: &mut Vec<i32>, Ghost(k): Ghost<nat>)
    requires
        k <= 15,
        old(row)@.len() == pow2(k),
        forall|x: int| 0 <= x < old(row)@.len() ==> -1 <= (#[trigger] old(row)@[x]) as int <= 1,
    ensures
        final(row)@.len() == old(row)@.len(),
        row_int(final(row)@) == wht_rec(row_int(old(row)@)),
{
    let ghost init = row_int(old(row)@);
    let n = row.len();
    proof {
        vstd::arithmetic::power2::lemma2_to64();
        assert forall|x: int| 0 <= x < init.len() implies -1 <= #[trigger] init[x] <= 1 by {
            assert(init[x] == old(row)@[x] as int);
        }
        lemma_partial_one(init);
        assert(row_int(row@) =~= partial_wht(init, 1));
    }
    let mut step: usize = 1;
    let ghost mut jg: nat = 0;
    while step < n
        invariant
            n == row@.len(),
            n == pow2(k),
            k <= 15,
            init == row_int(old(row)@),
            init.len() == n,
            forall|x: int| 0 <= x < init.len() ==> -1 <= #[trigger] init[x] <= 1,
            jg <= k,
            step >= 1,
            step == pow2(jg),
            row_int(row@) == partial_wht(init, step as int),
        decreases n - step,
    {
        proof {
            if jg >= k {
                if jg > k {
                    vstd::arithmetic::power2::lemma_pow2_strictly_increases(k, jg);
                }
                assert(false);
            }
            vstd::arithmetic::power2::lemma_pow2_adds((k - jg - 1) as nat, (jg + 1) as nat);
            vstd::arithmetic::power2::lemma_pow2_unfold((jg + 1) as nat);
            vstd::arithmetic::power2::lemma_pow2_pos((k - jg - 1) as nat);
            if jg + 1 < k {
                vstd::arithmetic::power2::lemma_pow2_strictly_increases((jg + 1) as nat, k);
            }
        }
        let ghost m: int = pow2((k - jg - 1) as nat) as int;
        let ghost s: int = step as int;
        let ghost pre = row_int(row@);
        let mut base: usize = 0;
        let ghost mut qg: int = 0;
        while base < n
            invariant
                n == row@.len(),
                n == pow2(k),
                k <= 15,
                jg < k,
                init == row_int(old(row)@),
                init.len() == n,
                forall|x: int| 0 <= x < init.len() ==> -1 <= #[trigger] init[x] <= 1,
                step >= 1,
                step == pow2(jg),
                s == step as int,
                m == pow2((k - jg - 1) as nat) as int,
                m >= 1,
                n == m * (2 * s),
                base == qg * (2 * s),
                0 <= qg <= m,
                base <= n,
                2 * step <= n,
                forall|i: int| 0 <= i < base ==> #[trigger] row_int(row@)[i] == partial_wht(
                    init,
                    2 * s,
                )[i],
                forall|i: int| base <= i < n ==> #[trigger] row_int(row@)[i] == partial_wht(
                    init,
                    s,
                )[i],
            decreases n - base,
        {
            proof {
                assert(qg < m) by (nonlinear_arith)
                    requires
                        qg * (2 * s) < m * (2 * s) && s >= 1,
                ;
                assert(base + 2 * s == (qg + 1) * (2 * s)) by (nonlinear_arith)
                    requires
                        base == qg * (2 * s),
                ;
                assert((qg + 1) * (2 * s) <= m * (2 * s)) by (nonlinear_arith)
                    requires
                        qg < m && s >= 1,
                ;
            }
            let mut t: usize = 0;
            while t < step
                invariant
                    n == row@.len(),
                    n == pow2(k),
                    k <= 15,
                    jg < k,
                    init == row_int(old(row)@),
                    init.len() == n,
                    forall|x: int| 0 <= x < init.len() ==> -1 <= #[trigger] init[x] <= 1,
                    step >= 1,
                    step == pow2(jg),
                    s == step as int,
                    m == pow2((k - jg - 1) as nat) as int,
                    m >= 1,
                    n == m * (2 * s),
                    base == qg * (2 * s),
                    0 <= qg < m,
                    base + 2 * step <= n,
                    t <= step,
                    forall|i: int| 0 <= i < base ==> #[trigger] row_int(row@)[i] == partial_wht(
                        init,
                        2 * s,
                    )[i],
                    forall|i: int| base <= i < base + t ==> #[trigger] row_int(row@)[i]
                        == partial_wht(init, 2 * s)[i],
                    forall|i: int| base + t <= i < base + s ==> #[trigger] row_int(row@)[i]
                        == partial_wht(init, s)[i],
                    forall|i: int| base + s <= i < base + s + t ==> #[trigger] row_int(row@)[i]
                        == partial_wht(init, 2 * s)[i],
                    forall|i: int| base + s + t <= i < n ==> #[trigger] row_int(row@)[i]
                        == partial_wht(init, s)[i],
                decreases step - t,
            {
                let li: usize = base + t;
                let ri: usize = base + step + t;
                let av = row[li];
                let bv = row[ri];
                proof {
                    assert(row_int(row@)[li as int] == av as int && row_int(row@)[ri as int]
                        == bv as int);
                    lemma_partial_bound(init, jg, k, li as int);
                    lemma_partial_bound(init, jg, k, ri as int);
                    vstd::arithmetic::div_mod::lemma_fundamental_div_mod_converse(
                        li as int,
                        2 * s,
                        qg,
                        t as int,
                    );
                    vstd::arithmetic::div_mod::lemma_fundamental_div_mod_converse(
                        ri as int,
                        2 * s,
                        qg,
                        s + t,
                    );
                    lemma_partial_pass(init, s, m, li as int);
                    lemma_partial_pass(init, s, m, ri as int);
                    vstd::arithmetic::power2::lemma2_to64();
                    vstd::arithmetic::power2::lemma_pow2_strictly_increases(jg, 15);
                }
                let sum_v = av + bv;
                let diff_v = av - bv;
                let ghost before = row@;
                row[li] = sum_v;
                row[ri] = diff_v;
                proof {
                    assert(li != ri);
                    assert forall|i: int| 0 <= i < n && i != li as int && i != ri as int implies
                        #[trigger] row_int(row@)[i] == row_int(before)[i] by {
                        assert(row@[i] == before[i]);
                    }
                    assert(row_int(row@)[li as int] == sum_v as int);
                    assert(row_int(row@)[ri as int] == diff_v as int);
                    assert(row_int(before)[li as int] == av as int);
                    assert(row_int(before)[ri as int] == bv as int);
                    assert(av as int == partial_wht(init, s)[li as int]);
                    assert(bv as int == partial_wht(init, s)[ri as int]);
                    assert(partial_wht(init, 2 * s)[li as int] == partial_wht(init, s)[li as int]
                        + partial_wht(init, s)[li as int + s]);
                    assert(partial_wht(init, 2 * s)[ri as int] == partial_wht(init, s)[ri as int
                        - s] - partial_wht(init, s)[ri as int]);
                    assert(row_int(row@)[li as int] == partial_wht(init, 2 * s)[li as int]);
                    assert(row_int(row@)[ri as int] == partial_wht(init, 2 * s)[ri as int]);
                }
                t += 1;
            }
            base += 2 * step;
            proof {
                qg = qg + 1;
                assert(base == qg * (2 * s)) by (nonlinear_arith)
                    requires
                        base == (qg - 1) * (2 * s) + 2 * s,
                ;
            }
        }
        proof {
            assert(row_int(row@) =~= partial_wht(init, 2 * s));
        }
        step = step * 2;
        proof {
            jg = jg + 1;
            assert(step == pow2(jg));
        }
    }
    proof {
        assert(step == pow2(jg));
        if jg < k {
            vstd::arithmetic::power2::lemma_pow2_strictly_increases(jg, k);
            assert(false);
        }
        if jg > k {
            vstd::arithmetic::power2::lemma_pow2_strictly_increases(k, jg);
            assert(false);
        }
        lemma_partial_full(init);
        assert(row_int(row@) == partial_wht(init, n as int));
    }
}

/// The F2 dot product of two 64-bit words: the parity of their bitwise
/// AND.
pub fn dot_prod_f2(a: u64, b: u64) -> (r: u64)
    ensures
        r == parity64(a & b),
        r <= 1,
{
    let ghost ab = a & b;
    let mut x: u64 = 0;
    let mut i: usize = 0;
    while i < 64
        invariant
            i <= 64,
            ab == a & b,
            x == par_rec(ab, i as nat),
        decreases 64 - i,
    {
        let d = ((a >> i) & (b >> i)) & 1;
        proof {
            let k: u64 = i as u64;
            assert(((a >> k) & (b >> k)) & 1 == ((a & b) >> k) & 1) by (bit_vector);
            assert((a >> i) & (b >> i) == (a >> k) & (b >> k));
        }
        x = x ^ d;
        proof {
            let k: u64 = i as u64;
            lemma_par_rec_bounded(ab, i as nat);
            assert(par_rec(ab, (i + 1) as nat) == par_rec(ab, i as nat) ^ bit_at(ab, k));
        }
        i += 1;
    }
    proof {
        lemma_par_rec_bounded(ab, 64);
    }
    x
}

/// The initial butterfly row for output mask `b`: the sign of the output
/// parity `b · t[x]` at each domain point `x`.
pub open spec fn lat_init(t: Seq<u64>, b: u64) -> Seq<int> {
    Seq::new(t.len(), |x: int| pm1(parity64(b & t[x])))
}

proof fn lemma_pm1_mul(p: u64, q: u64)
    requires
        p <= 1,
        q <= 1,
    ensures
        pm1(p) * pm1(q) == pm1(p ^ q),
{
    assert((p <= 1 && q <= 1) ==> ((p ^ q) == (if p == q {
        0u64
    } else {
        1u64
    }))) by (bit_vector);
    let x = pm1(p);
    let y = pm1(q);
    assert(x == 1 || x == -1);
    assert(y == 1 || y == -1);
    assert(x == 1 && y == 1 ==> x * y == 1) by (nonlinear_arith);
    assert(x == 1 && y == -1 ==> x * y == -1) by (nonlinear_arith);
    assert(x == -1 && y == 1 ==> x * y == -1) by (nonlinear_arith);
    assert(x == -1 && y == -1 ==> x * y == 1) by (nonlinear_arith);
}

/// The linear approximation table: a square matrix of raw Walsh
/// coefficients, one entry per input/output mask pair. A separate bias
/// view halves the raw coefficients.
pub struct LAT {
    columns: Vec<Vec<i32>>,
}

impl LAT {
    /// The table as a matrix indexed by input mask then output mask.
    pub closed spec fn m(&self) -> Seq<Seq<int>> {
        let n = self.columns@.len() as int;
        Seq::new(n as nat, |a: int| Seq::new(n as nat, |b: int| self.columns@[b]@[a] as int))
    }

    /// The common dimension of the table.
    pub closed spec fn size(&self) -> int {
        self.columns@.len() as int
    }

    /// Every stored column has the full dimension.
    pub closed spec fn wf(&self) -> bool {
        forall|b: int| 0 <= b < self.columns@.len() ==> (#[trigger] self.columns@[b])@.len()
            == self.columns@.len()
    }

    /// The dimension of the table.
    pub fn dim(&self) -> (n: usize)
        ensures
            n == self.size(),
    {
        self.columns.len()
    }

    /// The raw Walsh coefficient for input mask `a` and output mask `b`.
    pub fn at(&self, a: usize, b: usize) -> (r: i32)
        requires
            self.wf(),
            a < self.size(),
            b < self.size(),
        ensures
            r as int == self.m()[a as int][b as int],
    {
        self.columns[b][a]
    }

    /// The probability-bias view: the raw coefficient scaled by one
    /// half. The raw coefficients of a table computed from a
    /// substitution are always even.
    pub fn bias_at(&self, a: usize, b: usize) -> (r: i32)
        requires
            self.wf(),
            a < self.size(),
            b < self.size(),
        ensures
            self.m()[a as int][b as int] % 2 == 0 ==> 2 * (r as int) == self.m()[a as int][b as int],
    {
        self.columns[b][a] / 2
    }
}

/// Computes the linear approximation table of a substitution table of
/// power-of-two size by one Walsh-Hadamard butterfly per output mask.
pub fn walsh_transform_table(t: &Vec<u64>, Ghost(k): Ghost<nat>) -> (lat: LAT)
    requires
        k <= 15,
        t@.len() == pow2(k),
    ensures
        lat.wf(),
        lat.size() == t@.len(),
        forall|a: int, b: int| 0 <= a < t@.len() && 0 <= b < t@.len() ==> #[trigger] lat.m()[a][b]
            == spec_lat(t@, a as u64, b as u64),
{
    let n = t.len();
    let mut columns: Vec<Vec<i32>> = Vec::new();
    let mut beta: usize = 0;
    proof {
        vstd::arithmetic::power2::lemma2_to64();
        vstd::arithmetic::power2::lemma_pow2_strictly_increases(k, 16);
    }
    while beta < n
        invariant
            beta <= n,
            n == t@.len(),
            n == pow2(k),
            k <= 15,
            n < 65536,
            columns@.len() == beta,
            forall|b: int| 0 <= b < beta ==> row_int((#[trigger] columns@[b])@) == wht_rec(
                lat_init(t@, b as u64),
            ),
        decreases n - beta,
    {
        let mut row: Vec<i32> = Vec::new();
        let mut x: usize = 0;
        while x < n
            invariant
                x <= n,
                n == t@.len(),
                row@.len() == x,
                forall|y: int| 0 <= y < x ==> (#[trigger] row@[y]) as int == pm1(
                    parity64((beta as u64) & t@[y]),
                ),
                forall|y: int| 0 <= y < x ==> -1 <= (#[trigger] row@[y]) as int <= 1,
            decreases n - x,
        {
            let d = dot_prod_f2(beta as u64, t[x]);
            if d == 1 {
                row.push(-1);
            } else {
                row.push(1);
            }
            x += 1;
        }
        proof {
            assert(row_int(row@) =~= lat_init(t@, beta as u64));
        }
        wht_in_place(&mut row, Ghost(k));
        columns.push(row);
        beta += 1;
    }
    let lat = LAT { columns };
    proof {
        assert(lat.wf()) by {
            assert forall|b: int| 0 <= b < lat.columns@.len() implies (
            #[trigger] lat.columns@[b])@.len() == lat.columns@.len() by {
                lemma_wht_rec_len(lat_init(t@, b as u64));
                assert(row_int(lat.columns@[b]@).len() == lat.columns@[b]@.len());
            }
        }
        assert forall|a: int, b: int| 0 <= a < t@.len() && 0 <= b < t@.len() implies
            #[trigger] lat.m()[a][b] == spec_lat(t@, a as u64, b as u64) by {
            let init = lat_init(t@, b as u64);
            lemma_wht_rec_len(init);
            lemma_wht_sum(init, k, a as u64);
            assert(lat.m()[a][b] == lat.columns@[b]@[a] as int);
            assert(row_int(lat.columns@[b]@)[a] == lat.columns@[b]@[a] as int);
            assert(lat.m()[a][b] == wht_rec(init)[a]);
            let f1 = |x: int| corr_term(a as u64, x as u64) * init[x];
            let f2 = |x: int| lat_term(t@, a as u64, b as u64, x);
            assert forall|x: int| 0 <= x < t@.len() implies #[trigger] f1(x) == f2(x) by {
                let p = parity64((a as u64) & (x as u64));
                let q = parity64((b as u64) & t@[x]);
                lemma_par_rec_bounded((a as u64) & (x as u64), 64);
                lemma_par_rec_bounded((b as u64) & t@[x], 64);
                lemma_pm1_mul(p, q);
                assert(init[x] == pm1(q));
            }
            lemma_sum_ext(t@.len() as int, f1, f2);
        }
    }
    lat
}

/// The sum of the parity signs of one mask over a full power-of-two
/// domain: the full domain size for the zero mask, zero for any other.
pub proof fn lemma_corr_sum(k: nat, a: u64)
    requires
        k <= 15,
        (a as int) < pow2(k),
    ensures
        sum(pow2(k) as int, |x: int| corr_term(a, x as u64)) == if a == 0 {
            pow2(k) as int
        } else {
            0
        },
    decreases k,
{
    vstd::arithmetic::power2::lemma2_to64();
    let f = |x: int| corr_term(a, x as u64);
    if k == 0 {
        lemma_parity_zero();
        assert(a & 0u64 == 0u64) by (bit_vector);
        assert(f(0) == 1);
        assert(sum(1, f) == sum(0, f) + f(0));
    } else {
        vstd::arithmetic::power2::lemma_pow2_unfold(k);
        let kk = (k - 1) as nat;
        let w = pow2(kk) as int;
        let wbit: u64 = (1u64 << (kk as u64));
        vstd::arithmetic::power2::lemma_pow2_strictly_increases(kk, 15);
        vstd::bits::lemma_u64_shl_is_mul(1u64, kk as u64);
        assert(wbit == pow2(kk));
        lemma_sum_split(w, w, f);
        let fs = |x: int| f(x + w);
        if a < wbit {
            lemma_corr_sum(kk, a);
            let g = |x: int| corr_term(a, x as u64);
            assert forall|x: int| 0 <= x < w implies #[trigger] g(x) == fs(x) by {
                let xu: u64 = x as u64;
                lemma_split_parity(a, xu, kk as u64);
                assert(((x + w) as u64) == (xu + wbit) as u64);
            }
            lemma_sum_ext(w, g, fs);
            if a == 0 {
                assert(sum(w + w, f) == pow2(k) as int);
            }
        } else {
            let ap: u64 = (a - wbit) as u64;
            lemma_corr_sum(kk, ap);
            let g = |x: int| corr_term(ap, x as u64);
            assert forall|x: int| 0 <= x < w implies #[trigger] g(x) == f(x) by {
                let xu: u64 = x as u64;
                lemma_split_parity(ap, xu, kk as u64);
                assert(a == (ap + wbit) as u64);
            }
            lemma_sum_ext(w, g, f);
            assert forall|x: int| 0 <= x < w implies -(#[trigger] g(x)) == fs(x) by {
                let xu: u64 = x as u64;
                lemma_split_parity(ap, xu, kk as u64);
                assert(((x + w) as u64) == (xu + wbit) as u64);
                assert(a == (ap + wbit) as u64);
                let p = parity64(ap & xu);
                lemma_par_rec_bounded(ap & xu, 64);
                assert(p <= 1 ==> (p ^ 1 == 1 - p)) by (bit_vector);
            }
            lemma_sum_ext(w, |x: int| -g(x), fs);
            lemma_sum_neg(w, g);
        }
    }
}

/// The degenerate entries of the table of a 16-entry substitution: the
/// all-zero mask pair counts the whole domain, and a nonzero input mask
/// against the zero output mask balances to zero.
pub proof fn lemma_lat_zero_mask_row(t: Seq<u64>, a: u64)
    requires
        t.len() == 16,
        a < 16,
    ensures
        spec_lat(t, a, 0) == if a == 0 {
            16int
        } else {
            0
        },
{
    vstd::arithmetic::power2::lemma2_to64();
    let f1 = |x: int| lat_term(t, a, 0u64, x);
    let f2 = |x: int| corr_term(a, x as u64);
    assert forall|x: int| 0 <= x < 16 implies #[trigger] f1(x) == f2(x) by {
        lemma_parity_zero();
        assert(0u64 & t[x] == 0u64) by (bit_vector);
        let p = parity64(a & (x as u64));
        assert(p ^ 0 == p) by (bit_vector);
    }
    lemma_sum_ext(16, f1, f2);
    lemma_corr_sum(4, a);
}

proof fn lemma_sum_fold_general(s: Seq<u64>, f: spec_fn(u64) -> int, v: int)
    ensures
        s.fold_right(|a: u64, acc: int| f(a) + acc, v) == sum(s.len() as int, |x: int| f(s[x]))
            + v,
    decreases s.len(),
{
    let g = |a: u64, acc: int| f(a) + acc;
    if s.len() == 0 {
    } else {
        let dl = s.drop_last();
        lemma_sum_fold_general(dl, f, f(s.last()) + v);
        assert(s.fold_right(g, v) == dl.fold_right(g, g(s.last(), v)));
        assert forall|x: int| 0 <= x < dl.len() implies f(#[trigger] dl[x]) == f(s[x]) by {
            assert(dl[x] == s[x]);
        }
        lemma_sum_ext(dl.len() as int, |x: int| f(dl[x]), |x: int| f(s[x]));
        assert(sum(s.len() as int, |x: int| f(s[x])) == sum(s.len() - 1, |x: int| f(s[x])) + f(
            s[s.len() - 1],
        ));
    }
}

/// The sum of `f` over the entries of a bijective sbox table equals the
/// sum of `f` over the whole nibble domain: a bijection only reorders the
/// terms.
proof fn lemma_sum_over_bijection(t: Seq<u64>, f: spec_fn(u64) -> int)
    requires
        crate::sbox::sbox_wf(t),
    ensures
        sum(16, |x: int| f(t[x])) == sum(16, |x: int| f(x as u64)),
{
    broadcast use vstd::seq_lib::group_to_multiset_ensures;

    let g = |a: u64, acc: int| f(a) + acc;
    let ident = Seq::new(16, |y: int| y as u64);
    crate::sbox::lemma_bijection_onto(t);
    assert(t.no_duplicates()) by {
        assert forall|i: int, j: int|
            0 <= i < t.len() && 0 <= j < t.len() && i != j implies t[i] != t[j] by {
            if i < j {
            } else {
                assert(t[j] != t[i]);
            }
        }
    }
    assert(ident.no_duplicates());
    t.lemma_multiset_has_no_duplicates();
    ident.lemma_multiset_has_no_duplicates();
    assert forall|v: u64| #[trigger] t.to_multiset().count(v) == ident.to_multiset().count(v) by {
        if v < 16 {
            assert(crate::sbox::in_table(t, v));
            let i = choose|i: int| 0 <= i < 16 && t[i] == v;
            assert(t.contains(v));
            assert(ident[v as int] == v);
            assert(ident.contains(v));
            assert(t.to_multiset().count(v) == 1 && ident.to_multiset().count(v) == 1);
        } else {
            assert(!t.contains(v)) by {
                if t.contains(v) {
                    let i = choose|i: int| 0 <= i < t.len() && t[i] == v;
                    assert(t[i] < 16);
                }
            }
            assert(!ident.contains(v)) by {
                if ident.contains(v) {
                    let i = choose|i: int| 0 <= i < ident.len() && ident[i] == v;
                }
            }
            assert(t.to_multiset().count(v) == 0 && ident.to_multiset().count(v) == 0);
        }
    }
    assert(t.to_multiset() =~= ident.to_multiset());
    assert(vstd::seq_lib::commutative_foldr(g));
    vstd::seq_lib::lemma_fold_right_permutation(t, ident, g, 0);
    lemma_sum_fold_general(t, f, 0);
    lemma_sum_fold_general(ident, f, 0);
    assert forall|x: int| 0 <= x < 16 implies f(#[trigger] ident[x]) == f(x as u64) by {
        assert(ident[x] == x as u64);
    }
    lemma_sum_ext(16, |x: int| f(ident[x]), |x: int| f(x as u64));
}

/// The other degenerate line of the table of a bijective 16-entry
/// substitution: the zero input mask against a nonzero output mask
/// balances to zero, because a bijection's outputs sweep the whole
/// domain.
pub proof fn lemma_lat_zero_mask_col(t: Seq<u64>, b: u64)
    requires
        crate::sbox::sbox_wf(t),
        b < 16,
    ensures
        spec_lat(t, 0, b) == if b == 0 {
            16int
        } else {
            0
        },
{
    vstd::arithmetic::power2::lemma2_to64();
    let f = |y: u64| corr_term(b, y);
    let f1 = |x: int| lat_term(t, 0u64, b, x);
    let f2 = |x: int| f(t[x]);
    assert forall|x: int| 0 <= x < 16 implies #[trigger] f1(x) == f2(x) by {
        assert(0u64 & (x as u64) == 0u64) by (bit_vector);
        lemma_parity_zero();
        let q = parity64(b & t[x]);
        assert(0u64 ^ q == q) by (bit_vector);
    }
    lemma_sum_ext(16, f1, f2);
    lemma_sum_over_bijection(t, f);
    assert forall|x: int| 0 <= x < 16 implies f((#[trigger] (x as u64))) == corr_term(
        b,
        x as u64,
    ) by {}
    lemma_sum_ext(16, |x: int| f(x as u64), |x: int| corr_term(b, x as u64));
    lemma_corr_sum(4, b);
}

/// A single-bit mask: a power of two.
pub open spec fn one_bit_mask(a: int, n: int) -> bool {
    exists|e: nat| a == pow2(e) && a < n
}

/// Extracts the biased one-bit mask pairs of a table: every pair of
/// single-bit input and output masks whose Walsh coefficient is nonzero,
/// with that coefficient.
pub fn biased_one_bit(lat: &LAT) -> (r: Vec<(usize, usize, i32)>)
    requires
        lat.wf(),
        lat.size() <= 32768,
    ensures
        forall|idx: int| 0 <= idx < r@.len() ==> {
            let (a, b, v) = #[trigger] r@[idx];
            &&& one_bit_mask(a as int, lat.size())
            &&& one_bit_mask(b as int, lat.size())
            &&& v as int == lat.m()[a as int][b as int]
            &&& v != 0
        },
        forall|a: int, b: int| one_bit_mask(a, lat.size()) && one_bit_mask(b, lat.size())
            && lat.m()[a][b] != 0 ==> exists|idx: int| 0 <= idx < r@.len() && #[trigger] r@[idx]
            == (a as usize, b as usize, lat.m()[a][b] as i32),
        forall|i1: int, i2: int| 0 <= i1 < i2 < r@.len() ==> r@[i1] != r@[i2],
{
    let n = lat.dim();
    let mut r: Vec<(usize, usize, i32)> = Vec::new();
    let mut i: usize = 1;
    let ghost mut ei: nat = 0;
    proof {
        vstd::arithmetic::power2::lemma2_to64();
        assert forall|a: int, b: int| 0 <= a < 1 && one_bit_mask(a, lat.size()) && one_bit_mask(
            b,
            lat.size(),
        ) && lat.m()[a][b] != 0 implies exists|idx: int| 0 <= idx < r@.len() && #[trigger] r@[idx]
            == (a as usize, b as usize, lat.m()[a][b] as i32) by {
            let e = choose|e: nat| a == pow2(e) && a < lat.size();
            vstd::arithmetic::power2::lemma_pow2_pos(e);
        }
    }
    while i < n
        invariant
            lat.wf(),
            n == lat.size(),
            n <= 32768,
            i == pow2(ei),
            i >= 1,
            forall|idx: int| 0 <= idx < r@.len() ==> {
                let (a, b, v) = #[trigger] r@[idx];
                &&& one_bit_mask(a as int, lat.size())
                &&& one_bit_mask(b as int, lat.size())
                &&& v as int == lat.m()[a as int][b as int]
                &&& v != 0
            },
            forall|a: int, b: int| 0 <= a < i && one_bit_mask(a, lat.size()) && one_bit_mask(
                b,
                lat.size(),
            ) && lat.m()[a][b] != 0 ==> exists|idx: int| 0 <= idx < r@.len() && #[trigger] r@[idx]
                == (a as usize, b as usize, lat.m()[a][b] as i32),
            forall|idx: int| 0 <= idx < r@.len() ==> ((#[trigger] r@[idx]).0 as int) < i,
            forall|i1: int, i2: int| 0 <= i1 < i2 < r@.len() ==> r@[i1] != r@[i2],
        decreases 2 * n - i,
    {
        let mut j: usize = 1;
        let ghost mut ej: nat = 0;
        proof {
            vstd::arithmetic::power2::lemma2_to64();
            assert forall|b: int| 0 <= b < 1 && one_bit_mask(b, lat.size()) && lat.m()[i as int][b]
                != 0 implies exists|idx: int| 0 <= idx < r@.len() && #[trigger] r@[idx] == (
            i as usize, b as usize, lat.m()[i as int][b] as i32) by {
                let e = choose|e: nat| b == pow2(e) && b < lat.size();
                vstd::arithmetic::power2::lemma_pow2_pos(e);
            }
        }
        while j < n
            invariant
                lat.wf(),
                n == lat.size(),
                n <= 32768,
                i == pow2(ei),
                1 <= i < n,
                j == pow2(ej),
                j >= 1,
                forall|idx: int| 0 <= idx < r@.len() ==> {
                    let (a, b, v) = #[trigger] r@[idx];
                    &&& one_bit_mask(a as int, lat.size())
                    &&& one_bit_mask(b as int, lat.size())
                    &&& v as int == lat.m()[a as int][b as int]
                    &&& v != 0
                },
                forall|a: int, b: int| 0 <= a < i && one_bit_mask(a, lat.size()) && one_bit_mask(
                    b,
                    lat.size(),
                ) && lat.m()[a][b] != 0 ==> exists|idx: int| 0 <= idx < r@.len()
                    && #[trigger] r@[idx] == (a as usize, b as usize, lat.m()[a][b] as i32),
                forall|b: int| 0 <= b < j && one_bit_mask(b, lat.size()) && lat.m()[i as int][b]
                    != 0 ==> exists|idx: int| 0 <= idx < r@.len() && #[trigger] r@[idx] == (
                i as usize, b as usize, lat.m()[i as int][b] as i32),
                forall|idx: int| 0 <= idx < r@.len() ==> ((#[trigger] r@[idx]).0 as int) < i || ((
                r@[idx].0 as int) == i && (r@[idx].1 as int) < j),
                forall|i1: int, i2: int| 0 <= i1 < i2 < r@.len() ==> r@[i1] != r@[i2],
            decreases 2 * n - j,
        {
            let ghost pre_r = r@;
            let v = lat.at(i, j);
            if v != 0 {
                proof {
                    assert(one_bit_mask(i as int, lat.size())) by {
                        assert(i as int == pow2(ei) && (i as int) < lat.size());
                    }
                    assert(one_bit_mask(j as int, lat.size())) by {
                        assert(j as int == pow2(ej) && (j as int) < lat.size());
                    }
                }
                r.push((i, j, v));
                proof {
                    assert forall|i1: int, i2: int| 0 <= i1 < i2 < r@.len() implies r@[i1]
                        != r@[i2] by {
                        if i2 == r@.len() - 1 {
                            assert(r@[i1] == pre_r[i1]);
                            assert((r@[i1].0 as int) < i || ((r@[i1].0 as int) == i && (
                            r@[i1].1 as int) < j));
                        } else {
                            assert(r@[i1] == pre_r[i1] && r@[i2] == pre_r[i2]);
                        }
                    }
                }
            }
            proof {
                assert forall|a: int, b: int| 0 <= a < i && one_bit_mask(a, lat.size())
                    && one_bit_mask(b, lat.size()) && lat.m()[a][b] != 0 implies exists|idx: int|
                    0 <= idx < r@.len() && #[trigger] r@[idx] == (
                a as usize, b as usize, lat.m()[a][b] as i32) by {
                    let idx = choose|idx: int|
                        0 <= idx < pre_r.len() && pre_r[idx] == (
                        a as usize,
                        b as usize,
                        lat.m()[a][b] as i32,
                        );
                    assert(r@[idx] == pre_r[idx]);
                }
                assert forall|b: int| 0 <= b < 2 * j && one_bit_mask(b, lat.size()) && lat.m()[i as int][b] != 0 implies exists|idx: int| 0 <= idx < r@.len() && #[trigger] r@[idx] == (
                i as usize, b as usize, lat.m()[i as int][b] as i32) by {
                    if b < j {
                        let idx = choose|idx: int|
                            0 <= idx < pre_r.len() && pre_r[idx] == (
                            i as usize,
                            b as usize,
                            lat.m()[i as int][b] as i32,
                            );
                        assert(r@[idx] == pre_r[idx]);
                    } else {
                        let e = choose|e: nat| b == pow2(e) && b < lat.size();
                        if e < ej {
                            vstd::arithmetic::power2::lemma_pow2_strictly_increases(e, ej);
                        }
                        if e > ej {
                            vstd::arithmetic::power2::lemma_pow2_unfold((ej + 1) as nat);
                            if e > ej + 1 {
                                vstd::arithmetic::power2::lemma_pow2_strictly_increases(
                                    (ej + 1) as nat,
                                    e,
                                );
                            }
                            assert(b >= 2 * j);
                            assert(false);
                        }
                        assert(b == j as int);
                        let idx = r@.len() - 1;
                        assert(r@[idx] == (i as usize, j, lat.m()[i as int][j as int] as i32));
                    }
                }
                ej = ej + 1;
                vstd::arithmetic::power2::lemma_pow2_unfold(ej);
            }
            j = j * 2;
        }
        proof {
            assert forall|a: int, b: int| 0 <= a < 2 * i && one_bit_mask(a, lat.size())
                && one_bit_mask(b, lat.size()) && lat.m()[a][b] != 0 implies exists|idx: int|
                0 <= idx < r@.len() && #[trigger] r@[idx] == (a as usize, b as usize, lat.m(
            )[a][b] as i32) by {
                if i <= a {
                    let e = choose|e: nat| a == pow2(e) && a < lat.size();
                    if e < ei {
                        vstd::arithmetic::power2::lemma_pow2_strictly_increases(e, ei);
                    }
                    if e > ei {
                        vstd::arithmetic::power2::lemma_pow2_unfold((ei + 1) as nat);
                        if e > ei + 1 {
                            vstd::arithmetic::power2::lemma_pow2_strictly_increases(
                                (ei + 1) as nat,
                                e,
                            );
                        }
                        assert(a >= 2 * i);
                        assert(false);
                    }
                    assert(a == i as int);
                    assert(a as usize == i);
                    let eb = choose|eb: nat| b == pow2(eb) && b < lat.size();
                    vstd::arithmetic::power2::lemma_pow2_pos(eb);
                    assert(0 <= b < n);
                    assert(0 <= b < j as int);
                    assert(exists|idx: int| 0 <= idx < r@.len() && #[trigger] r@[idx] == (
                    i as usize, b as usize, lat.m()[i as int][b] as i32));
                }
            }
            ei = ei + 1;
            vstd::arithmetic::power2::lemma_pow2_unfold(ei);
        }
        i = i * 2;
    }
    r
}

/// Negating every term negates the sum.
proof fn lemma_sum_neg(n: int, f: spec_fn(int) -> int)
    ensures
        sum(n, |x: int| -f(x)) == -sum(n, f),
    decreases n,
{
    if n > 0 {
        lemma_sum_neg(n - 1, f);
    }
    assert(sum(n, |x: int| -f(x)) == if n <= 0 {
        0
    } else {
        sum(n - 1, |x: int| -f(x)) + -f(n - 1)
    });
}

} // verus!
