//! Empirical validation of predicted linear biases: counting, over given
//! keys and plaintexts, how often a one-bit linear relation holds through
//! the cipher, converting raw match counts into fixed-point correlation
//! estimates, and summarizing them as a histogram. The caller supplies
//! the sampled keys and plaintexts, so the computation itself is exact.

use vstd::prelude::*;
use crate::present::{Present, PresentCipherKey, spec_present_schedule, spec_enc};
use crate::bits::parity64;
use crate::walsh::dot_prod_f2;

verus! {

/// The one-bit linear relation for masks `am`, `bm` on one
/// plaintext/ciphertext pair: input parity agrees with output parity.
pub open spec fn relation_holds(p: u64, c: u64, am: u64, bm: u64) -> bool {
    parity64(p & am) == parity64(c & bm)
}

/// How many of the plaintexts satisfy the relation under one key
/// schedule.
pub open spec fn spec_match_count_key(
    keys: Seq<u64>,
    rounds: nat,
    pts: Seq<u64>,
    am: u64,
    bm: u64,
) -> int
    decreases pts.len(),
{
    if pts.len() == 0 {
        0
    } else {
        spec_match_count_key(keys, rounds, pts.drop_last(), am, bm) + if relation_holds(
            pts.last(),
            spec_enc(keys, pts.last(), rounds),
            am,
            bm,
        ) {
            1int
        } else {
            0int
        }
    }
}

/// Total matches over all sampled keys, each with the same plaintext
/// sample.
pub open spec fn spec_match_count(
    cks: Seq<(u64, u16)>,
    rounds: nat,
    pts: Seq<u64>,
    am: u64,
    bm: u64,
) -> int
    decreases cks.len(),
{
    if cks.len() == 0 {
        0
    } else {
        spec_match_count(cks.drop_last(), rounds, pts, am, bm) + spec_match_count_key(
            spec_present_schedule(cks.last().0, cks.last().1, rounds),
            rounds,
            pts,
            am,
            bm,
        )
    }
}

/// Per-key match counts lie between zero and the number of plaintexts.
pub proof fn lemma_match_count_key_bound(keys: Seq<u64>, rounds: nat, pts: Seq<u64>, am: u64, bm: u64)
    ensures
        0 <= spec_match_count_key(keys, rounds, pts, am, bm) <= pts.len(),
    decreases pts.len(),
{
    if pts.len() > 0 {
        lemma_match_count_key_bound(keys, rounds, pts.drop_last(), am, bm);
    }
}

/// Total match counts lie between zero and the total number of trials.
pub proof fn lemma_match_count_bound(cks: Seq<(u64, u16)>, rounds: nat, pts: Seq<u64>, am: u64, bm: u64)
    ensures
        0 <= spec_match_count(cks, rounds, pts, am, bm) <= cks.len() * pts.len(),
    decreases cks.len(),
{
    if cks.len() > 0 {
        lemma_match_count_bound(cks.drop_last(), rounds, pts, am, bm);
        lemma_match_count_key_bound(
            spec_present_schedule(cks.last().0, cks.last().1, rounds),
            rounds,
            pts,
            am,
            bm,
        );
        assert((cks.len() - 1) * pts.len() + pts.len() == cks.len() * pts.len())
            by (nonlinear_arith);
    } else {
        assert(cks.len() * pts.len() == 0) by (nonlinear_arith)
            requires
                cks.len() == 0,
        ;
    }
}

/// Division rounded half away from zero, for a positive divisor.
pub open spec fn spec_round_div(n: int, d: int) -> int {
    if n >= 0 {
        (2 * n + d) / (2 * d)
    } else {
        -((2 * (-n) + d) / (2 * d))
    }
}

/// The fixed-point correlation estimate of a raw match count `c` over
/// `total` trials: `2 * (c / total - 1/2)` scaled by `100000` and rounded
/// to the nearest integer, understood over the denominator `10000`.
pub open spec fn spec_corr(c: int, total: int) -> int {
    spec_round_div(100000 * (2 * c - total), total)
}

/// Converts a raw match count into the fixed-point correlation estimate.
pub fn corr_fixed_point(c: u64, total: u64) -> (r: i64)
    requires
        1 <= total,
        c <= total,
        total <= 0x10_0000_0000,
    ensures
        r as int == spec_corr(c as int, total as int),
{
    let t: i64 = total as i64;
    let num: i64 = 100000 * (2 * (c as i64) - t);
    if num >= 0 {
        (2 * num + t) / (2 * t)
    } else {
        -((2 * (-num) + t) / (2 * t))
    }
}

/// How often `v` occurs in the sequence.
pub open spec fn count_of(s: Seq<i64>, v: i64) -> int
    decreases s.len(),
{
    if s.len() == 0 {
        0
    } else {
        count_of(s.drop_last(), v) + if s.last() == v {
            1int
        } else {
            0int
        }
    }
}

pub proof fn lemma_count_of_nonneg(s: Seq<i64>, v: i64)
    ensures
        0 <= count_of(s, v) <= s.len(),
    decreases s.len(),
{
    if s.len() > 0 {
        lemma_count_of_nonneg(s.drop_last(), v);
    }
}

proof fn lemma_count_of_contains(s: Seq<i64>, v: i64)
    ensures
        count_of(s, v) > 0 <==> s.contains(v),
    decreases s.len(),
{
    if s.len() > 0 {
        lemma_count_of_contains(s.drop_last(), v);
        lemma_count_of_nonneg(s.drop_last(), v);
        if s.last() == v {
            assert(s[s.len() - 1] == v);
        }
        if s.drop_last().contains(v) {
            let i = choose|i: int| 0 <= i < s.len() - 1 && s.drop_last()[i] == v;
            assert(s[i] == v);
        }
        if s.contains(v) && s.last() != v {
            let i = choose|i: int| 0 <= i < s.len() && s[i] == v;
            assert(i < s.len() - 1);
            assert(s.drop_last()[i] == v);
        }
    }
}

/// A histogram of the given correlation values: one entry per distinct
/// value with its occurrence count, sorted by occurrence count and then
/// by value, ascending.
#[verifier::rlimit(100)]
pub fn bias_histogram(corrs: &Vec<i64>) -> (r: Vec<(i64, u64)>)
    ensures
        forall|idx: int| 0 <= idx < r@.len() ==> {
            let (cv, ct) = #[trigger] r@[idx];
            ct as int == count_of(corrs@, cv) && ct > 0
        },
        forall|v: i64| corrs@.contains(v) ==> exists|idx: int| 0 <= idx < r@.len() && (
        #[trigger] r@[idx]).0 == v,
        forall|i1: int, i2: int| 0 <= i1 < i2 < r@.len() ==> r@[i1].0 != r@[i2].0,
        forall|i1: int, i2: int| 0 <= i1 < i2 < r@.len() ==> (r@[i1].1 < r@[i2].1 || (r@[i1].1
            == r@[i2].1 && r@[i1].0 < r@[i2].0)),
{
    let n = corrs.len();
    let mut groups: Vec<(i64, u64)> = Vec::new();
    let mut i: usize = 0;
    while i < n
        invariant
            i <= n,
            n == corrs@.len(),
            forall|idx: int| 0 <= idx < groups@.len() ==> {
                let (cv, ct) = #[trigger] groups@[idx];
                ct as int == count_of(corrs@.take(i as int), cv) && ct > 0
            },
            forall|v: i64| corrs@.take(i as int).contains(v) ==> exists|idx: int|
                0 <= idx < groups@.len() && (#[trigger] groups@[idx]).0 == v,
            forall|i1: int, i2: int| 0 <= i1 < i2 < groups@.len() ==> groups@[i1].0
                != groups@[i2].0,
        decreases n - i,
    {
        let v = corrs[i];
        let ghost pre = groups@;
        let ghost prefix = corrs@.take(i as int);
        proof {
            assert(corrs@.take(i + 1).drop_last() =~= prefix);
            assert(corrs@.take(i + 1).last() == v);
        }
        let mut found = false;
        let mut g: usize = 0;
        while g < groups.len()
            invariant
                g <= groups@.len(),
                n == corrs@.len(),
                i < n,
                v == corrs@[i as int],
                prefix == corrs@.take(i as int),
                corrs@.take(i as int + 1).drop_last() == prefix,
                corrs@.take(i as int + 1).last() == v,
                forall|i1: int, i2: int| 0 <= i1 < i2 < pre.len() ==> pre[i1].0 != pre[i2].0,
                !found ==> forall|idx: int| 0 <= idx < g ==> (#[trigger] groups@[idx]).0 != v,
                !found ==> groups@ == pre,
                found ==> {
                    &&& groups@.len() == pre.len()
                    &&& exists|w: int| 0 <= w < groups@.len() && groups@ == pre.update(
                        w,
                        (v, (count_of(prefix, v) + 1) as u64),
                    ) && pre[w].0 == v
                },
                forall|idx: int| 0 <= idx < pre.len() ==> (#[trigger] pre[idx]).1 as int
                    == count_of(prefix, pre[idx].0) && pre[idx].1 > 0,
                forall|v2: i64| prefix.contains(v2) ==> exists|idx: int| 0 <= idx < pre.len() && (
                #[trigger] pre[idx]).0 == v2,
            decreases groups@.len() - g,
        {
            if !found {
                let (gv, gc) = groups[g];
                if gv == v {
                    proof {
                        lemma_count_of_nonneg(prefix, v);
                    }
                    groups[g] = (v, gc + 1);
                    found = true;
                    proof {
                        assert(groups@ == pre.update(
                            g as int,
                            (v, (count_of(prefix, v) + 1) as u64),
                        ));
                    }
                }
            }
            g += 1;
        }
        if !found {
            proof {
                lemma_count_of_contains(prefix, v);
            }
            groups.push((v, 1));
        }
        proof {
            let cur = corrs@.take(i as int + 1);
            assert(cur.len() == i + 1);
            assert(cur.drop_last() == prefix && cur.last() == v);
            if found {
                let w = choose|w: int|
                    0 <= w < groups@.len() && groups@ == pre.update(
                        w,
                        (v, (count_of(prefix, v) + 1) as u64),
                    ) && pre[w].0 == v;
                lemma_count_of_nonneg(prefix, v);
                assert forall|idx: int| 0 <= idx < groups@.len() implies {
                    let (cv, ct) = #[trigger] groups@[idx];
                    ct as int == count_of(cur, cv) && ct > 0
                } by {
                    let (cv, ct) = groups@[idx];
                    if idx == w {
                        assert(cv == v && ct as int == count_of(prefix, v) + 1);
                        assert(count_of(cur, v) == count_of(prefix, v) + 1);
                    } else {
                        assert(groups@[idx] == pre[idx]);
                        assert(pre[idx].0 != pre[w].0);
                        assert(cv != v);
                        assert(count_of(cur, cv) == count_of(prefix, cv));
                    }
                }
                assert forall|v2: i64| cur.contains(v2) implies exists|idx: int|
                    0 <= idx < groups@.len() && (#[trigger] groups@[idx]).0 == v2 by {
                    if v2 == v {
                        assert(groups@[w].0 == v2);
                    } else {
                        let q = choose|q: int| 0 <= q < cur.len() && cur[q] == v2;
                        assert(prefix[q] == v2);
                        assert(prefix.contains(v2));
                        let w2 = choose|w2: int|
                            0 <= w2 < pre.len() && (#[trigger] pre[w2]).0 == v2;
                        assert(w2 != w);
                        assert(groups@[w2] == pre[w2]);
                    }
                }
            } else {
                lemma_count_of_contains(prefix, v);
                lemma_count_of_nonneg(prefix, v);
                assert(!prefix.contains(v)) by {
                    if prefix.contains(v) {
                        let w2 = choose|w2: int|
                            0 <= w2 < pre.len() && (#[trigger] pre[w2]).0 == v;
                        assert(false);
                    }
                }
                assert(count_of(prefix, v) == 0);
                assert forall|idx: int| 0 <= idx < groups@.len() implies {
                    let (cv, ct) = #[trigger] groups@[idx];
                    ct as int == count_of(cur, cv) && ct > 0
                } by {
                    let (cv, ct) = groups@[idx];
                    if idx == groups@.len() - 1 {
                        assert(cv == v && ct == 1);
                        assert(count_of(cur, v) == count_of(prefix, v) + 1);
                    } else {
                        assert(groups@[idx] == pre[idx]);
                        assert(cv != v) by {
                            if cv == v {
                                assert(pre[idx].0 == v);
                                assert(false);
                            }
                        }
                        assert(count_of(cur, cv) == count_of(prefix, cv));
                    }
                }
                assert forall|v2: i64| cur.contains(v2) implies exists|idx: int|
                    0 <= idx < groups@.len() && (#[trigger] groups@[idx]).0 == v2 by {
                    if v2 == v {
                        assert(groups@[groups@.len() - 1].0 == v);
                    } else {
                        let q = choose|q: int| 0 <= q < cur.len() && cur[q] == v2;
                        assert(prefix[q] == v2);
                        assert(prefix.contains(v2));
                        let w2 = choose|w2: int|
                            0 <= w2 < pre.len() && (#[trigger] pre[w2]).0 == v2;
                        assert(groups@[w2] == pre[w2]);
                    }
                }
                assert forall|i1: int, i2: int| 0 <= i1 < i2 < groups@.len() implies groups@[i1].0
                    != groups@[i2].0 by {
                    if i2 == groups@.len() - 1 {
                        assert(groups@[i1] == pre[i1]);
                        if groups@[i1].0 == v {
                            assert(false);
                        }
                    }
                }
            }
            if found {
                let w = choose|w: int|
                    0 <= w < groups@.len() && groups@ == pre.update(
                        w,
                        (v, (count_of(prefix, v) + 1) as u64),
                    ) && pre[w].0 == v;
                assert forall|i1: int, i2: int| 0 <= i1 < i2 < groups@.len() implies groups@[i1].0
                    != groups@[i2].0 by {
                    assert(groups@[i1].0 == pre[i1].0 && groups@[i2].0 == pre[i2].0);
                }
            }
        }
        i += 1;
    }
    proof {
        assert(corrs@.take(n as int) =~= corrs@);
    }
    // Sort the grouped entries by occurrence count, then by value.
    let mut sorted: Vec<(i64, u64)> = Vec::new();
    let mut s: usize = 0;
    while s < groups.len()
        invariant
            s <= groups@.len(),
            sorted@.len() == s,
            forall|idx: int| 0 <= idx < groups@.len() ==> {
                let (cv, ct) = #[trigger] groups@[idx];
                ct as int == count_of(corrs@, cv) && ct > 0
            },
            forall|v: i64| corrs@.contains(v) ==> exists|idx: int| 0 <= idx < groups@.len() && (
            #[trigger] groups@[idx]).0 == v,
            forall|i1: int, i2: int| 0 <= i1 < i2 < groups@.len() ==> groups@[i1].0
                != groups@[i2].0,
            forall|idx: int| 0 <= idx < sorted@.len() ==> exists|w: int| 0 <= w < s && groups@[w]
                == (#[trigger] sorted@[idx]),
            forall|w: int| 0 <= w < s ==> exists|idx: int| 0 <= idx < sorted@.len()
                && sorted@[idx] == (#[trigger] groups@[w]),
            forall|i1: int, i2: int| 0 <= i1 < i2 < sorted@.len() ==> rank_lt(
                sorted@[i1],
                sorted@[i2],
            ),
        decreases groups@.len() - s,
    {
        let item = groups[s];
        proof {
            assert forall|w: int| 0 <= w < sorted@.len() implies (#[trigger] sorted@[w]).0
                != item.0 by {
                let w2 = choose|w2: int| 0 <= w2 < s && groups@[w2] == sorted@[w];
            }
        }
        let ghost pre_sorted = sorted@;
        let Ghost(pos) = insert_by_rank(&mut sorted, item);
        proof {
            assert forall|idx: int| 0 <= idx < sorted@.len() implies exists|w: int|
                0 <= w < s + 1 && groups@[w] == (#[trigger] sorted@[idx]) by {
                if idx < pos {
                    assert(sorted@[idx] == pre_sorted[idx]);
                } else if idx == pos {
                    assert(sorted@[idx] == item && groups@[s as int] == item);
                } else {
                    assert(sorted@[idx] == pre_sorted[idx - 1]);
                }
            }
            assert forall|w: int| 0 <= w < s + 1 implies exists|idx: int|
                0 <= idx < sorted@.len() && sorted@[idx] == (#[trigger] groups@[w]) by {
                if w == s as int {
                    assert(sorted@[pos] == groups@[s as int]);
                } else {
                    let widx = choose|widx: int|
                        0 <= widx < pre_sorted.len() && pre_sorted[widx] == groups@[w];
                    if widx < pos {
                        assert(sorted@[widx] == groups@[w]);
                    } else {
                        assert(sorted@[widx + 1] == groups@[w]);
                    }
                }
            }
        }
        s += 1;
    }
    proof {
        assert forall|idx: int| 0 <= idx < sorted@.len() implies {
            let (cv, ct) = #[trigger] sorted@[idx];
            ct as int == count_of(corrs@, cv) && ct > 0
        } by {
            let w = choose|w: int| 0 <= w < groups@.len() && groups@[w] == sorted@[idx];
        }
        assert forall|v: i64| corrs@.contains(v) implies exists|idx: int|
            0 <= idx < sorted@.len() && (#[trigger] sorted@[idx]).0 == v by {
            let w = choose|w: int| 0 <= w < groups@.len() && (#[trigger] groups@[w]).0 == v;
            let w2 = choose|w2: int| 0 <= w2 < sorted@.len() && sorted@[w2] == groups@[w];
            assert(sorted@[w2].0 == v);
        }
        assert forall|i1: int, i2: int| 0 <= i1 < i2 < sorted@.len() implies sorted@[i1].0
            != sorted@[i2].0 && (sorted@[i1].1 < sorted@[i2].1 || (sorted@[i1].1 == sorted@[i2].1
            && sorted@[i1].0 < sorted@[i2].0)) by {
            assert(rank_lt(sorted@[i1], sorted@[i2]));
        }
    }
    sorted
}

/// The histogram order: by occurrence count, ties broken by value.
pub open spec fn rank_lt(a: (i64, u64), b: (i64, u64)) -> bool {
    a.1 < b.1 || (a.1 == b.1 && a.0 < b.0)
}

/// Inserts an entry into a vector kept strictly ordered by `rank_lt`,
/// assuming no present entry shares its value.
fn insert_by_rank(sorted: &mut Vec<(i64, u64)>, item: (i64, u64)) -> (pos: Ghost<int>)
    requires
        forall|i1: int, i2: int| 0 <= i1 < i2 < old(sorted)@.len() ==> rank_lt(
            old(sorted)@[i1],
            old(sorted)@[i2],
        ),
        forall|w: int| 0 <= w < old(sorted)@.len() ==> (#[trigger] old(sorted)@[w]).0 != item.0,
    ensures
        0 <= pos@ <= old(sorted)@.len(),
        final(sorted)@ == old(sorted)@.insert(pos@, item),
        forall|i1: int, i2: int| 0 <= i1 < i2 < final(sorted)@.len() ==> rank_lt(
            final(sorted)@[i1],
            final(sorted)@[i2],
        ),
{
    let mut pos: usize = 0;
    while pos < sorted.len() && (sorted[pos].1 < item.1 || (sorted[pos].1 == item.1
        && sorted[pos].0 < item.0))
        invariant
            pos <= sorted@.len(),
            forall|w: int| 0 <= w < pos ==> rank_lt(#[trigger] sorted@[w], item),
        decreases sorted@.len() - pos,
    {
        pos += 1;
    }
    proof {
        if (pos as int) < sorted@.len() {
            assert(!rank_lt(sorted@[pos as int], item));
        }
    }
    let ghost pre = sorted@;
    sorted.insert(pos, item);
    proof {
        assert(sorted@ == pre.insert(pos as int, item));
        assert forall|i1: int, i2: int| 0 <= i1 < i2 < sorted@.len() implies rank_lt(
            sorted@[i1],
            sorted@[i2],
        ) by {
            let a1 = if i1 < pos {
                pre[i1]
            } else if i1 == pos {
                item
            } else {
                pre[i1 - 1]
            };
            let a2 = if i2 < pos {
                pre[i2]
            } else if i2 == pos {
                item
            } else {
                pre[i2 - 1]
            };
            assert(sorted@[i1] == a1 && sorted@[i2] == a2);
            if i2 == pos {
                assert(rank_lt(a1, item));
            } else if i1 == pos {
                let w = i2 - 1;
                assert((pos as int) < pre.len());
                assert(!rank_lt(pre[pos as int], item));
                assert(pre[pos as int].0 != item.0);
                assert(rank_lt(item, pre[pos as int]));
                if w > pos {
                    assert(rank_lt(pre[pos as int], pre[w]));
                }
                assert(rank_lt(item, pre[w]));
            }
        }
    }
    Ghost(pos as int)
}

/// Counts, for one cipher and one mask pair, how many plaintexts satisfy
/// the one-bit linear relation.
fn match_count_one_key(cipher: &Present, pts: &Vec<u64>, rounds: usize, am: u64, bm: u64) -> (c:
    u64)
    requires
        cipher.wf(),
        rounds == cipher.rounds,
        pts@.len() < u64::MAX,
    ensures
        c as int == spec_match_count_key(cipher.sched.keys@, rounds as nat, pts@, am, bm),
{
    let mut c: u64 = 0;
    let mut i: usize = 0;
    while i < pts.len()
        invariant
            i <= pts@.len(),
            pts@.len() < u64::MAX,
            cipher.wf(),
            rounds == cipher.rounds,
            c as int == spec_match_count_key(
                cipher.sched.keys@,
                rounds as nat,
                pts@.take(i as int),
                am,
                bm,
            ),
        decreases pts@.len() - i,
    {
        let p = pts[i];
        let ct = cipher.enc(p, rounds);
        let pa = dot_prod_f2(p, am);
        let ca = dot_prod_f2(ct, bm);
        proof {
            lemma_match_count_key_bound(
                cipher.sched.keys@,
                rounds as nat,
                pts@.take(i as int),
                am,
                bm,
            );
            assert(pts@.take(i as int + 1).drop_last() =~= pts@.take(i as int));
            assert(pts@.take(i as int + 1).last() == p);
        }
        if pa == ca {
            c = c + 1;
        }
        i += 1;
    }
    proof {
        assert(pts@.take(pts@.len() as int) =~= pts@);
    }
    c
}

/// Runs the full experiment: for every mask pair, counts matches over
/// every sampled key and plaintext, converts each count into a
/// fixed-point correlation, and groups the correlations into a
/// histogram.
pub fn empirical_bias_distribution(
    mask_pairs: &Vec<(u64, u64)>,
    cks: &Vec<PresentCipherKey>,
    pts: &Vec<u64>,
    rounds: usize,
) -> (r: Vec<(i64, u64)>)
    requires
        rounds < usize::MAX,
        1 <= cks@.len(),
        1 <= pts@.len(),
        cks@.len() * pts@.len() <= 0x10_0000_0000,
    ensures
        ({
            let kview = cks@.map_values(|ck: PresentCipherKey| (ck.high, ck.low));
            let total = cks@.len() * pts@.len();
            let corrs = Seq::new(
                mask_pairs@.len(),
                |m: int| spec_corr(
                    spec_match_count(
                        kview,
                        rounds as nat,
                        pts@,
                        mask_pairs@[m].0,
                        mask_pairs@[m].1,
                    ),
                    total as int,
                ) as i64,
            );
            &&& forall|idx: int| 0 <= idx < r@.len() ==> {
                let (cv, ct) = #[trigger] r@[idx];
                ct as int == count_of(corrs, cv) && ct > 0
            }
            &&& forall|v: i64| corrs.contains(v) ==> exists|idx: int| 0 <= idx < r@.len() && (
            #[trigger] r@[idx]).0 == v
            &&& forall|i1: int, i2: int| 0 <= i1 < i2 < r@.len() ==> r@[i1].0 != r@[i2].0
            &&& forall|i1: int, i2: int| 0 <= i1 < i2 < r@.len() ==> (r@[i1].1 < r@[i2].1 || (
            r@[i1].1 == r@[i2].1 && r@[i1].0 < r@[i2].0))
        }),
{
    let ghost kview = cks@.map_values(|ck: PresentCipherKey| (ck.high, ck.low));
    let nmasks = mask_pairs.len();
    let total: u64 = (cks.len() as u64) * (pts.len() as u64);
    proof {
        assert((cks@.len() as u64) * (pts@.len() as u64) == cks@.len() * pts@.len())
            by (nonlinear_arith)
            requires
                cks@.len() * pts@.len() <= 0x10_0000_0000,
        ;
        assert(total >= 1) by (nonlinear_arith)
            requires
                total == cks@.len() * pts@.len() && cks@.len() >= 1 && pts@.len() >= 1,
        ;
    }
    proof {
        assert(pts@.len() <= 0x10_0000_0000 && cks@.len() <= 0x10_0000_0000) by (nonlinear_arith)
            requires
                cks@.len() * pts@.len() <= 0x10_0000_0000 && 1 <= cks@.len() && 1 <= pts@.len(),
        ;
    }
    let mut corrs: Vec<i64> = Vec::new();
    let mut m: usize = 0;
    let ghost spec_corrs = Seq::new(
        mask_pairs@.len(),
        |mm: int| spec_corr(
            spec_match_count(kview, rounds as nat, pts@, mask_pairs@[mm].0, mask_pairs@[mm].1),
            total as int,
        ) as i64,
    );
    while m < nmasks
        invariant
            m <= nmasks,
            nmasks == mask_pairs@.len(),
            rounds < usize::MAX,
            1 <= cks@.len(),
            1 <= pts@.len(),
            pts@.len() < u64::MAX,
            total == cks@.len() * pts@.len(),
            1 <= total <= 0x10_0000_0000,
            kview == cks@.map_values(|ck: PresentCipherKey| (ck.high, ck.low)),
            spec_corrs == Seq::new(
                mask_pairs@.len(),
                |mm: int| spec_corr(
                    spec_match_count(
                        kview,
                        rounds as nat,
                        pts@,
                        mask_pairs@[mm].0,
                        mask_pairs@[mm].1,
                    ),
                    total as int,
                ) as i64,
            ),
            corrs@.len() == m,
            forall|mm: int| 0 <= mm < m ==> #[trigger] corrs@[mm] == spec_corrs[mm],
        decreases nmasks - m,
    {
        let (am, bm) = mask_pairs[m];
        let mut count: u64 = 0;
        let mut ki: usize = 0;
        while ki < cks.len()
            invariant
                ki <= cks@.len(),
                rounds < usize::MAX,
                pts@.len() < u64::MAX,
                total == cks@.len() * pts@.len(),
                total <= 0x10_0000_0000,
                kview == cks@.map_values(|ck: PresentCipherKey| (ck.high, ck.low)),
                am == mask_pairs@[m as int].0,
                bm == mask_pairs@[m as int].1,
                m < mask_pairs@.len(),
                count as int == spec_match_count(
                    kview.take(ki as int),
                    rounds as nat,
                    pts@,
                    am,
                    bm,
                ),
            decreases cks@.len() - ki,
        {
            let ck = cks[ki];
            let cipher = Present::new(ck, rounds);
            let c1 = match_count_one_key(&cipher, pts, rounds, am, bm);
            proof {
                lemma_match_count_bound(kview.take(ki as int), rounds as nat, pts@, am, bm);
                lemma_match_count_key_bound(cipher.sched.keys@, rounds as nat, pts@, am, bm);
                assert(kview.take(ki as int).len() * pts@.len() <= (cks@.len() - 1) * pts@.len())
                    by (nonlinear_arith)
                    requires
                        0 <= (ki as int) <= cks@.len() - 1 && kview.take(ki as int).len()
                            == ki as int,
                ;
                assert((cks@.len() - 1) * pts@.len() + pts@.len() == total) by (nonlinear_arith)
                    requires
                        total == cks@.len() * pts@.len(),
                ;
                assert(kview.take(ki as int + 1).drop_last() =~= kview.take(ki as int));
                assert(kview.take(ki as int + 1).last() == (ck.high, ck.low));
                assert(cipher.sched.keys@ == spec_present_schedule(ck.high, ck.low, rounds as nat));
            }
            count = count + c1;
            ki += 1;
        }
        proof {
            assert(kview.take(cks@.len() as int) =~= kview);
            lemma_match_count_bound(kview, rounds as nat, pts@, am, bm);
        }
        let cr = corr_fixed_point(count, total);
        corrs.push(cr);
        proof {
            assert(spec_corrs[m as int] == cr);
        }
        m += 1;
    }
    proof {
        assert(corrs@ =~= spec_corrs);
    }
    bias_histogram(&corrs)
}

} // verus!
