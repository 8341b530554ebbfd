//! Square matrices of trail counts over unsigned 64-bit entries, with
//! checked multiplication and exponentiation by repeated squaring.
//! Overflow is surfaced to the caller instead of wrapping silently.

use vstd::prelude::*;
use crate::sums::{sum, lemma_sum_ext, lemma_sum_scale, lemma_sum_swap, lemma_sum_delta,
    lemma_sum_nonneg_term, lemma_sum_prefix_le};

verus! {

/// A square matrix view of dimension `n`: rows of mathematical integers.
pub open spec fn mat_wf(m: Seq<Seq<int>>, n: int) -> bool {
    &&& m.len() == n
    &&& forall|i: int| 0 <= i < n ==> (#[trigger] m[i]).len() == n
}

/// All entries are nonnegative.
pub open spec fn mat_nonneg(m: Seq<Seq<int>>, n: int) -> bool {
    forall|i: int, j: int| 0 <= i < n && 0 <= j < n ==> #[trigger] m[i][j] >= 0
}

/// All entries fit into a 64-bit unsigned word.
pub open spec fn mat_fits(m: Seq<Seq<int>>, n: int) -> bool {
    forall|i: int, j: int| 0 <= i < n && 0 <= j < n ==> #[trigger] m[i][j] <= u64::MAX
}

/// The matrix product of two `n` by `n` matrices.
pub open spec fn spec_mat_mul(a: Seq<Seq<int>>, b: Seq<Seq<int>>, n: int) -> Seq<Seq<int>> {
    Seq::new(n as nat, |i: int| Seq::new(n as nat, |j: int| sum(n, |k: int| a[i][k] * b[k][j])))
}

/// The identity matrix of dimension `n`.
pub open spec fn spec_mat_id(n: int) -> Seq<Seq<int>> {
    Seq::new(
        n as nat,
        |i: int| Seq::new(n as nat, |j: int| if i == j { 1int } else { 0int }),
    )
}

/// The all-zero matrix of dimension `n`.
pub open spec fn spec_mat_zero(n: int) -> Seq<Seq<int>> {
    Seq::new(n as nat, |i: int| Seq::new(n as nat, |j: int| 0int))
}

/// The `e`-th power of an `n` by `n` matrix.
pub open spec fn spec_mat_pow(m: Seq<Seq<int>>, n: int, e: nat) -> Seq<Seq<int>>
    decreases e,
{
    if e == 0 {
        spec_mat_id(n)
    } else {
        spec_mat_mul(spec_mat_pow(m, n, (e - 1) as nat), m, n)
    }
}

/// A product of well-formed matrices is well formed; nonnegativity is
/// preserved.
pub proof fn lemma_mul_wf(a: Seq<Seq<int>>, b: Seq<Seq<int>>, n: int)
    requires
        mat_wf(a, n),
        mat_wf(b, n),
        mat_nonneg(a, n),
        mat_nonneg(b, n),
    ensures
        mat_wf(spec_mat_mul(a, b, n), n),
        mat_nonneg(spec_mat_mul(a, b, n), n),
{
    let p = spec_mat_mul(a, b, n);
    assert forall|i: int, j: int| 0 <= i < n && 0 <= j < n implies #[trigger] p[i][j] >= 0 by {
        let f = |k: int| a[i][k] * b[k][j];
        assert forall|k: int| 0 <= k < n implies #[trigger] f(k) >= 0 by {
            assert(a[i][k] >= 0 && b[k][j] >= 0);
            assert(a[i][k] * b[k][j] >= 0) by (nonlinear_arith)
                requires
                    a[i][k] >= 0 && b[k][j] >= 0,
            ;
        }
        lemma_sum_nonneg_term(n, 0, f);
    }
}

/// Multiplying by the identity on the right changes nothing.
pub proof fn lemma_mul_id_right(a: Seq<Seq<int>>, n: int)
    requires
        mat_wf(a, n),
    ensures
        spec_mat_mul(a, spec_mat_id(n), n) =~~= a,
{
    let idm = spec_mat_id(n);
    let p = spec_mat_mul(a, idm, n);
    assert forall|i: int, j: int| 0 <= i < n && 0 <= j < n implies #[trigger] p[i][j] == a[i][j] by {
        let f = |k: int| a[i][k] * idm[k][j];
        assert forall|k: int| 0 <= k < n && k != j implies #[trigger] f(k) == 0 by {
            assert(idm[k][j] == 0);
        }
        lemma_sum_delta(n, j, f);
        assert(f(j) == a[i][j] * 1);
    }
}

/// Multiplying by the identity on the left changes nothing.
pub proof fn lemma_mul_id_left(a: Seq<Seq<int>>, n: int)
    requires
        mat_wf(a, n),
    ensures
        spec_mat_mul(spec_mat_id(n), a, n) =~~= a,
{
    let idm = spec_mat_id(n);
    let p = spec_mat_mul(idm, a, n);
    assert forall|i: int, j: int| 0 <= i < n && 0 <= j < n implies #[trigger] p[i][j] == a[i][j] by {
        let f = |k: int| idm[i][k] * a[k][j];
        assert forall|k: int| 0 <= k < n && k != i implies #[trigger] f(k) == 0 by {
            assert(idm[i][k] == 0);
        }
        lemma_sum_delta(n, i, f);
        assert(f(i) == 1 * a[i][j]);
    }
}

/// Matrix multiplication is associative.
pub proof fn lemma_mul_assoc(a: Seq<Seq<int>>, b: Seq<Seq<int>>, c: Seq<Seq<int>>, n: int)
    requires
        mat_wf(a, n),
        mat_wf(b, n),
        mat_wf(c, n),
    ensures
        spec_mat_mul(spec_mat_mul(a, b, n), c, n) =~~= spec_mat_mul(a, spec_mat_mul(b, c, n), n),
{
    let ab = spec_mat_mul(a, b, n);
    let bc = spec_mat_mul(b, c, n);
    let lhs = spec_mat_mul(ab, c, n);
    let rhs = spec_mat_mul(a, bc, n);
    assert forall|i: int, j: int| 0 <= i < n && 0 <= j < n implies #[trigger] lhs[i][j]
        == rhs[i][j] by {
        let g = |k: int, l: int| a[i][l] * b[l][k] * c[k][j];
        // The left-hand entry is the double sum over k (outer) and l.
        let lf = |k: int| ab[i][k] * c[k][j];
        assert forall|k: int| 0 <= k < n implies #[trigger] lf(k) == sum(n, |l: int| g(k, l)) by {
            let fab = |l: int| a[i][l] * b[l][k];
            let cc = c[k][j];
            assert(ab[i][k] == sum(n, fab));
            lemma_sum_scale(n, cc, fab);
            assert forall|l: int| 0 <= l < n implies cc * (#[trigger] fab(l)) == g(k, l) by {
                assert(cc * (a[i][l] * b[l][k]) == a[i][l] * b[l][k] * cc) by (nonlinear_arith);
            }
            lemma_sum_ext(n, |l: int| cc * fab(l), |l: int| g(k, l));
        }
        lemma_sum_ext(n, lf, |k: int| sum(n, |l: int| g(k, l)));
        lemma_sum_swap(n, n, g);
        // The right-hand entry is the double sum over l (outer) and k.
        let rf = |l: int| a[i][l] * bc[l][j];
        assert forall|l: int| 0 <= l < n implies #[trigger] rf(l) == sum(n, |k: int| g(k, l)) by {
            let fbc = |k: int| b[l][k] * c[k][j];
            let aa = a[i][l];
            assert(bc[l][j] == sum(n, fbc));
            lemma_sum_scale(n, aa, fbc);
            assert forall|k: int| 0 <= k < n implies aa * (#[trigger] fbc(k)) == g(k, l) by {
                assert(aa * (b[l][k] * c[k][j]) == a[i][l] * b[l][k] * c[k][j])
                    by (nonlinear_arith)
                    requires
                        aa == a[i][l],
                ;
            }
            lemma_sum_ext(n, |k: int| aa * fbc(k), |k: int| g(k, l));
        }
        lemma_sum_ext(n, rf, |l: int| sum(n, |k: int| g(k, l)));
        assert(lhs[i][j] == sum(n, lf));
        assert(rhs[i][j] == sum(n, rf));
    }
}

/// Powers of a well-formed matrix are well formed and nonnegative.
pub proof fn lemma_pow_wf(m: Seq<Seq<int>>, n: int, e: nat)
    requires
        mat_wf(m, n),
        mat_nonneg(m, n),
        n >= 0,
    ensures
        mat_wf(spec_mat_pow(m, n, e), n),
        mat_nonneg(spec_mat_pow(m, n, e), n),
    decreases e,
{
    if e == 0 {
    } else {
        lemma_pow_wf(m, n, (e - 1) as nat);
        lemma_mul_wf(spec_mat_pow(m, n, (e - 1) as nat), m, n);
    }
}

/// Exponent composition: raising to `a + b` is the product of the powers
/// `a` and `b`. Propagating trails over `a + b` rounds therefore agrees
/// with propagating over `a` rounds and then over `b` rounds.
pub proof fn lemma_pow_add(m: Seq<Seq<int>>, n: int, a: nat, b: nat)
    requires
        mat_wf(m, n),
        mat_nonneg(m, n),
        n >= 0,
    ensures
        spec_mat_pow(m, n, a + b) =~~= spec_mat_mul(
            spec_mat_pow(m, n, a),
            spec_mat_pow(m, n, b),
            n,
        ),
    decreases b,
{
    lemma_pow_wf(m, n, a);
    lemma_pow_wf(m, n, b);
    if b == 0 {
        lemma_mul_id_right(spec_mat_pow(m, n, a), n);
    } else {
        lemma_pow_add(m, n, a, (b - 1) as nat);
        lemma_pow_wf(m, n, (b - 1) as nat);
        assert(spec_mat_pow(m, n, a + b) == spec_mat_mul(
            spec_mat_pow(m, n, (a + b - 1) as nat),
            m,
            n,
        ));
        lemma_mul_assoc(spec_mat_pow(m, n, a), spec_mat_pow(m, n, (b - 1) as nat), m, n);
        assert(spec_mat_pow(m, n, (a + b - 1) as nat) =~~= spec_mat_mul(
            spec_mat_pow(m, n, a),
            spec_mat_pow(m, n, (b - 1) as nat),
            n,
        ));
    }
}

/// The row-major position of entry `(i, j)` in a flat backing store of
/// dimension `n`.
pub open spec fn flat_idx(n: int, i: int, j: int) -> int {
    i * n + j
}

/// A square matrix of 64-bit trail counts, stored row-major.
pub struct TrailMatrix {
    pub n: usize,
    pub data: Vec<u64>,
}

impl TrailMatrix {
    /// The matrix as a sequence of rows of mathematical integers.
    pub open spec fn m(&self) -> Seq<Seq<int>> {
        Seq::new(
            self.n as nat,
            |i: int| Seq::new(self.n as nat, |j: int| self.data@[flat_idx(self.n as int, i, j)] as int),
        )
    }

    /// The backing vector holds exactly `n * n` entries.
    pub open spec fn wf(&self) -> bool {
        self.data@.len() == self.n * self.n
    }

    proof fn lemma_index(&self, i: int, j: int)
        requires
            self.wf(),
            0 <= i < self.n,
            0 <= j < self.n,
        ensures
            0 <= i * (self.n as int) + j < self.data@.len(),
            self.m()[i][j] == self.data@[i * (self.n as int) + j] as int,
            mat_wf(self.m(), self.n as int),
            mat_nonneg(self.m(), self.n as int),
            mat_fits(self.m(), self.n as int),
    {
        let n = self.n as int;
        assert(0 <= i * n + j < n * n) by (nonlinear_arith)
            requires
                0 <= i < n && 0 <= j < n,
        ;
        self.lemma_view_props();
    }

    /// The view of an actual matrix is well formed, nonnegative, and fits
    /// in 64 bits entrywise.
    pub proof fn lemma_view_props(&self)
        requires
            self.wf(),
        ensures
            mat_wf(self.m(), self.n as int),
            mat_nonneg(self.m(), self.n as int),
            mat_fits(self.m(), self.n as int),
    {
        let n = self.n as int;
        assert forall|i: int, j: int| 0 <= i < n && 0 <= j < n implies #[trigger] self.m()[i][j]
            >= 0 && self.m()[i][j] <= u64::MAX by {
            assert(0 <= i * n + j < n * n) by (nonlinear_arith)
                requires
                    0 <= i < n && 0 <= j < n,
            ;
        }
    }

    /// The dimension of the matrix.
    pub fn size(&self) -> (r: usize)
        ensures
            r == self.n,
    {
        self.n
    }

    /// The all-zero matrix of dimension `n`.
    pub fn zero(n: usize) -> (r: Self)
        requires
            n * n < usize::MAX,
        ensures
            r.wf(),
            r.n == n,
            r.m() =~~= spec_mat_zero(n as int),
    {
        let mut data: Vec<u64> = Vec::new();
        let mut i: usize = 0;
        proof {
            assert(n * n >= 0) by (nonlinear_arith);
        }
        let total: usize = n * n;
        while i < total
            invariant
                i <= total,
                data@.len() == i,
                forall|k: int| 0 <= k < i ==> data@[k] == 0,
            decreases total - i,
        {
            data.push(0);
            i += 1;
        }
        let r = TrailMatrix { n, data };
        proof {
            assert forall|a: int, b: int| 0 <= a < n && 0 <= b < n implies #[trigger] r.m()[a][b]
                == 0 by {
                r.lemma_index(a, b);
            }
        }
        r
    }

    /// The identity matrix of dimension `n`.
    pub fn identity(n: usize) -> (r: Self)
        requires
            n * n < usize::MAX,
        ensures
            r.wf(),
            r.n == n,
            r.m() =~~= spec_mat_id(n as int),
    {
        let mut data: Vec<u64> = Vec::new();
        let mut i: usize = 0;
        while i < n
            invariant
                i <= n,
                n * n < usize::MAX,
                data@.len() == i * n,
                forall|a: int, b: int| 0 <= a < i && 0 <= b < n ==> data@[flat_idx(n as int, a, b)]
                    == (if a == b { 1u64 } else { 0u64 }),
            decreases n - i,
        {
            let mut j: usize = 0;
            proof {
                assert((i + 1) * (n as int) <= n * n && i * (n as int) + n == (i + 1) * (
                n as int)) by (nonlinear_arith)
                    requires
                        i < n,
                ;
            }
            while j < n
                invariant
                    j <= n,
                    i < n,
                    n * n < usize::MAX,
                    data@.len() == i * n + j,
                    forall|a: int, b: int| 0 <= a < i && 0 <= b < n ==> data@[flat_idx(n as int, a, b)]
                        == (if a == b { 1u64 } else { 0u64 }),
                    forall|b: int| 0 <= b < j ==> data@[flat_idx(n as int, i as int, b)] == (if i == b {
                        1u64
                    } else {
                        0u64
                    }),
                decreases n - j,
            {
                proof {
                    assert(i * (n as int) + j < n * n) by (nonlinear_arith)
                        requires
                            i < n && j < n,
                    ;
                    assert forall|aa: int, bb: int| 0 <= aa < i && 0 <= bb < n implies 0 <= (
                    #[trigger] flat_idx(n as int, aa, bb)) < i * (n as int) by {
                        assert(0 <= aa * (n as int) + bb < i * (n as int)) by (nonlinear_arith)
                            requires
                                0 <= aa < i && 0 <= bb < n,
                        ;
                    }
                }
                if i == j {
                    data.push(1);
                } else {
                    data.push(0);
                }
                j += 1;
            }
            proof {
                assert forall|a: int, b: int| 0 <= a < i + 1 && 0 <= b < n implies data@[#[trigger]
                    flat_idx(n as int, a, b)] == (if a == b {
                    1u64
                } else {
                    0u64
                }) by {
                    if a == i as int {
                        assert(data@[flat_idx(n as int, i as int, b)] == (if i == b {
                            1u64
                        } else {
                            0u64
                        }));
                    }
                }
            }
            i += 1;
        }
        let r = TrailMatrix { n, data };
        proof {
            assert(r.wf()) by (nonlinear_arith)
                requires
                    r.data@.len() == n * (n as int) && r.n == n,
            ;
            assert forall|a: int, b: int| 0 <= a < n && 0 <= b < n implies #[trigger] r.m()[a][b]
                == (if a == b { 1int } else { 0int }) by {
                r.lemma_index(a, b);
            }
        }
        r
    }

    /// Reads the entry in row `i`, column `j`.
    pub fn get(&self, i: usize, j: usize) -> (r: u64)
        requires
            self.wf(),
            i < self.n,
            j < self.n,
        ensures
            r as int == self.m()[i as int][j as int],
    {
        let nlen = self.data.len();
        proof {
            self.lemma_index(i as int, j as int);
            assert(i * (self.n as int) + j < nlen);
        }
        self.data[i * self.n + j]
    }

    /// Writes the entry in row `i`, column `j`.
    pub fn set(&mut self, i: usize, j: usize, v: u64)
        requires
            old(self).wf(),
            i < old(self).n,
            j < old(self).n,
        ensures
            final(self).wf(),
            final(self).n == old(self).n,
            final(self).m() =~~= old(self).m().update(
                i as int,
                old(self).m()[i as int].update(j as int, v as int),
            ),
    {
        let nlen = self.data.len();
        proof {
            self.lemma_index(i as int, j as int);
            assert(i * (self.n as int) + j < nlen);
        }
        let idx: usize = i * self.n + j;
        self.data[idx] = v;
        proof {
            let n = self.n as int;
            assert forall|a: int, b: int| 0 <= a < n && 0 <= b < n implies #[trigger] self.m(
            )[a][b] == (if a == i as int && b == j as int {
                v as int
            } else {
                old(self).m()[a][b]
            }) by {
                self.lemma_index(a, b);
                old(self).lemma_index(a, b);
                if a != i as int || b != j as int {
                    assert(a * n + b != i as int * n + j as int) by (nonlinear_arith)
                        requires
                            0 <= a < n && 0 <= b < n && 0 <= (i as int) < n && 0 <= (j as int) < n
                                && (a != i as int || b != j as int),
                    ;
                }
            }
        }
    }

    /// Multiplies two matrices of equal dimension with checked 64-bit
    /// arithmetic; `None` exactly when some entry of the true product does
    /// not fit in 64 bits.
    pub fn mul(&self, other: &TrailMatrix) -> (r: Option<TrailMatrix>)
        requires
            self.wf(),
            other.wf(),
            self.n == other.n,
            self.n * self.n < usize::MAX,
        ensures
            match r {
                Some(p) => {
                    &&& p.wf()
                    &&& p.n == self.n
                    &&& p.m() =~~= spec_mat_mul(self.m(), other.m(), self.n as int)
                },
                None => !mat_fits(spec_mat_mul(self.m(), other.m(), self.n as int), self.n as int),
            },
    {
        let n = self.n;
        let ghost a = self.m();
        let ghost b = other.m();
        let ghost prod = spec_mat_mul(a, b, n as int);
        proof {
            self.lemma_view_props();
            other.lemma_view_props();
        }
        let mut data: Vec<u64> = Vec::new();
        let mut i: usize = 0;
        while i < n
            invariant
                i <= n,
                self.wf(),
                other.wf(),
                self.n == n,
                other.n == n,
                n * n < usize::MAX,
                a == self.m(),
                b == other.m(),
                prod == spec_mat_mul(a, b, n as int),
                data@.len() == i * n,
                forall|x: int, y: int| 0 <= x < i && 0 <= y < n ==> data@[flat_idx(n as int, x, y)]
                    as int == prod[x][y],
            decreases n - i,
        {
            let mut j: usize = 0;
            proof {
                assert(i * (n as int) + n <= n * n) by (nonlinear_arith)
                    requires
                        i < n,
                ;
            }
            while j < n
                invariant
                    j <= n,
                    i < n,
                    self.wf(),
                    other.wf(),
                    self.n == n,
                    other.n == n,
                    n * n < usize::MAX,
                    a == self.m(),
                    b == other.m(),
                    prod == spec_mat_mul(a, b, n as int),
                    data@.len() == i * n + j,
                    forall|x: int, y: int| 0 <= x < i && 0 <= y < n ==> data@[flat_idx(n as int, x, y)]
                        as int == prod[x][y],
                    forall|y: int| 0 <= y < j ==> data@[flat_idx(n as int, i as int, y)] as int == prod[i as int][y],
                decreases n - j,
            {
                let ghost f = |k: int| a[i as int][k] * b[k][j as int];
                let mut acc: u64 = 0;
                let mut k: usize = 0;
                proof {
                    assert(prod[i as int][j as int] == sum(n as int, f));
                    assert forall|k0: int| 0 <= k0 < n implies #[trigger] f(k0) >= 0 by {
                        assert(a[i as int][k0] >= 0 && b[k0][j as int] >= 0);
                        assert(a[i as int][k0] * b[k0][j as int] >= 0) by (nonlinear_arith)
                            requires
                                a[i as int][k0] >= 0 && b[k0][j as int] >= 0,
                        ;
                    }
                }
                while k < n
                    invariant
                        k <= n,
                        i < n,
                        j < n,
                        self.wf(),
                        other.wf(),
                        self.n == n,
                        other.n == n,
                        a == self.m(),
                        b == other.m(),
                        f == (|k: int| a[i as int][k] * b[k][j as int]),
                        forall|k0: int| 0 <= k0 < n ==> #[trigger] f(k0) >= 0,
                        acc as int == sum(k as int, f),
                    decreases n - k,
                {
                    let x = self.get(i, k);
                    let y = other.get(k, j);
                    let ghost kk = k as int;
                    let term = match x.checked_mul(y) {
                        Some(t) => t,
                        None => {
                            proof {
                                lemma_mul_overflow(a, b, n as int, i as int, j as int, kk, f);
                            }
                            return None;
                        },
                    };
                    let new_acc = match acc.checked_add(term) {
                        Some(t) => t,
                        None => {
                            proof {
                                assert(sum(kk + 1, f) == sum(kk, f) + f(kk));
                                lemma_mul_overflow_sum(a, b, n as int, i as int, j as int, kk, f);
                            }
                            return None;
                        },
                    };
                    proof {
                        assert(sum(kk + 1, f) == sum(kk, f) + f(kk));
                    }
                    acc = new_acc;
                    k += 1;
                }
                proof {
                    assert(i * (n as int) + j < n * n) by (nonlinear_arith)
                        requires
                            i < n && j < n,
                    ;
                    assert forall|xx: int, yy: int| 0 <= xx < i && 0 <= yy < n implies 0 <= (
                    #[trigger] flat_idx(n as int, xx, yy)) < i * (n as int) by {
                        assert(0 <= xx * (n as int) + yy < i * (n as int)) by (nonlinear_arith)
                            requires
                                0 <= xx < i && 0 <= yy < n,
                        ;
                    }
                }
                data.push(acc);
                j += 1;
            }
            proof {
                assert(i * (n as int) + n == (i + 1) * (n as int)) by (nonlinear_arith);
                assert forall|x: int, y: int| 0 <= x < i + 1 && 0 <= y < n implies data@[#[trigger]
                    flat_idx(n as int, x, y)] as int == prod[x][y] by {
                    if x == i as int {
                        assert(data@[flat_idx(n as int, i as int, y)] as int == prod[i as int][y]);
                    }
                }
            }
            i += 1;
        }
        let r = TrailMatrix { n, data };
        proof {
            assert(r.wf()) by (nonlinear_arith)
                requires
                    r.data@.len() == n * (n as int) && r.n == n,
            ;
            assert forall|x: int, y: int| 0 <= x < n && 0 <= y < n implies #[trigger] r.m()[x][y]
                == prod[x][y] by {
                r.lemma_index(x, y);
            }
            assert(mat_wf(prod, n as int));
        }
        Some(r)
    }

    /// Raises the matrix to the `e`-th power by binary exponentiation.
    /// Every intermediate product is itself a power of the matrix with
    /// exponent at most `e`, so the result is `None` exactly when some
    /// such power has an entry that does not fit in 64 bits; whenever all
    /// powers up to `e` fit, success is guaranteed.
    pub fn pow(&self, e: usize) -> (r: Option<TrailMatrix>)
        requires
            self.wf(),
            self.n * self.n < usize::MAX,
        ensures
            match r {
                Some(p) => {
                    &&& p.wf()
                    &&& p.n == self.n
                    &&& p.m() == spec_mat_pow(self.m(), self.n as int, e as nat)
                },
                None => exists|s: nat|
                    1 <= s <= e && !mat_fits(
                        spec_mat_pow(self.m(), self.n as int, s),
                        self.n as int,
                    ),
            },
    {
        let n = self.n;
        let ghost mm = self.m();
        let ghost ni = n as int;
        proof {
            self.lemma_view_props();
        }
        if e == 0 {
            return Some(TrailMatrix::identity(n));
        }
        let idm = TrailMatrix::identity(n);
        let mut base = match idm.mul(self) {
            Some(x) => x,
            None => {
                proof {
                    lemma_mul_id_left(mm, ni);
                    assert(mat_fits(spec_mat_mul(idm.m(), mm, ni), ni));
                }
                return None;
            },
        };
        proof {
            lemma_mul_id_left(mm, ni);
            assert(idm.m() == spec_mat_id(ni));
            assert(spec_mat_pow(mm, ni, 0) == spec_mat_id(ni));
            assert(spec_mat_pow(mm, ni, 1) == spec_mat_mul(spec_mat_pow(mm, ni, 0), mm, ni));
            assert(base.m() == spec_mat_mul(idm.m(), mm, ni));
            assert(base.m() == spec_mat_pow(mm, ni, 1));
        }
        let mut acc = TrailMatrix::identity(n);
        let mut exp = e;
        let ghost mut apow: nat = 0;
        let ghost mut bpow: nat = 1;
        while exp > 1
            invariant
                exp >= 1,
                acc.wf(),
                acc.n == n,
                base.wf(),
                base.n == n,
                n * n < usize::MAX,
                self.wf(),
                self.n == n,
                mm == self.m(),
                ni == n as int,
                mat_wf(mm, ni),
                mat_nonneg(mm, ni),
                acc.m() == spec_mat_pow(mm, ni, apow),
                base.m() == spec_mat_pow(mm, ni, bpow),
                apow + bpow * exp == e,
                bpow >= 1,
            decreases exp,
        {
            let ghost a0 = apow;
            let ghost b0 = bpow;
            let ghost e0: int = exp as int;
            proof {
                assert(bpow * 1 <= bpow * exp && 2 * bpow <= bpow * exp) by (nonlinear_arith)
                    requires
                        bpow >= 1 && exp >= 2,
                ;
            }
            if exp % 2 == 1 {
                match acc.mul(&base) {
                    Some(x) => {
                        acc = x;
                        proof {
                            lemma_pow_add(mm, ni, apow, bpow);
                            apow = apow + bpow;
                        }
                    },
                    None => {
                        proof {
                            lemma_pow_add(mm, ni, apow, bpow);
                            assert(!mat_fits(spec_mat_pow(mm, ni, apow + bpow), ni));
                            assert(1 <= apow + bpow <= e);
                        }
                        return None;
                    },
                }
            }
            match base.mul(&base) {
                Some(x) => {
                    base = x;
                    proof {
                        lemma_pow_add(mm, ni, bpow, bpow);
                        bpow = bpow + bpow;
                    }
                },
                None => {
                    proof {
                        lemma_pow_add(mm, ni, bpow, bpow);
                        assert(!mat_fits(spec_mat_pow(mm, ni, bpow + bpow), ni));
                        assert(1 <= bpow + bpow <= e);
                    }
                    return None;
                },
            }
            exp = exp / 2;
            proof {
                assert(e0 == 2 * (e0 / 2) + e0 % 2);
                assert(apow + bpow * (exp as int) == e) by (nonlinear_arith)
                    requires
                        a0 + b0 * e0 == e,
                        e0 == 2 * (e0 / 2) + e0 % 2,
                        e0 % 2 == 0 || e0 % 2 == 1,
                        exp as int == e0 / 2,
                        bpow == 2 * b0,
                        e0 % 2 == 1 ==> apow == a0 + b0,
                        e0 % 2 == 0 ==> apow == a0,
                ;
            }
        }
        match acc.mul(&base) {
            Some(x) => {
                proof {
                    lemma_pow_add(mm, ni, apow, bpow);
                    assert(apow + bpow == e) by (nonlinear_arith)
                        requires
                            apow + bpow * exp == e && exp == 1,
                    ;
                }
                Some(x)
            },
            None => {
                proof {
                    lemma_pow_add(mm, ni, apow, bpow);
                    assert(apow + bpow == e) by (nonlinear_arith)
                        requires
                            apow + bpow * exp == e && exp == 1,
                    ;
                    assert(!mat_fits(spec_mat_pow(mm, ni, e as nat), ni));
                }
                None
            },
        }
    }
}

/// When one term of a product entry overflows, the whole entry exceeds 64
/// bits.
proof fn lemma_mul_overflow(
    a: Seq<Seq<int>>,
    b: Seq<Seq<int>>,
    n: int,
    i: int,
    j: int,
    k: int,
    f: spec_fn(int) -> int,
)
    requires
        0 <= i < n,
        0 <= j < n,
        0 <= k < n,
        f == (|k: int| a[i][k] * b[k][j]),
        forall|k0: int| 0 <= k0 < n ==> #[trigger] f(k0) >= 0,
        f(k) > u64::MAX,
    ensures
        !mat_fits(spec_mat_mul(a, b, n), n),
{
    lemma_sum_nonneg_term(n, k, f);
    assert(spec_mat_mul(a, b, n)[i][j] == sum(n, f));
    assert(sum(n, f) > u64::MAX);
}

/// When a partial sum of a product entry overflows, the whole entry
/// exceeds 64 bits.
proof fn lemma_mul_overflow_sum(
    a: Seq<Seq<int>>,
    b: Seq<Seq<int>>,
    n: int,
    i: int,
    j: int,
    k: int,
    f: spec_fn(int) -> int,
)
    requires
        0 <= i < n,
        0 <= j < n,
        0 <= k < n,
        f == (|k: int| a[i][k] * b[k][j]),
        forall|k0: int| 0 <= k0 < n ==> #[trigger] f(k0) >= 0,
        sum(k + 1, f) > u64::MAX,
    ensures
        !mat_fits(spec_mat_mul(a, b, n), n),
{
    lemma_sum_prefix_le(k + 1, n, f);
    assert(spec_mat_mul(a, b, n)[i][j] == sum(n, f));
}

} // verus!
