//! Proved laws of the correlation statistics: symmetry in the two columns,
//! behaviour under scaling, the Cauchy-Schwarz bound that keeps the
//! coefficient in [-1, 1], and the characterisation of zero variance.

use vstd::prelude::*;

use crate::dataset::{Sample, swap_columns};
use crate::stats::{all_same, col_x, col_y, cov_of, var_of};
use crate::sums::{
    affine_seq, ipsum, isum, lemma_cauchy_schwarz, lemma_ipsum_affine, lemma_ipsum_const,
    lemma_ipsum_self_nonneg, lemma_ipsum_self_zero, lemma_ipsum_sym, lemma_isum_affine,
    lemma_isum_const,
};

verus! {

/// Every element of the sequence multiplied by a constant.
pub open spec fn scale_seq(s: Seq<int>, a: int) -> Seq<int> {
    s.map_values(|t: int| a * t)
}

/// `n` times the variance numerator equals the sum of squares of the
/// centred, `n`-scaled column.
proof fn lemma_var_as_ipsum(x: Seq<int>)
    ensures
        (x.len() as int) * var_of(x) == ipsum(
            affine_seq(x, x.len() as int, isum(x)),
            affine_seq(x, x.len() as int, isum(x)),
        ),
{
    let n = x.len() as int;
    let sx = isum(x);
    let ipxx = ipsum(x, x);
    lemma_ipsum_affine(x, x, n, n, sx, sx);
    assert(n * n * ipxx - n * sx * sx - n * sx * sx + n * (sx * sx) == n * (n * ipxx - sx * sx))
        by (nonlinear_arith);
}

/// `n` times the covariance numerator equals the inner product of the two
/// centred, `n`-scaled columns.
proof fn lemma_cov_as_ipsum(x: Seq<int>, y: Seq<int>)
    requires
        x.len() == y.len(),
    ensures
        (x.len() as int) * cov_of(x, y) == ipsum(
            affine_seq(x, x.len() as int, isum(x)),
            affine_seq(y, x.len() as int, isum(y)),
        ),
{
    let n = x.len() as int;
    let sx = isum(x);
    let sy = isum(y);
    let ipxy = ipsum(x, y);
    lemma_ipsum_affine(x, y, n, n, sx, sy);
    assert(n * n * ipxy - n * sy * sx - n * sx * sy + n * (sx * sy) == n * (n * ipxy - sx * sy))
        by (nonlinear_arith);
}

/// The variance numerator of a column is never negative.
pub proof fn lemma_var_nonneg(x: Seq<int>)
    ensures
        var_of(x) >= 0,
{
    if x.len() == 0 {
        assert(var_of(x) == 0);
    } else {
        let n = x.len() as int;
        let u = affine_seq(x, n, isum(x));
        lemma_var_as_ipsum(x);
        lemma_ipsum_self_nonneg(u);
        assert(var_of(x) >= 0) by (nonlinear_arith)
            requires
                n > 0,
                n * var_of(x) >= 0,
        ;
    }
}

/// A column has zero variance exactly when all its values are equal.
pub proof fn lemma_variance_zero_iff_constant(x: Seq<int>)
    requires
        x.len() >= 1,
    ensures
        var_of(x) == 0 <==> all_same(x),
{
    let n = x.len() as int;
    let sx = isum(x);
    let u = affine_seq(x, n, sx);
    lemma_var_as_ipsum(x);
    if var_of(x) == 0 {
        assert(ipsum(u, u) == 0);
        lemma_ipsum_self_zero(u);
        assert forall|i: int| 0 <= i < x.len() implies #[trigger] x[i] == x[0] by {
            assert(u[i] == n * x[i] - sx);
            assert(u[0] == n * x[0] - sx);
            assert(x[i] == x[0]) by (nonlinear_arith)
                requires
                    n > 0,
                    n * x[i] - sx == 0,
                    n * x[0] - sx == 0,
            ;
        }
    }
    if all_same(x) {
        let e = x[0];
        lemma_isum_const(x, e);
        lemma_ipsum_const(x, e);
        assert(n * (n * (e * e)) - (n * e) * (n * e) == 0) by (nonlinear_arith);
    }
}

/// Pearson's r is symmetric in its two variables: exchanging the columns of
/// a dataset leaves the covariance numerator unchanged and exchanges the two
/// variance numerators, so the coefficient itself is unchanged.
pub proof fn lemma_correlation_symmetric(d: Seq<Sample>)
    ensures
        cov_of(col_x(swap_columns(d)), col_y(swap_columns(d))) == cov_of(col_x(d), col_y(d)),
        var_of(col_x(swap_columns(d))) == var_of(col_y(d)),
        var_of(col_y(swap_columns(d))) == var_of(col_x(d)),
{
    assert(col_x(swap_columns(d)) =~= col_y(d));
    assert(col_y(swap_columns(d)) =~= col_x(d));
    lemma_ipsum_sym(col_y(d), col_x(d));
    assert(isum(col_y(d)) * isum(col_x(d)) == isum(col_x(d)) * isum(col_y(d)))
        by (nonlinear_arith);
}

proof fn lemma_mul_shuffle(a: int, b: int, n: int, ip: int, s1: int, s2: int)
    ensures
        n * ((a * b) * ip) - (a * s1) * (b * s2) == (a * b) * (n * ip - s1 * s2),
{
    assert((a * s1) * (b * s2) == (a * b) * (s1 * s2)) by (nonlinear_arith);
    assert(n * ((a * b) * ip) == (a * b) * (n * ip)) by (nonlinear_arith);
    assert((a * b) * (n * ip) - (a * b) * (s1 * s2) == (a * b) * (n * ip - s1 * s2))
        by (nonlinear_arith);
}

/// Scaling the first column by `a` and the second by `b` multiplies the
/// covariance numerator by `a*b` and the variance numerators by `a*a` and
/// `b*b`. The last clause is the squared coefficient compared across the
/// scaling with denominators cross-multiplied: the magnitude of r is
/// unchanged, and by the first clause its sign changes exactly by the sign
/// of `a*b`.
pub proof fn lemma_correlation_scale(x: Seq<int>, y: Seq<int>, a: int, b: int)
    requires
        x.len() == y.len(),
    ensures
        cov_of(scale_seq(x, a), scale_seq(y, b)) == (a * b) * cov_of(x, y),
        var_of(scale_seq(x, a)) == (a * a) * var_of(x),
        var_of(scale_seq(y, b)) == (b * b) * var_of(y),
        cov_of(scale_seq(x, a), scale_seq(y, b)) * cov_of(scale_seq(x, a), scale_seq(y, b)) * (
        var_of(x) * var_of(y)) == cov_of(x, y) * cov_of(x, y) * (var_of(scale_seq(x, a)) * var_of(
            scale_seq(y, b),
        )),
{
    let n = x.len() as int;
    assert(scale_seq(x, a) =~= affine_seq(x, a, 0));
    assert(scale_seq(y, b) =~= affine_seq(y, b, 0));
    lemma_ipsum_affine(x, y, a, b, 0, 0);
    lemma_ipsum_affine(x, x, a, a, 0, 0);
    lemma_ipsum_affine(y, y, b, b, 0, 0);
    lemma_isum_affine(x, a, 0);
    lemma_isum_affine(y, b, 0);
    lemma_mul_shuffle(a, b, n, ipsum(x, y), isum(x), isum(y));
    lemma_mul_shuffle(a, a, n, ipsum(x, x), isum(x), isum(x));
    lemma_mul_shuffle(b, b, n, ipsum(y, y), isum(y), isum(y));
    let cov = cov_of(x, y);
    let vx = var_of(x);
    let vy = var_of(y);
    assert(((a * b) * cov) * ((a * b) * cov) * (vx * vy) == cov * cov * (((a * a) * vx) * ((b * b)
        * vy))) by (nonlinear_arith);
}

/// The Cauchy-Schwarz bound: the square of the covariance numerator never
/// exceeds the product of the two variance numerators. For a dataset with
/// positive variance in both columns this is exactly `r*r <= 1`, that is,
/// the coefficient lies in [-1, 1].
pub proof fn lemma_correlation_bounded(x: Seq<int>, y: Seq<int>)
    requires
        x.len() == y.len(),
    ensures
        cov_of(x, y) * cov_of(x, y) <= var_of(x) * var_of(y),
{
    let n = x.len() as int;
    let cov = cov_of(x, y);
    let vx = var_of(x);
    let vy = var_of(y);
    if n == 0 {
        assert(cov == 0 && vx == 0 && vy == 0);
        assert(cov * cov <= vx * vy) by (nonlinear_arith)
            requires
                cov == 0,
                vx == 0,
        ;
    } else {
        let u = affine_seq(x, n, isum(x));
        let v = affine_seq(y, n, isum(y));
        lemma_cov_as_ipsum(x, y);
        lemma_var_as_ipsum(x);
        lemma_var_as_ipsum(y);
        lemma_cauchy_schwarz(u, v);
        assert((n * cov) * (n * cov) == (n * n) * (cov * cov)) by (nonlinear_arith);
        assert((n * vx) * (n * vy) == (n * n) * (vx * vy)) by (nonlinear_arith);
        assert(n * n > 0) by (nonlinear_arith)
            requires
                n > 0,
        ;
        assert(cov * cov <= vx * vy) by (nonlinear_arith)
            requires
                n * n > 0,
                (n * n) * (cov * cov) <= (n * n) * (vx * vy),
        ;
    }
}

} // verus!
