//! The correlation calculator: exact sufficient statistics of the classical
//! two-pass Pearson formula.
//!
//! For integer samples the coefficient is `cov / sqrt(varx * vary)` with
//! `cov = n*sum(x*y) - sum(x)*sum(y)`, `varx = n*sum(x*x) - sum(x)^2` and
//! `vary = n*sum(y*y) - sum(y)^2`; this equals the textbook
//! `sum((x-mx)(y-my)) / sqrt(sum((x-mx)^2) * sum((y-my)^2))`. The function
//! below computes the five sums exactly; only the final division and square
//! root are left to the (unverified) caller, since they need floating point.

use vstd::prelude::*;

use crate::dataset::{Dataset, Sample};
use crate::sums::{
    ipsum, isum, lemma_ipsum_self_take_le, lemma_ipsum_take_succ, lemma_isum_take_succ,
};
use crate::laws::{lemma_correlation_bounded, lemma_var_nonneg, lemma_variance_zero_iff_constant};

verus! {

/// The first coordinates of the samples, as unbounded integers.
pub open spec fn col_x(d: Seq<Sample>) -> Seq<int> {
    d.map_values(|s: Sample| s.x as int)
}

/// The second coordinates of the samples, as unbounded integers.
pub open spec fn col_y(d: Seq<Sample>) -> Seq<int> {
    d.map_values(|s: Sample| s.y as int)
}

/// Every element of the sequence equals the first one.
pub open spec fn all_same(s: Seq<int>) -> bool {
    forall|i: int| 0 <= i < s.len() ==> #[trigger] s[i] == s[0]
}

/// `n` times the variance numerator of one column:
/// `n * sum(s*s) - sum(s)^2`, which is `n * sum((s - mean)^2)`.
pub open spec fn var_of(s: Seq<int>) -> int {
    s.len() * ipsum(s, s) - isum(s) * isum(s)
}

/// `n` times the covariance numerator of the two columns:
/// `n * sum(x*y) - sum(x)*sum(y)`, which is `n * sum((x - mx)*(y - my))`.
pub open spec fn cov_of(x: Seq<int>, y: Seq<int>) -> int {
    x.len() * ipsum(x, y) - isum(x) * isum(y)
}

/// The exact sufficient statistics of a dataset. The Pearson coefficient is
/// `(n*sxy - sx*sy) / sqrt((n*sxx - sx*sx) * (n*syy - sy*sy))`.
#[derive(Clone, Copy, Debug, PartialEq, Eq, Structural)]
pub struct Corr {
    pub n: usize,
    pub sx: i128,
    pub sy: i128,
    pub sxy: i128,
    pub sxx: i128,
    pub syy: i128,
}

/// Why a correlation could not be computed.
#[derive(Clone, Copy, Debug, PartialEq, Eq, Structural)]
pub enum CorrError {
    /// The dataset holds no sample at all.
    EmptyDataset,
    /// The dataset holds a single sample: the formula needs at least two.
    InsufficientData,
    /// One column has zero variance, so the coefficient is undefined.
    UndefinedCorrelation,
    /// A sum of squares exceeds the machine range.
    Overflow,
}

fn all_same_x(v: &Vec<Sample>) -> (b: bool)
    requires
        v@.len() >= 1,
    ensures
        b == all_same(col_x(v@)),
{
    let x0 = v[0].x;
    let n = v.len();
    let mut i: usize = 1;
    while i < n
        invariant
            1 <= i <= n,
            n == v@.len(),
            x0 == v@[0].x,
            forall|j: int| 0 <= j < i as int ==> v@[j].x == x0,
        decreases n - i,
    {
        if v[i].x != x0 {
            assert(col_x(v@)[i as int] != col_x(v@)[0]);
            return false;
        }
        i = i + 1;
    }
    assert(forall|j: int| 0 <= j < v@.len() ==> #[trigger] col_x(v@)[j] == col_x(v@)[0]);
    true
}

fn all_same_y(v: &Vec<Sample>) -> (b: bool)
    requires
        v@.len() >= 1,
    ensures
        b == all_same(col_y(v@)),
{
    let y0 = v[0].y;
    let n = v.len();
    let mut i: usize = 1;
    while i < n
        invariant
            1 <= i <= n,
            n == v@.len(),
            y0 == v@[0].y,
            forall|j: int| 0 <= j < i as int ==> v@[j].y == y0,
        decreases n - i,
    {
        if v[i].y != y0 {
            assert(col_y(v@)[i as int] != col_y(v@)[0]);
            return false;
        }
        i = i + 1;
    }
    assert(forall|j: int| 0 <= j < v@.len() ==> #[trigger] col_y(v@)[j] == col_y(v@)[0]);
    true
}

/// Computes the exact sufficient statistics of the Pearson correlation
/// coefficient of the dataset, or says why none exists. On success both
/// variance numerators are positive, so the coefficient is well defined.
pub fn correlate(d: &Dataset) -> (r: Result<Corr, CorrError>)
    ensures
        (r == Err::<Corr, CorrError>(CorrError::EmptyDataset)) <==> d@.len() == 0,
        (r == Err::<Corr, CorrError>(CorrError::InsufficientData)) <==> d@.len() == 1,
        (r == Err::<Corr, CorrError>(CorrError::UndefinedCorrelation)) <==> (d@.len() >= 2 && (
        all_same(col_x(d@)) || all_same(col_y(d@)))),
        (r == Err::<Corr, CorrError>(CorrError::Overflow)) <==> (d@.len() >= 2 && !all_same(
            col_x(d@),
        ) && !all_same(col_y(d@)) && (ipsum(col_x(d@), col_x(d@)) > i128::MAX || ipsum(
            col_y(d@),
            col_y(d@),
        ) > i128::MAX)),
        r matches Ok(c) ==> {
            &&& c.n == d@.len()
            &&& c.sx == isum(col_x(d@))
            &&& c.sy == isum(col_y(d@))
            &&& c.sxy == ipsum(col_x(d@), col_y(d@))
            &&& c.sxx == ipsum(col_x(d@), col_x(d@))
            &&& c.syy == ipsum(col_y(d@), col_y(d@))
        },
        r is Ok ==> var_of(col_x(d@)) > 0 && var_of(col_y(d@)) > 0,
        r is Ok ==> cov_of(col_x(d@), col_y(d@)) * cov_of(col_x(d@), col_y(d@)) <= var_of(
            col_x(d@),
        ) * var_of(col_y(d@)),
{
    let n = d.samples.len();
    if n == 0 {
        return Err(CorrError::EmptyDataset);
    }
    if n == 1 {
        return Err(CorrError::InsufficientData);
    }
    if all_same_x(&d.samples) || all_same_y(&d.samples) {
        return Err(CorrError::UndefinedCorrelation);
    }
    let ghost cx = col_x(d@);
    let ghost cy = col_y(d@);
    let mut i: usize = 0;
    let mut sx: i128 = 0;
    let mut sy: i128 = 0;
    let mut sxy: i128 = 0;
    let mut sxx: i128 = 0;
    let mut syy: i128 = 0;
    proof {
        assert(cx.take(0) =~= Seq::<int>::empty());
        assert(cy.take(0) =~= Seq::<int>::empty());
    }
    while i < n
        invariant
            0 <= i <= n,
            n == d@.len(),
            n >= 2,
            cx == col_x(d@),
            cy == col_y(d@),
            cx.len() == n,
            cy.len() == n,
            !all_same(cx),
            !all_same(cy),
            sx == isum(cx.take(i as int)),
            sy == isum(cy.take(i as int)),
            sxy == ipsum(cx.take(i as int), cy.take(i as int)),
            sxx == ipsum(cx.take(i as int), cx.take(i as int)),
            syy == ipsum(cy.take(i as int), cy.take(i as int)),
            sxx >= 0,
            syy >= 0,
            -(i as int) * 0x8000_0000_0000_0000 <= sx <= (i as int) * 0x8000_0000_0000_0000,
            -(i as int) * 0x8000_0000_0000_0000 <= sy <= (i as int) * 0x8000_0000_0000_0000,
            2 * sxy <= sxx + syy,
            -(sxx + syy) <= 2 * sxy,
        decreases n - i,
    {
        let xi = d.samples[i].x as i128;
        let yi = d.samples[i].y as i128;
        proof {
            assert(cx[i as int] == d@[i as int].x as int);
            assert(cy[i as int] == d@[i as int].y as int);
            assert(0 <= xi * xi <= 0x4000_0000_0000_0000_0000_0000_0000_0000) by (nonlinear_arith)
                requires
                    -0x8000_0000_0000_0000 <= xi <= 0x8000_0000_0000_0000,
            ;
            assert(0 <= yi * yi <= 0x4000_0000_0000_0000_0000_0000_0000_0000) by (nonlinear_arith)
                requires
                    -0x8000_0000_0000_0000 <= yi <= 0x8000_0000_0000_0000,
            ;
            assert(-0x4000_0000_0000_0000_0000_0000_0000_0000 <= xi * yi
                <= 0x4000_0000_0000_0000_0000_0000_0000_0000) by (nonlinear_arith)
                requires
                    -0x8000_0000_0000_0000 <= xi <= 0x8000_0000_0000_0000,
                    -0x8000_0000_0000_0000 <= yi <= 0x8000_0000_0000_0000,
            ;
        }
        let x2 = xi * xi;
        let y2 = yi * yi;
        let xy = xi * yi;
        proof {
            lemma_isum_take_succ(cx, i as int);
            lemma_isum_take_succ(cy, i as int);
            lemma_ipsum_take_succ(cx, cy, i as int);
            lemma_ipsum_take_succ(cx, cx, i as int);
            lemma_ipsum_take_succ(cy, cy, i as int);
            assert(2 * xy <= x2 + y2 && -(x2 + y2) <= 2 * xy) by (nonlinear_arith)
                requires
                    x2 == xi * xi,
                    y2 == yi * yi,
                    xy == xi * yi,
            ;
        }
        if sxx > i128::MAX - x2 {
            proof {
                lemma_ipsum_self_take_le(cx, i as int + 1);
            }
            return Err(CorrError::Overflow);
        }
        if syy > i128::MAX - y2 {
            proof {
                lemma_ipsum_self_take_le(cy, i as int + 1);
            }
            return Err(CorrError::Overflow);
        }
        proof {
            assert((n as int) <= 0xffff_ffff_ffff_ffff);
        }
        sx = sx + xi;
        sy = sy + yi;
        sxy = sxy + xy;
        sxx = sxx + x2;
        syy = syy + y2;
        i = i + 1;
    }
    proof {
        assert(cx.take(n as int) =~= cx);
        assert(cy.take(n as int) =~= cy);
        lemma_variance_zero_iff_constant(cx);
        lemma_variance_zero_iff_constant(cy);
        lemma_var_nonneg(cx);
        lemma_var_nonneg(cy);
        lemma_correlation_bounded(cx, cy);
    }
    Ok(Corr { n, sx, sy, sxy, sxx, syy })
}

} // verus!
