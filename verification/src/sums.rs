//! Sums and inner products of integer sequences, with the induction lemmas
//! that the correlation statistics rest on.

use vstd::prelude::*;

verus! {

/// Sum of a sequence of integers.
pub open spec fn isum(s: Seq<int>) -> int
    decreases s.len(),
{
    if s.len() == 0 {
        0
    } else {
        isum(s.drop_last()) + s.last()
    }
}

/// Inner product of two sequences of equal length: the sum of the
/// pointwise products.
pub open spec fn ipsum(u: Seq<int>, v: Seq<int>) -> int
    recommends
        u.len() == v.len(),
    decreases u.len(),
{
    if u.len() == 0 {
        0
    } else {
        ipsum(u.drop_last(), v.drop_last()) + u.last() * v.last()
    }
}

pub proof fn lemma_isum_take_succ(s: Seq<int>, i: int)
    requires
        0 <= i < s.len(),
    ensures
        isum(s.take(i + 1)) == isum(s.take(i)) + s[i],
{
    assert(s.take(i + 1).drop_last() =~= s.take(i));
    assert(s.take(i + 1).last() == s[i]);
}

pub proof fn lemma_ipsum_take_succ(u: Seq<int>, v: Seq<int>, i: int)
    requires
        u.len() == v.len(),
        0 <= i < u.len(),
    ensures
        ipsum(u.take(i + 1), v.take(i + 1)) == ipsum(u.take(i), v.take(i)) + u[i] * v[i],
{
    assert(u.take(i + 1).drop_last() =~= u.take(i));
    assert(v.take(i + 1).drop_last() =~= v.take(i));
}

pub proof fn lemma_ipsum_self_nonneg(u: Seq<int>)
    ensures
        ipsum(u, u) >= 0,
    decreases u.len(),
{
    if u.len() > 0 {
        lemma_ipsum_self_nonneg(u.drop_last());
        assert(u.last() * u.last() >= 0) by (nonlinear_arith);
    }
}

pub proof fn lemma_ipsum_self_take_le(u: Seq<int>, i: int)
    requires
        0 <= i <= u.len(),
    ensures
        ipsum(u.take(i), u.take(i)) <= ipsum(u, u),
    decreases u.len() - i,
{
    if i == u.len() {
        assert(u.take(i) =~= u);
    } else {
        lemma_ipsum_self_take_le(u, i + 1);
        lemma_ipsum_take_succ(u, u, i);
        assert(u[i] * u[i] >= 0) by (nonlinear_arith);
    }
}

pub proof fn lemma_ipsum_sym(u: Seq<int>, v: Seq<int>)
    requires
        u.len() == v.len(),
    ensures
        ipsum(u, v) == ipsum(v, u),
    decreases u.len(),
{
    if u.len() > 0 {
        lemma_ipsum_sym(u.drop_last(), v.drop_last());
    }
}

/// If the sum of squares of `u` is zero, every element of `u` is zero.
pub proof fn lemma_ipsum_self_zero(u: Seq<int>)
    requires
        ipsum(u, u) == 0,
    ensures
        forall|i: int| 0 <= i < u.len() ==> u[i] == 0,
    decreases u.len(),
{
    if u.len() > 0 {
        let f = u.drop_last();
        lemma_ipsum_self_nonneg(f);
        assert(u.last() * u.last() >= 0) by (nonlinear_arith);
        assert(ipsum(f, f) == 0);
        assert(u.last() * u.last() == 0);
        assert(u.last() == 0) by (nonlinear_arith)
            requires
                u.last() * u.last() == 0,
        ;
        lemma_ipsum_self_zero(f);
        assert(forall|i: int| 0 <= i < u.len() - 1 ==> u[i] == f[i]);
    }
}

/// A vector of zero norm is orthogonal to everything.
pub proof fn lemma_ipsum_zero_left(u: Seq<int>, v: Seq<int>)
    requires
        u.len() == v.len(),
        ipsum(u, u) == 0,
    ensures
        ipsum(u, v) == 0,
    decreases u.len(),
{
    if u.len() > 0 {
        let uf = u.drop_last();
        let vf = v.drop_last();
        lemma_ipsum_self_nonneg(uf);
        assert(u.last() * u.last() >= 0) by (nonlinear_arith);
        assert(ipsum(uf, uf) == 0);
        assert(u.last() * u.last() == 0);
        assert(u.last() == 0) by (nonlinear_arith)
            requires
                u.last() * u.last() == 0,
        ;
        lemma_ipsum_zero_left(uf, vf);
        assert(u.last() * v.last() == 0) by (nonlinear_arith)
            requires
                u.last() == 0,
        ;
    }
}

/// The Cauchy-Schwarz inequality for integer sequences.
pub proof fn lemma_cauchy_schwarz(u: Seq<int>, v: Seq<int>)
    requires
        u.len() == v.len(),
    ensures
        ipsum(u, v) * ipsum(u, v) <= ipsum(u, u) * ipsum(v, v),
    decreases u.len(),
{
    if u.len() == 0 {
    } else {
        let uf = u.drop_last();
        let vf = v.drop_last();
        let a = u.last();
        let b = v.last();
        lemma_cauchy_schwarz(uf, vf);
        lemma_ipsum_self_nonneg(uf);
        lemma_ipsum_self_nonneg(vf);
        let big_a = ipsum(uf, uf);
        let big_b = ipsum(vf, vf);
        let c = ipsum(uf, vf);
        let s = a * a;
        let t = b * b;
        let w = a * b;
        let cross = big_a * t - 2 * (c * w) + big_b * s;
        assert(s >= 0) by (nonlinear_arith)
            requires
                s == a * a,
        ;
        // The cross term A*b^2 - 2*C*(a*b) + B*a^2 is nonnegative.
        if big_a > 0 {
            let xg = big_a * b;
            let yg = c * a;
            let q = xg - yg;
            assert(q * q == xg * xg - 2 * (xg * yg) + yg * yg) by (nonlinear_arith)
                requires
                    q == xg - yg,
            ;
            assert(xg * xg == (big_a * big_a) * t) by (nonlinear_arith)
                requires
                    xg == big_a * b,
                    t == b * b,
            ;
            assert(xg * yg == (big_a * c) * w) by (nonlinear_arith)
                requires
                    xg == big_a * b,
                    yg == c * a,
                    w == a * b,
            ;
            assert(yg * yg == (c * c) * s) by (nonlinear_arith)
                requires
                    yg == c * a,
                    s == a * a,
            ;
            assert(big_a * cross == (big_a * big_a) * t - 2 * (big_a * (c * w)) + (big_a * big_b)
                * s) by (nonlinear_arith)
                requires
                    cross == big_a * t - 2 * (c * w) + big_b * s,
            ;
            assert(big_a * (c * w) == (big_a * c) * w) by (nonlinear_arith);
            assert((big_a * big_b - c * c) * s == (big_a * big_b) * s - (c * c) * s)
                by (nonlinear_arith);
            assert(q * q >= 0) by (nonlinear_arith);
            assert((big_a * big_b - c * c) * s >= 0) by (nonlinear_arith)
                requires
                    big_a * big_b - c * c >= 0,
                    s >= 0,
            ;
            assert(big_a * cross == q * q + (big_a * big_b - c * c) * s);
            assert(cross >= 0) by (nonlinear_arith)
                requires
                    big_a > 0,
                    big_a * cross >= 0,
            ;
        } else {
            assert(big_a == 0);
            lemma_ipsum_zero_left(uf, vf);
            assert(c == 0);
            assert(big_b * s >= 0) by (nonlinear_arith)
                requires
                    big_b >= 0,
                    s >= 0,
            ;
            assert(big_a * t == 0) by (nonlinear_arith)
                requires
                    big_a == 0,
            ;
            assert(c * w == 0) by (nonlinear_arith)
                requires
                    c == 0,
            ;
            assert(cross >= 0);
        }
        // Assemble: (A + a^2)(B + b^2) - (C + ab)^2 == (AB - C^2) + cross.
        assert((big_a + s) * (big_b + t) == big_a * big_b + big_a * t + big_b * s + s * t)
            by (nonlinear_arith);
        assert((c + w) * (c + w) == c * c + 2 * (c * w) + w * w) by (nonlinear_arith);
        assert(s * t == w * w) by (nonlinear_arith)
            requires
                s == a * a,
                t == b * b,
                w == a * b,
        ;
        assert(ipsum(u, u) == big_a + s);
        assert(ipsum(v, v) == big_b + t);
        assert(ipsum(u, v) == c + w);
    }
}

/// Mapping every element `t` of a sequence to `p * t - c`.
pub open spec fn affine_seq(s: Seq<int>, p: int, c: int) -> Seq<int> {
    s.map_values(|t: int| p * t - c)
}

pub proof fn lemma_isum_affine(s: Seq<int>, p: int, c: int)
    ensures
        isum(affine_seq(s, p, c)) == p * isum(s) - s.len() * c,
    decreases s.len(),
{
    if s.len() == 0 {
        assert(affine_seq(s, p, c) =~= Seq::<int>::empty());
    } else {
        let f = s.drop_last();
        lemma_isum_affine(f, p, c);
        assert(affine_seq(s, p, c).drop_last() =~= affine_seq(f, p, c));
        assert(affine_seq(s, p, c).last() == p * s.last() - c);
        let isf = isum(f);
        let xl = s.last();
        let lf = f.len() as int;
        assert(p * (isf + xl) == p * isf + p * xl) by (nonlinear_arith);
        assert((lf + 1) * c == lf * c + c) by (nonlinear_arith);
    }
}

/// The inner product of two affinely transformed sequences, expanded.
pub proof fn lemma_ipsum_affine(x: Seq<int>, y: Seq<int>, p: int, q: int, c: int, d: int)
    requires
        x.len() == y.len(),
    ensures
        ipsum(affine_seq(x, p, c), affine_seq(y, q, d)) == p * q * ipsum(x, y) - p * d * isum(x) - q
            * c * isum(y) + x.len() * (c * d),
    decreases x.len(),
{
    if x.len() == 0 {
        assert(affine_seq(x, p, c) =~= Seq::<int>::empty());
        assert(affine_seq(y, q, d) =~= Seq::<int>::empty());
    } else {
        let xf = x.drop_last();
        let yf = y.drop_last();
        lemma_ipsum_affine(xf, yf, p, q, c, d);
        assert(affine_seq(x, p, c).drop_last() =~= affine_seq(xf, p, c));
        assert(affine_seq(y, q, d).drop_last() =~= affine_seq(yf, q, d));
        assert(affine_seq(x, p, c).last() == p * x.last() - c);
        assert(affine_seq(y, q, d).last() == q * y.last() - d);
        let ipf = ipsum(xf, yf);
        let isxf = isum(xf);
        let isyf = isum(yf);
        let lf = xf.len() as int;
        let xl = x.last();
        let yl = y.last();
        let gx = p * xl;
        let gy = q * yl;
        assert((gx - c) * (gy - d) == gx * gy - gx * d - c * gy + c * d) by (nonlinear_arith);
        assert(gx * gy == (p * q) * (xl * yl)) by (nonlinear_arith)
            requires
                gx == p * xl,
                gy == q * yl,
        ;
        assert(gx * d == (p * d) * xl) by (nonlinear_arith)
            requires
                gx == p * xl,
        ;
        assert(c * gy == (q * c) * yl) by (nonlinear_arith)
            requires
                gy == q * yl,
        ;
        assert(p * q * (ipf + xl * yl) == (p * q) * ipf + (p * q) * (xl * yl))
            by (nonlinear_arith);
        assert(p * d * (isxf + xl) == (p * d) * isxf + (p * d) * xl) by (nonlinear_arith);
        assert(q * c * (isyf + yl) == (q * c) * isyf + (q * c) * yl) by (nonlinear_arith);
        assert((lf + 1) * (c * d) == lf * (c * d) + c * d) by (nonlinear_arith);
    }
}

/// Sum of a constant sequence.
pub proof fn lemma_isum_const(s: Seq<int>, e: int)
    requires
        forall|i: int| 0 <= i < s.len() ==> s[i] == e,
    ensures
        isum(s) == s.len() * e,
    decreases s.len(),
{
    if s.len() > 0 {
        let f = s.drop_last();
        lemma_isum_const(f, e);
        assert(s.len() * e == f.len() * e + e) by (nonlinear_arith)
            requires
                s.len() == f.len() + 1,
        ;
    }
}

/// Sum of squares of a constant sequence.
pub proof fn lemma_ipsum_const(s: Seq<int>, e: int)
    requires
        forall|i: int| 0 <= i < s.len() ==> s[i] == e,
    ensures
        ipsum(s, s) == s.len() * (e * e),
    decreases s.len(),
{
    if s.len() > 0 {
        let f = s.drop_last();
        lemma_ipsum_const(f, e);
        assert(s.len() * (e * e) == f.len() * (e * e) + e * e) by (nonlinear_arith)
            requires
                s.len() == f.len() + 1,
        ;
    }
}

} // verus!
