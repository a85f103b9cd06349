//! A verified parser for decimal floating-point literals.
//!
//! A field is accepted when it matches `-?[0-9]+(\.[0-9]+)?([eE][+-]?[0-9]+)?`
//! and its value fits the exact representation `m * 10^e` with `|m| <= i64::MAX`
//! and `e` within `i32`. The grammar and the value are stated by spec
//! functions over the byte sequence; the parser is proved to decide them.

use vstd::prelude::*;

verus! {

/// An exact decimal number: the value `m * 10^e`.
#[derive(Clone, Copy, Debug, PartialEq, Eq, Structural)]
pub struct Dec {
    pub m: i64,
    pub e: i32,
}

/// Why a row of text fields was rejected.
#[derive(Clone, Copy, Debug, PartialEq, Eq, Structural)]
pub enum ParseReason {
    /// The row has fewer than two fields.
    MissingField,
    /// A field is not a decimal floating-point literal.
    NotNumeric,
    /// A field is a literal, but its exact value does not fit the
    /// machine representation.
    OutOfRange,
}

pub open spec fn is_digit(c: u8) -> bool {
    48 <= c <= 57
}

pub open spec fn all_digits(s: Seq<u8>) -> bool {
    forall|i: int| 0 <= i < s.len() ==> is_digit(#[trigger] s[i])
}

/// The number written by a sequence of digit bytes, most significant first.
pub open spec fn digits_val(s: Seq<u8>) -> int
    decreases s.len(),
{
    if s.len() == 0 {
        0
    } else {
        digits_val(s.drop_last()) * 10 + (s.last() - 48)
    }
}

pub open spec fn pow10(k: nat) -> int
    decreases k,
{
    if k == 0 {
        1
    } else {
        10 * pow10((k - 1) as nat)
    }
}

/// The first position at or after `i` holding `a` or `b`, or the length.
pub open spec fn find_from(s: Seq<u8>, i: int, a: u8, b: u8) -> int
    decreases s.len() - i,
{
    if i < 0 || i >= s.len() {
        s.len() as int
    } else if s[i] == a || s[i] == b {
        i
    } else {
        find_from(s, i + 1, a, b)
    }
}

/// 1 when the field starts with a minus sign.
pub open spec fn sign_len(s: Seq<u8>) -> int {
    if s.len() > 0 && s[0] == 45 {
        1
    } else {
        0
    }
}

pub open spec fn is_neg(s: Seq<u8>) -> bool {
    sign_len(s) == 1
}

/// Position of the exponent marker `e`/`E`, or the length.
pub open spec fn e_pos(s: Seq<u8>) -> int {
    find_from(s, sign_len(s), 101, 69)
}

/// Position of the decimal point within the mantissa, or `e_pos`.
pub open spec fn dot_pos(s: Seq<u8>) -> int {
    find_from(s.take(e_pos(s)), sign_len(s), 46, 46)
}

pub open spec fn int_part(s: Seq<u8>) -> Seq<u8> {
    s.subrange(sign_len(s), dot_pos(s))
}

pub open spec fn has_dot(s: Seq<u8>) -> bool {
    dot_pos(s) < e_pos(s)
}

pub open spec fn frac_part(s: Seq<u8>) -> Seq<u8> {
    if has_dot(s) {
        s.subrange(dot_pos(s) + 1, e_pos(s))
    } else {
        Seq::empty()
    }
}

pub open spec fn has_exp(s: Seq<u8>) -> bool {
    e_pos(s) < s.len()
}

pub open spec fn exp_tail(s: Seq<u8>) -> Seq<u8> {
    if has_exp(s) {
        s.subrange(e_pos(s) + 1, s.len() as int)
    } else {
        Seq::empty()
    }
}

pub open spec fn exp_neg(s: Seq<u8>) -> bool {
    exp_tail(s).len() > 0 && exp_tail(s)[0] == 45
}

pub open spec fn exp_sign_len(s: Seq<u8>) -> int {
    if exp_tail(s).len() > 0 && (exp_tail(s)[0] == 43 || exp_tail(s)[0] == 45) {
        1
    } else {
        0
    }
}

pub open spec fn exp_digits(s: Seq<u8>) -> Seq<u8> {
    exp_tail(s).skip(exp_sign_len(s))
}

/// The field matches the accepted grammar.
pub open spec fn lit_ok(s: Seq<u8>) -> bool {
    &&& int_part(s).len() > 0
    &&& all_digits(int_part(s))
    &&& (has_dot(s) ==> frac_part(s).len() > 0 && all_digits(frac_part(s)))
    &&& (has_exp(s) ==> exp_digits(s).len() > 0 && all_digits(exp_digits(s)))
}

/// The unsigned mantissa: all written digits, the decimal point dropped.
pub open spec fn magnitude(s: Seq<u8>) -> int {
    digits_val(int_part(s)) * pow10(frac_part(s).len()) + digits_val(frac_part(s))
}

pub open spec fn lit_m(s: Seq<u8>) -> int {
    if is_neg(s) {
        -magnitude(s)
    } else {
        magnitude(s)
    }
}

pub open spec fn exp_mag(s: Seq<u8>) -> int {
    digits_val(exp_digits(s))
}

/// The decimal exponent: the written exponent minus the count of fraction
/// digits.
pub open spec fn lit_e(s: Seq<u8>) -> int {
    (if exp_neg(s) {
        -exp_mag(s)
    } else {
        exp_mag(s)
    }) - frac_part(s).len()
}

/// The exact value fits the representation.
pub open spec fn in_range(s: Seq<u8>) -> bool {
    &&& magnitude(s) <= i64::MAX as int
    &&& exp_mag(s) <= 1_000_000_000
    &&& i32::MIN as int <= lit_e(s) <= i32::MAX as int
}

/// What parsing a text field yields.
pub open spec fn field_spec(s: Seq<u8>) -> Result<Dec, ParseReason> {
    if !lit_ok(s) {
        Err(ParseReason::NotNumeric)
    } else if !in_range(s) {
        Err(ParseReason::OutOfRange)
    } else {
        Ok(Dec { m: lit_m(s) as i64, e: lit_e(s) as i32 })
    }
}

proof fn lemma_pow10_pos(k: nat)
    ensures
        pow10(k) >= 1,
    decreases k,
{
    if k > 0 {
        lemma_pow10_pos((k - 1) as nat);
    }
}

proof fn lemma_pow10_add(a: nat, b: nat)
    ensures
        pow10(a + b) == pow10(a) * pow10(b),
    decreases a,
{
    if a == 0 {
        assert(pow10(b) == 1 * pow10(b));
    } else {
        lemma_pow10_add((a - 1) as nat, b);
        assert(pow10(((a - 1) as nat) + b) == pow10((a + b - 1) as nat));
        assert(10 * (pow10((a - 1) as nat) * pow10(b)) == (10 * pow10((a - 1) as nat)) * pow10(b))
            by (nonlinear_arith);
    }
}

proof fn lemma_digits_val_nonneg(s: Seq<u8>)
    requires
        all_digits(s),
    ensures
        digits_val(s) >= 0,
    decreases s.len(),
{
    if s.len() > 0 {
        assert(all_digits(s.drop_last()));
        lemma_digits_val_nonneg(s.drop_last());
        assert(digits_val(s.drop_last()) * 10 >= 0) by (nonlinear_arith)
            requires
                digits_val(s.drop_last()) >= 0,
        ;
        assert(is_digit(s[s.len() - 1]));
    }
}

/// Splitting a digit string: the whole number is the prefix shifted left by
/// the suffix length, plus the suffix.
proof fn lemma_digits_val_split(s: Seq<u8>, k: int)
    requires
        0 <= k <= s.len(),
    ensures
        digits_val(s) == digits_val(s.take(k)) * pow10((s.len() - k) as nat) + digits_val(
            s.skip(k),
        ),
    decreases s.len(),
{
    if k == s.len() {
        assert(s.take(k) =~= s);
        assert(s.skip(k) =~= Seq::<u8>::empty());
        assert(digits_val(s) == digits_val(s) * 1);
    } else {
        let fr = s.drop_last();
        lemma_digits_val_split(fr, k);
        assert(fr.take(k) =~= s.take(k));
        assert(s.skip(k).drop_last() =~= fr.skip(k));
        assert(s.skip(k).last() == s.last());
        let p = pow10((fr.len() - k) as nat);
        assert(pow10((s.len() - k) as nat) == 10 * p);
        assert((digits_val(s.take(k)) * p) * 10 == digits_val(s.take(k)) * (10 * p))
            by (nonlinear_arith);
    }
}

fn find_e(f: &Vec<u8>, start: usize) -> (r: usize)
    requires
        start <= f@.len(),
    ensures
        r as int == find_from(f@, start as int, 101, 69),
        start <= r <= f@.len(),
{
    let n = f.len();
    let mut i = start;
    while i < n
        invariant
            start <= i <= n,
            n == f@.len(),
            find_from(f@, start as int, 101, 69) == find_from(f@, i as int, 101, 69),
        decreases n - i,
    {
        let c = f[i];
        if c == 101 || c == 69 {
            assert(find_from(f@, i as int, 101, 69) == i as int);
            return i;
        }
        assert(find_from(f@, i as int, 101, 69) == find_from(f@, i as int + 1, 101, 69));
        i = i + 1;
    }
    assert(find_from(f@, i as int, 101, 69) == n as int);
    n
}

fn find_dot(f: &Vec<u8>, start: usize, end: usize) -> (r: usize)
    requires
        start <= end <= f@.len(),
    ensures
        r as int == find_from(f@.take(end as int), start as int, 46, 46),
        start <= r <= end,
{
    let ghost t = f@.take(end as int);
    let mut i = start;
    while i < end
        invariant
            start <= i <= end <= f@.len(),
            t == f@.take(end as int),
            find_from(t, start as int, 46, 46) == find_from(t, i as int, 46, 46),
        decreases end - i,
    {
        let c = f[i];
        assert(t[i as int] == f@[i as int]);
        if c == 46 {
            assert(find_from(t, i as int, 46, 46) == i as int);
            return i;
        }
        assert(find_from(t, i as int, 46, 46) == find_from(t, i as int + 1, 46, 46));
        i = i + 1;
    }
    assert(find_from(t, i as int, 46, 46) == t.len());
    end
}

fn check_digits(f: &Vec<u8>, start: usize, end: usize) -> (b: bool)
    requires
        start <= end <= f@.len(),
    ensures
        b == all_digits(f@.subrange(start as int, end as int)),
{
    let ghost t = f@.subrange(start as int, end as int);
    let mut i = start;
    while i < end
        invariant
            start <= i <= end <= f@.len(),
            t == f@.subrange(start as int, end as int),
            forall|j: int| 0 <= j < i - start ==> is_digit(#[trigger] t[j]),
        decreases end - i,
    {
        let c = f[i];
        assert(t[i - start] == f@[i as int]);
        if c < 48 || c > 57 {
            assert(!is_digit(t[i - start]));
            return false;
        }
        i = i + 1;
    }
    true
}

/// Folds the digits of `f[start..end]` onto `acc`, most significant first,
/// failing exactly when the final value would exceed `cap`.
fn fold_digits(f: &Vec<u8>, start: usize, end: usize, acc: i128, cap: i128) -> (r: Option<i128>)
    requires
        start <= end <= f@.len(),
        all_digits(f@.subrange(start as int, end as int)),
        0 <= acc <= cap,
        cap <= 0x7fff_ffff_ffff_ffff,
    ensures
        ({
            let total = acc * pow10((end - start) as nat) + digits_val(
                f@.subrange(start as int, end as int),
            );
            match r {
                Some(v) => v == total && 0 <= v <= cap,
                None => total > cap,
            }
        }),
{
    let ghost whole = f@.subrange(start as int, end as int);
    proof {
        lemma_digits_val_nonneg(whole);
    }
    let mut i = start;
    let mut a = acc;
    proof {
        assert(f@.subrange(start as int, start as int) =~= Seq::<u8>::empty());
        assert(acc * 1 == acc);
    }
    while i < end
        invariant
            start <= i <= end <= f@.len(),
            whole == f@.subrange(start as int, end as int),
            all_digits(whole),
            0 <= a <= cap,
            cap <= 0x7fff_ffff_ffff_ffff,
            0 <= acc <= cap,
            a == acc * pow10((i - start) as nat) + digits_val(
                f@.subrange(start as int, i as int),
            ),
        decreases end - i,
    {
        let c = f[i];
        let ghost pre = f@.subrange(start as int, i as int);
        let ghost pre1 = f@.subrange(start as int, i as int + 1);
        proof {
            assert(whole[i - start] == f@[i as int]);
            assert(is_digit(whole[i - start]));
            assert(pre1.drop_last() =~= pre);
            assert(pre1.last() == f@[i as int]);
            assert(pow10((i + 1 - start) as nat) == 10 * pow10((i - start) as nat));
            assert((acc * pow10((i - start) as nat)) * 10 == acc * (10 * pow10(
                (i - start) as nat,
            ))) by (nonlinear_arith);
        }
        let d = (c - 48) as i128;
        let a1 = a * 10 + d;
        assert(a1 == acc * pow10((i + 1 - start) as nat) + digits_val(pre1));
        if a1 > cap {
            proof {
                // The remaining digits only push the value higher.
                lemma_digits_val_split(whole, i as int + 1 - start as int);
                assert(whole.take(i as int + 1 - start as int) =~= pre1);
                let suf = whole.skip(i as int + 1 - start as int);
                assert(all_digits(suf));
                lemma_digits_val_nonneg(suf);
                let p2 = pow10((end - i - 1) as nat);
                lemma_pow10_pos((end - i - 1) as nat);
                lemma_pow10_add((i + 1 - start) as nat, (end - i - 1) as nat);
                assert(acc * pow10((end - start) as nat) == (acc * pow10((i + 1 - start) as nat))
                    * p2) by (nonlinear_arith)
                    requires
                        pow10((end - start) as nat) == pow10((i + 1 - start) as nat) * p2,
                ;
                let a1g = acc * pow10((i + 1 - start) as nat) + digits_val(pre1);
                assert(acc * pow10((end - start) as nat) + digits_val(whole) == a1g * p2
                    + digits_val(suf)) by (nonlinear_arith)
                    requires
                        acc * pow10((end - start) as nat) == (acc * pow10(
                            (i + 1 - start) as nat,
                        )) * p2,
                        digits_val(whole) == digits_val(pre1) * p2 + digits_val(suf),
                        a1g == acc * pow10((i + 1 - start) as nat) + digits_val(pre1),
                ;
                assert(a1g * p2 >= a1g) by (nonlinear_arith)
                    requires
                        a1g > 0,
                        p2 >= 1,
                ;
            }
            return None;
        }
        a = a1;
        i = i + 1;
    }
    proof {
        assert(f@.subrange(start as int, i as int) =~= whole);
    }
    Some(a)
}

/// Parses one text field as a decimal floating-point literal, deciding the
/// grammar and range stated by `field_spec`.
pub fn parse_field(f: &Vec<u8>) -> (r: Result<Dec, ParseReason>)
    ensures
        r == field_spec(f@),
{
    let n = f.len();
    let sgn: usize = if n > 0 && f[0] == 45 {
        1
    } else {
        0
    };
    assert(sgn as int == sign_len(f@));
    let ep = find_e(f, sgn);
    let dp = find_dot(f, sgn, ep);
    assert(ep as int == e_pos(f@));
    assert(dp as int == dot_pos(f@));
    if dp == sgn {
        assert(int_part(f@).len() == 0);
        return Err(ParseReason::NotNumeric);
    }
    if !check_digits(f, sgn, dp) {
        assert(!all_digits(int_part(f@)));
        return Err(ParseReason::NotNumeric);
    }
    let hasdot = dp < ep;
    assert(hasdot == has_dot(f@));
    if hasdot {
        if dp + 1 == ep {
            assert(frac_part(f@).len() == 0);
            return Err(ParseReason::NotNumeric);
        }
        if !check_digits(f, dp + 1, ep) {
            return Err(ParseReason::NotNumeric);
        }
    }
    let hasexp = ep < n;
    assert(hasexp == has_exp(f@));
    let mut eneg = false;
    let mut estart: usize = 0;
    if hasexp {
        let t0 = ep + 1;
        proof {
            assert(exp_tail(f@) =~= f@.subrange(ep as int + 1, n as int));
        }
        if t0 < n && (f[t0] == 43 || f[t0] == 45) {
            eneg = f[t0] == 45;
            estart = t0 + 1;
        } else {
            estart = t0;
        }
        proof {
            assert(exp_digits(f@) =~= f@.subrange(estart as int, n as int));
        }
        if estart == n {
            assert(exp_digits(f@).len() == 0);
            return Err(ParseReason::NotNumeric);
        }
        if !check_digits(f, estart, n) {
            return Err(ParseReason::NotNumeric);
        }
    }
    assert(eneg == exp_neg(f@));
    assert(lit_ok(f@));
    // The mantissa: integer digits, then fraction digits, one running value.
    let cap: i128 = 0x7fff_ffff_ffff_ffff;
    proof {
        assert(int_part(f@) =~= f@.subrange(sgn as int, dp as int));
    }
    let acc1 = match fold_digits(f, sgn, dp, 0, cap) {
        Some(v) => v,
        None => {
            proof {
                lemma_mag_ge_int_digits(f@);
            }
            return Err(ParseReason::OutOfRange);
        },
    };
    assert(acc1 == digits_val(int_part(f@)));
    let mag: i128 = if hasdot {
        proof {
            assert(frac_part(f@) =~= f@.subrange(dp as int + 1, ep as int));
        }
        match fold_digits(f, dp + 1, ep, acc1, cap) {
            Some(v) => v,
            None => {
                return Err(ParseReason::OutOfRange);
            },
        }
    } else {
        proof {
            assert(frac_part(f@) =~= Seq::<u8>::empty());
            assert(magnitude(f@) == digits_val(int_part(f@)) * 1);
        }
        acc1
    };
    assert(mag == magnitude(f@));
    let emag: i128 = if hasexp {
        match fold_digits(f, estart, n, 0, 1_000_000_000) {
            Some(v) => v,
            None => {
                return Err(ParseReason::OutOfRange);
            },
        }
    } else {
        proof {
            assert(exp_digits(f@) =~= Seq::<u8>::empty());
        }
        0
    };
    assert(emag == exp_mag(f@));
    let flen: usize = if hasdot {
        ep - (dp + 1)
    } else {
        0
    };
    assert(flen as int == frac_part(f@).len());
    let e128: i128 = (if eneg {
        -emag
    } else {
        emag
    }) - (flen as i128);
    assert(e128 == lit_e(f@));
    if e128 < -0x8000_0000 || e128 > 0x7fff_ffff {
        return Err(ParseReason::OutOfRange);
    }
    let m128: i128 = if sgn == 1 {
        -mag
    } else {
        mag
    };
    assert(m128 == lit_m(f@));
    proof {
        lemma_digits_val_nonneg(int_part(f@));
        lemma_digits_val_nonneg(frac_part(f@));
        lemma_pow10_pos(frac_part(f@).len());
        assert(digits_val(int_part(f@)) * pow10(frac_part(f@).len()) >= 0) by (nonlinear_arith)
            requires
                digits_val(int_part(f@)) >= 0,
                pow10(frac_part(f@).len()) >= 0,
        ;
    }
    Ok(Dec { m: m128 as i64, e: e128 as i32 })
}

/// The mantissa is at least its integer-digit part.
proof fn lemma_mag_ge_int_digits(s: Seq<u8>)
    requires
        all_digits(int_part(s)),
        all_digits(frac_part(s)),
    ensures
        magnitude(s) >= digits_val(int_part(s)),
{
    lemma_digits_val_nonneg(int_part(s));
    lemma_digits_val_nonneg(frac_part(s));
    lemma_pow10_pos(frac_part(s).len());
    assert(digits_val(int_part(s)) * pow10(frac_part(s).len()) >= digits_val(int_part(s)))
        by (nonlinear_arith)
        requires
            digits_val(int_part(s)) >= 0,
            pow10(frac_part(s).len()) >= 1,
    ;
}

} // verus!
