use pearson::dataset::{Dataset, Sample};
use pearson::stats::{correlate, Corr, CorrError};

fn dataset(pairs: &[(i64, i64)]) -> Dataset {
    let mut v = Vec::new();
    for &(x, y) in pairs {
        v.push(Sample::new(x, y));
    }
    Dataset::from_samples(v)
}

fn r_of(c: &Corr) -> f64 {
    let n = c.n as f64;
    let sx = c.sx as f64;
    let sy = c.sy as f64;
    let sxy = c.sxy as f64;
    let sxx = c.sxx as f64;
    let syy = c.syy as f64;
    (n * sxy - sx * sy) / ((n * sxx - sx * sx).sqrt() * (n * syy - sy * sy).sqrt())
}

#[test]
fn perfect_positive_relation() {
    let d = dataset(&[(1, 2), (2, 4), (3, 6)]);
    let c = correlate(&d).unwrap();
    assert_eq!(c.n, 3);
    assert_eq!(c.sx, 6);
    assert_eq!(c.sy, 12);
    assert_eq!(c.sxy, 28);
    assert_eq!(c.sxx, 14);
    assert_eq!(c.syy, 56);
    assert!((r_of(&c) - 1.0).abs() < 1e-9);
}

#[test]
fn perfect_negative_relation() {
    let d = dataset(&[(1, 6), (2, 4), (3, 2)]);
    let c = correlate(&d).unwrap();
    assert!((r_of(&c) + 1.0).abs() < 1e-9);
}

#[test]
fn symmetry_in_the_two_columns() {
    let d = dataset(&[(1, 5), (2, 3), (3, 9), (4, 1)]);
    let s = d.swapped();
    let c = correlate(&d).unwrap();
    let cs = correlate(&s).unwrap();
    assert_eq!(cs.sx, c.sy);
    assert_eq!(cs.sy, c.sx);
    assert_eq!(cs.sxx, c.syy);
    assert_eq!(cs.syy, c.sxx);
    assert_eq!(cs.sxy, c.sxy);
    assert_eq!(r_of(&cs), r_of(&c));
}

#[test]
fn scale_invariance_up_to_sign() {
    let base = dataset(&[(1, 2), (2, 4), (3, 6)]);
    // x scaled by -2, y by 3: the magnitude is kept, the sign flips.
    let scaled = dataset(&[(-2, 6), (-4, 12), (-6, 18)]);
    let c = correlate(&base).unwrap();
    let cv = correlate(&scaled).unwrap();
    assert!((r_of(&c) - 1.0).abs() < 1e-9);
    assert!((r_of(&cv) + 1.0).abs() < 1e-9);
    assert!((r_of(&c).abs() - r_of(&cv).abs()).abs() < 1e-9);
}

#[test]
fn bounded_range() {
    let d = dataset(&[(1, 5), (2, 3), (3, 9), (4, 1), (5, 4)]);
    let c = correlate(&d).unwrap();
    let r = r_of(&c);
    assert!(r >= -1.0 - 1e-9 && r <= 1.0 + 1e-9);
    // The exact form of the bound: cov^2 <= varx * vary.
    let cov = c.n as i128 * c.sxy - c.sx * c.sy;
    let varx = c.n as i128 * c.sxx - c.sx * c.sx;
    let vary = c.n as i128 * c.syy - c.sy * c.sy;
    assert!(cov * cov <= varx * vary);
    assert!(varx > 0 && vary > 0);
}

#[test]
fn empty_dataset_fails_fast() {
    let d = Dataset::new();
    assert_eq!(correlate(&d), Err(CorrError::EmptyDataset));
}

#[test]
fn single_sample_is_insufficient() {
    let mut d = Dataset::new();
    d.push(Sample::new(1, 2));
    assert_eq!(correlate(&d), Err(CorrError::InsufficientData));
}

#[test]
fn zero_variance_is_undefined() {
    let d = dataset(&[(1, 5), (2, 5), (3, 5)]);
    assert_eq!(correlate(&d), Err(CorrError::UndefinedCorrelation));
    let d = dataset(&[(7, 1), (7, 2), (7, 3)]);
    assert_eq!(correlate(&d), Err(CorrError::UndefinedCorrelation));
}

#[test]
fn sum_of_squares_overflow_is_reported() {
    let d = dataset(&[(i64::MAX, 1), (i64::MAX - 1, 2), (i64::MAX - 2, 3)]);
    assert_eq!(correlate(&d), Err(CorrError::Overflow));
}

#[test]
fn exact_coefficient_three_fifths() {
    let d = dataset(&[(1, 2), (2, 1), (3, 4), (4, 3)]);
    let c = correlate(&d).unwrap();
    // cov = 12, varx = vary = 20, so r = 12/20 = 0.6 exactly.
    let cov = c.n as i128 * c.sxy - c.sx * c.sy;
    let varx = c.n as i128 * c.sxx - c.sx * c.sx;
    let vary = c.n as i128 * c.syy - c.sy * c.sy;
    assert_eq!(cov, 12);
    assert_eq!(varx, 20);
    assert_eq!(vary, 20);
    assert!((r_of(&c) - 0.6).abs() < 1e-12);
}
