use pearson::dataset::Sample;
use pearson::load::{load_from_bytes, LoadError};
use pearson::parse::{parse_field, Dec, ParseReason};
use pearson::stats::{correlate, CorrError};

#[test]
fn loads_plain_integers() {
    let d = load_from_bytes(&b"1,2\n3,4".to_vec()).unwrap();
    assert_eq!(d.len(), 2);
    assert_eq!(d.samples[0], Sample { x: 1, y: 2 });
    assert_eq!(d.samples[1], Sample { x: 3, y: 4 });
}

#[test]
fn extra_fields_are_ignored() {
    let d = load_from_bytes(&b"1,2,junk\n3,4,more,junk\n".to_vec()).unwrap();
    assert_eq!(d.len(), 2);
    assert_eq!(d.samples[1], Sample { x: 3, y: 4 });
}

#[test]
fn columns_share_a_power_of_ten_scale() {
    // x column: 0.5 and 1.25 -> scaled by 10^2 -> 50 and 125.
    let d = load_from_bytes(&b"0.5,1\n1.25,2\n".to_vec()).unwrap();
    assert_eq!(d.samples[0], Sample { x: 50, y: 1 });
    assert_eq!(d.samples[1], Sample { x: 125, y: 2 });
}

#[test]
fn scaling_does_not_change_the_coefficient() {
    let plain = load_from_bytes(&b"1,2\n2,4\n3,5\n".to_vec()).unwrap();
    let scaled = load_from_bytes(&b"0.1,2000\n0.2,4000\n0.3,5000\n".to_vec()).unwrap();
    let c = correlate(&plain).unwrap();
    let cv = correlate(&scaled).unwrap();
    let cov = |c: &pearson::stats::Corr| c.n as i128 * c.sxy - c.sx * c.sy;
    let varx = |c: &pearson::stats::Corr| c.n as i128 * c.sxx - c.sx * c.sx;
    let vary = |c: &pearson::stats::Corr| c.n as i128 * c.syy - c.sy * c.sy;
    // r is cov/sqrt(varx*vary): equal coefficients mean equal squares
    // cov^2 * varx' * vary' == cov'^2 * varx * vary, with matching signs.
    assert_eq!(
        cov(&c) * cov(&c) * varx(&cv) * vary(&cv),
        cov(&cv) * cov(&cv) * varx(&c) * vary(&c)
    );
    assert_eq!(cov(&c).signum(), cov(&cv).signum());
}

#[test]
fn malformed_row_rejected_with_its_index() {
    let r = load_from_bytes(&b"1,2\na,3\n4,5".to_vec());
    assert!(
        matches!(r, Err(LoadError::ParseError { row_index: 1, reason: ParseReason::NotNumeric }))
    );
}

#[test]
fn missing_field_rejected_with_its_index() {
    let r = load_from_bytes(&b"1,2\n3\n4,5".to_vec());
    assert!(
        matches!(r, Err(LoadError::ParseError { row_index: 1, reason: ParseReason::MissingField }))
    );
}

#[test]
fn empty_input_yields_empty_dataset() {
    let d = load_from_bytes(&b"".to_vec()).unwrap();
    assert_eq!(d.len(), 0);
    assert_eq!(correlate(&d), Err(CorrError::EmptyDataset));
}

#[test]
fn missing_file_is_a_distinct_failure() {
    // Opening the row source is the caller's step; it maps an unreadable
    // source to SourceUnavailable, never to ParseError.
    let opened = csv::Reader::from_path("/nonexistent/input.csv");
    assert!(opened.is_err());
    let e = LoadError::SourceUnavailable { reason: format!("{}", opened.err().unwrap()) };
    assert!(matches!(e, LoadError::SourceUnavailable { .. }));
    assert!(!matches!(e, LoadError::ParseError { .. }));
}

#[test]
fn parses_decimal_literals_exactly() {
    assert_eq!(parse_field(&b"42".to_vec()), Ok(Dec { m: 42, e: 0 }));
    assert_eq!(parse_field(&b"-12.5e3".to_vec()), Ok(Dec { m: -125, e: 2 }));
    assert_eq!(parse_field(&b"1e-2".to_vec()), Ok(Dec { m: 1, e: -2 }));
    assert_eq!(parse_field(&b"007".to_vec()), Ok(Dec { m: 7, e: 0 }));
    assert_eq!(parse_field(&b"0.250".to_vec()), Ok(Dec { m: 250, e: -3 }));
    assert_eq!(parse_field(&b"-0".to_vec()), Ok(Dec { m: 0, e: 0 }));
    assert_eq!(parse_field(&b"3E4".to_vec()), Ok(Dec { m: 3, e: 4 }));
    assert_eq!(parse_field(&b"2e+1".to_vec()), Ok(Dec { m: 2, e: 1 }));
}

#[test]
fn rejects_what_is_not_a_literal() {
    assert_eq!(parse_field(&b"".to_vec()), Err(ParseReason::NotNumeric));
    assert_eq!(parse_field(&b"abc".to_vec()), Err(ParseReason::NotNumeric));
    assert_eq!(parse_field(&b"5.".to_vec()), Err(ParseReason::NotNumeric));
    assert_eq!(parse_field(&b".5".to_vec()), Err(ParseReason::NotNumeric));
    assert_eq!(parse_field(&b"+5".to_vec()), Err(ParseReason::NotNumeric));
    assert_eq!(parse_field(&b"1e".to_vec()), Err(ParseReason::NotNumeric));
    assert_eq!(parse_field(&b"1e+".to_vec()), Err(ParseReason::NotNumeric));
    assert_eq!(parse_field(&b"1.2.3".to_vec()), Err(ParseReason::NotNumeric));
    assert_eq!(parse_field(&b"-".to_vec()), Err(ParseReason::NotNumeric));
    assert_eq!(parse_field(&b"1,5".to_vec()), Err(ParseReason::NotNumeric));
}

#[test]
fn rejects_values_out_of_range() {
    assert_eq!(
        parse_field(&b"99999999999999999999".to_vec()),
        Err(ParseReason::OutOfRange)
    );
    assert_eq!(parse_field(&b"1e9999999999".to_vec()), Err(ParseReason::OutOfRange));
    assert_eq!(parse_field(&b"1e2200000000".to_vec()), Err(ParseReason::OutOfRange));
}

#[test]
fn wide_exponent_spread_overflows_the_scale() {
    let r = load_from_bytes(&b"1e30,1\n1e-10,2\n".to_vec());
    assert!(
        matches!(r, Err(LoadError::ParseError { row_index: 0, reason: ParseReason::OutOfRange }))
    );
}
