//! The row loader: byte buffer -> records of text fields -> integer samples.
//!
//! Splitting the buffer into comma-delimited records is done by the csv
//! crate behind a trusted wrapper; everything after that - field parsing,
//! range checks, and bringing each column to its common power-of-ten scale -
//! is verified. Scaling each column by a positive power of ten leaves the
//! correlation coefficient unchanged (`laws::lemma_correlation_scale`).

use vstd::prelude::*;

use crate::dataset::{Dataset, Sample};
use crate::parse::{
    Dec, ParseReason, field_spec, parse_field, pow10,
};

verus! {

/// What the csv reader makes of a byte buffer: its records, each a sequence
/// of byte fields. The records are a function of the bytes alone.
pub uninterp spec fn csv_records_of(b: Seq<u8>) -> Seq<Seq<Seq<u8>>>;

/// Relies on csv::ReaderBuilder / Reader::byte_records (headers off,
/// flexible field counts, reading from an in-memory slice): which records
/// come back is a function of the bytes alone, and the call cannot fail.
/// Reading from a slice yields no I/O error, `flexible` disables the
/// unequal-lengths error, and byte records do no UTF-8 validation, so no
/// error path remains; an empty buffer holds no record.
#[verifier::external_body]
fn split_records(bytes: &Vec<u8>) -> (r: Result<Vec<Vec<Vec<u8>>>, String>)
    ensures
        r is Ok,
        (r->Ok_0).deep_view() == csv_records_of(bytes@),
        bytes@.len() == 0 ==> (r->Ok_0).deep_view() == Seq::<Seq<Seq<u8>>>::empty(),
{
    let mut rdr = csv::ReaderBuilder::new().has_headers(false).flexible(true).from_reader(
        bytes.as_slice(),
    );
    let mut rows: Vec<Vec<Vec<u8>>> = Vec::new();
    for rec in rdr.byte_records() {
        match rec {
            Ok(r) => rows.push(r.iter().map(|f| f.to_vec()).collect()),
            Err(e) => return Err(e.to_string()),
        }
    }
    Ok(rows)
}

/// Loading failures, in the order they are detected.
#[derive(Debug)]
pub enum LoadError {
    /// The row source itself could not be read.
    SourceUnavailable { reason: String },
    /// A row is malformed; the index is 0-based file order.
    ParseError { row_index: usize, reason: ParseReason },
}

/// What one record yields: the two leading fields as exact decimals.
/// Extra fields are ignored; a missing or malformed field rejects the row.
pub open spec fn row_spec(row: Seq<Seq<u8>>) -> Result<(Dec, Dec), ParseReason> {
    if row.len() < 2 {
        Err(ParseReason::MissingField)
    } else {
        match field_spec(row[0]) {
            Err(why) => Err(why),
            Ok(dx) => match field_spec(row[1]) {
                Err(why) => Err(why),
                Ok(dy) => Ok((dx, dy)),
            },
        }
    }
}

/// The first row index at or after `i` whose row is rejected, or the length.
pub open spec fn first_bad_row(rows: Seq<Seq<Seq<u8>>>, i: int) -> int
    decreases rows.len() - i,
{
    if i < 0 || i >= rows.len() {
        rows.len() as int
    } else if row_spec(rows[i]) is Err {
        i
    } else {
        first_bad_row(rows, i + 1)
    }
}

/// The decimals of all rows (meaningful when no row is rejected).
pub open spec fn decs_of(rows: Seq<Seq<Seq<u8>>>) -> Seq<(Dec, Dec)> {
    rows.map_values(|row: Seq<Seq<u8>>| row_spec(row)->Ok_0)
}

/// The least exponent of the first column.
pub open spec fn min_ex(ds: Seq<(Dec, Dec)>) -> int
    decreases ds.len(),
{
    if ds.len() == 0 {
        0
    } else if ds.len() == 1 {
        ds[0].0.e as int
    } else {
        let m = min_ex(ds.drop_last());
        let l = ds.last().0.e as int;
        if l < m {
            l
        } else {
            m
        }
    }
}

/// The least exponent of the second column.
pub open spec fn min_ey(ds: Seq<(Dec, Dec)>) -> int
    decreases ds.len(),
{
    if ds.len() == 0 {
        0
    } else if ds.len() == 1 {
        ds[0].1.e as int
    } else {
        let m = min_ey(ds.drop_last());
        let l = ds.last().1.e as int;
        if l < m {
            l
        } else {
            m
        }
    }
}

pub open spec fn in_i64(v: int) -> bool {
    i64::MIN as int <= v <= i64::MAX as int
}

/// The first-column value of row `i`, scaled to the column's common scale.
pub open spec fn scaled_x(ds: Seq<(Dec, Dec)>, i: int) -> int {
    ds[i].0.m * pow10((ds[i].0.e - min_ex(ds)) as nat)
}

/// The second-column value of row `i`, scaled to the column's common scale.
pub open spec fn scaled_y(ds: Seq<(Dec, Dec)>, i: int) -> int {
    ds[i].1.m * pow10((ds[i].1.e - min_ey(ds)) as nat)
}

pub open spec fn row_fits(ds: Seq<(Dec, Dec)>, i: int) -> bool {
    in_i64(scaled_x(ds, i)) && in_i64(scaled_y(ds, i))
}

/// The first row index at or after `i` whose scaled value overflows, or the
/// length.
pub open spec fn first_unfit(ds: Seq<(Dec, Dec)>, i: int) -> int
    decreases ds.len() - i,
{
    if i < 0 || i >= ds.len() {
        ds.len() as int
    } else if !row_fits(ds, i) {
        i
    } else {
        first_unfit(ds, i + 1)
    }
}

pub open spec fn scaled_samples(ds: Seq<(Dec, Dec)>) -> Seq<Sample> {
    Seq::new(
        ds.len(),
        |i: int| Sample { x: scaled_x(ds, i) as i64, y: scaled_y(ds, i) as i64 },
    )
}

/// The result of the executable loader agrees with `load_spec` on these
/// records: the dataset on success, the first offending row on failure.
pub open spec fn load_outcome_matches(
    r: Result<Dataset, LoadError>,
    rows: Seq<Seq<Seq<u8>>>,
) -> bool {
    match r {
        Ok(d) => load_spec(rows) == Ok::<Seq<Sample>, (int, ParseReason)>(d@),
        Err(LoadError::ParseError { row_index, reason }) => load_spec(rows) == Err::<
            Seq<Sample>,
            (int, ParseReason),
        >((row_index as int, reason)),
        Err(LoadError::SourceUnavailable { .. }) => false,
    }
}

/// As `load_outcome_matches`, for a loader that reads a byte buffer.
/// Splitting an in-memory buffer into records cannot fail, so
/// `SourceUnavailable` is ruled out here too: that error belongs to the
/// caller that opens the file.
pub open spec fn load_bytes_outcome(r: Result<Dataset, LoadError>, b: Seq<u8>) -> bool {
    match r {
        Ok(d) => load_spec(csv_records_of(b)) == Ok::<Seq<Sample>, (int, ParseReason)>(d@),
        Err(LoadError::ParseError { row_index, reason }) => load_spec(csv_records_of(b)) == Err::<
            Seq<Sample>,
            (int, ParseReason),
        >((row_index as int, reason)),
        Err(LoadError::SourceUnavailable { .. }) => false,
    }
}

/// What loading a sequence of records yields: the dataset in file order, or
/// the first offending row with its reason.
pub open spec fn load_spec(rows: Seq<Seq<Seq<u8>>>) -> Result<Seq<Sample>, (int, ParseReason)> {
    let fb = first_bad_row(rows, 0);
    if fb < rows.len() {
        Err((fb, row_spec(rows[fb])->Err_0))
    } else {
        let ds = decs_of(rows);
        let fu = first_unfit(ds, 0);
        if fu < ds.len() {
            Err((fu, ParseReason::OutOfRange))
        } else {
            Ok(scaled_samples(ds))
        }
    }
}

proof fn lemma_min_ex_le(ds: Seq<(Dec, Dec)>, i: int)
    requires
        0 <= i < ds.len(),
    ensures
        min_ex(ds) <= ds[i].0.e as int,
        min_ey(ds) <= ds[i].1.e as int,
    decreases ds.len(),
{
    if ds.len() > 1 && i < ds.len() - 1 {
        lemma_min_ex_le(ds.drop_last(), i);
    }
}

proof fn lemma_pow10_mono(a: nat, b: nat)
    requires
        a <= b,
    ensures
        pow10(a) <= pow10(b),
        pow10(a) >= 1,
    decreases b,
{
    if a == b {
        if a > 0 {
            lemma_pow10_mono((a - 1) as nat, (b - 1) as nat);
        }
    } else {
        lemma_pow10_mono(a, (b - 1) as nat);
    }
}

fn pow10_i64(k: usize) -> (r: i64)
    requires
        k <= 18,
    ensures
        r as int == pow10(k as nat),
        r >= 1,
{
    proof {
        reveal_with_fuel(pow10, 20);
        assert(pow10(18) == 1_000_000_000_000_000_000);
    }
    let mut acc: i64 = 1;
    let mut j: usize = 0;
    while j < k
        invariant
            j <= k <= 18,
            acc as int == pow10(j as nat),
            acc >= 1,
        decreases k - j,
    {
        proof {
            lemma_pow10_mono((j + 1) as nat, 18);
            reveal_with_fuel(pow10, 20);
            assert(pow10((j + 1) as nat) == 10 * pow10(j as nat));
        }
        acc = acc * 10;
        j = j + 1;
    }
    acc
}

/// Scales a mantissa by `10^diff`, failing exactly when the result leaves
/// the `i64` range.
fn scale_m(m: i64, diff: i64) -> (r: Option<i64>)
    requires
        diff >= 0,
    ensures
        match r {
            Some(v) => v as int == m * pow10(diff as nat),
            None => !in_i64(m * pow10(diff as nat)),
        },
{
    let ghost p = pow10(diff as nat);
    proof {
        lemma_pow10_mono(0, diff as nat);
    }
    if m == 0 {
        return Some(0);
    }
    if diff > 18 {
        proof {
            lemma_pow10_mono(19, diff as nat);
            reveal_with_fuel(pow10, 21);
            assert(pow10(19) == 10_000_000_000_000_000_000);
            if m >= 1 {
                assert(m * p >= p) by (nonlinear_arith)
                    requires
                        m >= 1,
                        p >= 0,
                ;
            } else {
                assert(m * p <= -p) by (nonlinear_arith)
                    requires
                        m <= -1,
                        p >= 0,
                ;
            }
        }
        return None;
    }
    let pe = pow10_i64(diff as usize);
    proof {
        lemma_pow10_mono(diff as nat, 18);
        reveal_with_fuel(pow10, 20);
        assert(pow10(18) == 1_000_000_000_000_000_000);
        assert(pe as int <= 1_000_000_000_000_000_000);
        assert(-0x8000_0000_0000_0000 * 1_000_000_000_000_000_000
            <= (m as i128) * (pe as i128)
            <= 0x8000_0000_0000_0000 * 1_000_000_000_000_000_000) by (nonlinear_arith)
            requires
                -0x8000_0000_0000_0000 <= m as i128 <= 0x7fff_ffff_ffff_ffff,
                1 <= pe as i128 <= 1_000_000_000_000_000_000,
        ;
    }
    let prod: i128 = (m as i128) * (pe as i128);
    if prod < i64::MIN as i128 || prod > i64::MAX as i128 {
        return None;
    }
    Some(prod as i64)
}

/// Turns records of text fields into the dataset: both leading fields of
/// every row parsed as decimals, then each column brought to its common
/// power-of-ten scale. Fails on the first offending row, exactly as
/// `load_spec` says.
pub fn load_rows(rows: &Vec<Vec<Vec<u8>>>) -> (r: Result<Dataset, LoadError>)
    ensures
        load_outcome_matches(r, rows.deep_view()),
{
    let ghost rws = rows.deep_view();
    let n = rows.len();
    proof {
        assert(rws.len() == n);
    }
    let mut decs: Vec<(Dec, Dec)> = Vec::new();
    let mut i: usize = 0;
    while i < n
        invariant
            i <= n,
            n == rows@.len(),
            rws == rows.deep_view(),
            rws.len() == n,
            first_bad_row(rws, 0) == first_bad_row(rws, i as int),
            decs@.len() == i,
            forall|j: int| 0 <= j < i as int ==> row_spec(rws[j]) is Ok,
            forall|j: int| 0 <= j < i as int ==> #[trigger] decs@[j] == row_spec(rws[j])->Ok_0,
        decreases n - i,
    {
        let row = &rows[i];
        proof {
            assert(rws[i as int] == rows@[i as int].deep_view());
            assert(row.deep_view().len() == row@.len());
        }
        if row.len() < 2 {
            assert(row_spec(rws[i as int]) == Err::<(Dec, Dec), ParseReason>(
                ParseReason::MissingField,
            ));
            assert(first_bad_row(rws, i as int) == i as int);
            return Err(LoadError::ParseError { row_index: i, reason: ParseReason::MissingField });
        }
        proof {
            assert(rws[i as int][0] == row@[0].deep_view());
            assert(rws[i as int][1] == row@[1].deep_view());
            assert(row@[0].deep_view() =~= row@[0]@);
            assert(row@[1].deep_view() =~= row@[1]@);
        }
        let dx = match parse_field(&row[0]) {
            Ok(d) => d,
            Err(why) => {
                assert(row_spec(rws[i as int]) == Err::<(Dec, Dec), ParseReason>(why));
                assert(first_bad_row(rws, i as int) == i as int);
                return Err(LoadError::ParseError { row_index: i, reason: why });
            },
        };
        let dy = match parse_field(&row[1]) {
            Ok(d) => d,
            Err(why) => {
                assert(row_spec(rws[i as int]) == Err::<(Dec, Dec), ParseReason>(why));
                assert(first_bad_row(rws, i as int) == i as int);
                return Err(LoadError::ParseError { row_index: i, reason: why });
            },
        };
        assert(row_spec(rws[i as int]) == Ok::<(Dec, Dec), ParseReason>((dx, dy)));
        assert(first_bad_row(rws, i as int) == first_bad_row(rws, i as int + 1));
        decs.push((dx, dy));
        i = i + 1;
    }
    proof {
        assert(first_bad_row(rws, n as int) == n as int);
        assert(decs@ =~= decs_of(rws));
    }
    let ghost ds = decs_of(rws);
    let m = decs.len();
    if m == 0 {
        proof {
            assert(first_unfit(ds, 0) == 0);
            assert(scaled_samples(ds) =~= Seq::<Sample>::empty());
        }
        return Ok(Dataset { samples: Vec::new() });
    }
    let mut minx: i32 = decs[0].0.e;
    let mut miny: i32 = decs[0].1.e;
    let mut i: usize = 1;
    proof {
        assert(ds.take(1).len() == 1);
        assert(ds.take(1)[0] == ds[0]);
        assert(min_ex(ds.take(1)) == ds[0].0.e as int);
        assert(min_ey(ds.take(1)) == ds[0].1.e as int);
    }
    while i < m
        invariant
            1 <= i <= m,
            m == decs@.len(),
            ds == decs@,
            minx as int == min_ex(ds.take(i as int)),
            miny as int == min_ey(ds.take(i as int)),
        decreases m - i,
    {
        proof {
            assert(ds.take(i as int + 1).drop_last() =~= ds.take(i as int));
            assert(ds.take(i as int + 1).last() == ds[i as int]);
        }
        if decs[i].0.e < minx {
            minx = decs[i].0.e;
        }
        if decs[i].1.e < miny {
            miny = decs[i].1.e;
        }
        i = i + 1;
    }
    proof {
        assert(ds.take(m as int) =~= ds);
    }
    let mut samples: Vec<Sample> = Vec::new();
    let mut i: usize = 0;
    while i < m
        invariant
            i <= m,
            m == decs@.len(),
            ds == decs@,
            rws == rows.deep_view(),
            first_bad_row(rws, 0) == rws.len(),
            ds == decs_of(rws),
            m == rws.len(),
            minx as int == min_ex(ds),
            miny as int == min_ey(ds),
            first_unfit(ds, 0) == first_unfit(ds, i as int),
            samples@.len() == i,
            forall|j: int| 0 <= j < i as int ==> #[trigger] samples@[j] == scaled_samples(ds)[j],
        decreases m - i,
    {
        let dx = decs[i].0;
        let dy = decs[i].1;
        proof {
            lemma_min_ex_le(ds, i as int);
        }
        let diffx: i64 = (dx.e as i64) - (minx as i64);
        let diffy: i64 = (dy.e as i64) - (miny as i64);
        let vx = match scale_m(dx.m, diffx) {
            Some(v) => v,
            None => {
                assert(!row_fits(ds, i as int));
                assert(first_unfit(ds, i as int) == i as int);
                return Err(
                    LoadError::ParseError { row_index: i, reason: ParseReason::OutOfRange },
                );
            },
        };
        let vy = match scale_m(dy.m, diffy) {
            Some(v) => v,
            None => {
                assert(!row_fits(ds, i as int));
                assert(first_unfit(ds, i as int) == i as int);
                return Err(
                    LoadError::ParseError { row_index: i, reason: ParseReason::OutOfRange },
                );
            },
        };
        assert(row_fits(ds, i as int));
        assert(first_unfit(ds, i as int) == first_unfit(ds, i as int + 1));
        samples.push(Sample { x: vx, y: vy });
        i = i + 1;
    }
    proof {
        assert(first_unfit(ds, m as int) == m as int);
        assert(samples@ =~= scaled_samples(ds));
    }
    Ok(Dataset { samples })
}

/// Loads a comma-delimited byte buffer: csv record splitting behind the
/// trusted wrapper, then the verified row loader. Splitting an in-memory
/// buffer cannot fail, so the result is pinned to `load_spec` on every
/// input: the dataset in file order, or `ParseError` with the 0-based index
/// of the first malformed row.
pub fn load_from_bytes(bytes: &Vec<u8>) -> (r: Result<Dataset, LoadError>)
    ensures
        load_bytes_outcome(r, bytes@),
        bytes@.len() == 0 ==> r is Ok && (r->Ok_0)@ == Seq::<Sample>::empty(),
{
    match split_records(bytes) {
        Err(msg) => {
            // Ruled out by the wrapper's contract: the splitter always
            // succeeds on an in-memory buffer.
            proof {
                assert(false);
            }
            Err(LoadError::SourceUnavailable { reason: msg })
        },
        Ok(rows) => {
            proof {
                if bytes@.len() == 0 {
                    let e = csv_records_of(bytes@);
                    assert(e =~= Seq::<Seq<Seq<u8>>>::empty());
                    assert(first_bad_row(e, 0) == 0);
                    assert(first_unfit(decs_of(e), 0) == 0);
                    assert(scaled_samples(decs_of(e)) =~= Seq::<Sample>::empty());
                }
            }
            load_rows(&rows)
        },
    }
}

} // verus!
