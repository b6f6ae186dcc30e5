//! The bulk-ingestion pipeline.
//!
//! [`Converter::csv_to_db`] reads delimited rows (fifteen ordered fields,
//! with a header row first), turns each into a range record, and commits the
//! records to a fresh [`DBIP`] store in bounded batches.  A malformed row
//! aborts the whole run; batches already committed stay.  A progress sink is
//! told the cumulative row count each time a full batch is committed.

use crate::addr::Family;
use crate::addr::IpAddress;
use crate::location::Location;
use crate::location::LocationModel;
use crate::store::DbModel;
use crate::store::DBIP;
use crate::store::RangeModel;
use crate::store::RangeRecord;
use crate::store::recs_model;
use crate::text::decimal_or_zero;
use crate::text::int_or_zero;
use crate::text::int_or_zero_of;
use crate::text::ip_of_text;
use crate::text::normalize_decimal;
use crate::text::parse_ip;
use vstd::arithmetic::div_mod::lemma_fundamental_div_mod;
use vstd::arithmetic::div_mod::lemma_fundamental_div_mod_converse;
use vstd::prelude::*;

verus! {

/// Rows per committed batch when none is chosen by the caller.
pub const INSERTS_PER_STATEMENT: usize = 100000;

/// An ingestion fault.  Every variant aborts the whole run.
#[derive(Clone, Copy, PartialEq, Eq, Structural, Debug)]
pub enum ConverterError {
    /// The input could not be read as delimited records at all.
    InputAccess,
    /// A row ended before the field with this index; see [`field_name`].
    MissingField(usize),
    /// `ip_start` or `ip_end` is not a well-formed IP address literal.
    AddressParse,
    /// `ip_start` and `ip_end` belong to different address families.
    FamilyMismatch,
}

/// The column name a field index stands for, as the input schema names it.
pub fn field_name(i: usize) -> (r: &'static str)
    ensures
        i == 0 ==> r@ == "ip_start"@,
        i == 1 ==> r@ == "ip_end"@,
        i == 2 ==> r@ == "country"@,
        i == 3 ==> r@ == "stateprov"@,
        i == 4 ==> r@ == "district"@,
        i == 5 ==> r@ == "city"@,
        i == 6 ==> r@ == "zipcode"@,
        i == 7 ==> r@ == "latitude"@,
        i == 8 ==> r@ == "longitude"@,
        i == 9 ==> r@ == "geoname_id"@,
        i == 10 ==> r@ == "timezone_offset"@,
        i == 11 ==> r@ == "timezone_name"@,
        i == 12 ==> r@ == "isp_name"@,
        i == 13 ==> r@ == "connection_type"@,
        i >= 14 ==> r@ == "organization_name"@,
{
    match i {
        0 => "ip_start",
        1 => "ip_end",
        2 => "country",
        3 => "stateprov",
        4 => "district",
        5 => "city",
        6 => "zipcode",
        7 => "latitude",
        8 => "longitude",
        9 => "geoname_id",
        10 => "timezone_offset",
        11 => "timezone_name",
        12 => "isp_name",
        13 => "connection_type",
        _ => "organization_name",
    }
}

/// What one row denotes: a range record, or the fault that aborts the run.
/// Fields are read in order; a missing field is reported at the index where
/// the row ended, an address fault as soon as the endpoint is read.
pub open spec fn row_spec(row: Seq<Seq<char>>) -> Result<RangeModel, ConverterError> {
    if row.len() < 1 {
        Err(ConverterError::MissingField(0))
    } else {
        match ip_of_text(row[0]) {
            None => Err(ConverterError::AddressParse),
            Some(a) => if row.len() < 2 {
                Err(ConverterError::MissingField(1))
            } else {
                match ip_of_text(row[1]) {
                    None => Err(ConverterError::AddressParse),
                    Some(b) => if a.spec_family() != b.spec_family() {
                        Err(ConverterError::FamilyMismatch)
                    } else if row.len() < 15 {
                        Err(ConverterError::MissingField(row.len() as usize))
                    } else {
                        Ok(
                            RangeModel {
                                family: a.spec_family(),
                                start: a.spec_value() as u128,
                                end: b.spec_value() as u128,
                                attrs: LocationModel {
                                    country: row[2],
                                    stateprov: row[3],
                                    district: row[4],
                                    city: row[5],
                                    zipcode: row[6],
                                    latitude: decimal_or_zero(row[7]),
                                    longitude: decimal_or_zero(row[8]),
                                    geoname_id: int_or_zero_of(row[9]) as int,
                                    timezone_offset: decimal_or_zero(row[10]),
                                    timezone_name: row[11],
                                    isp_name: row[12],
                                    connection_type: if row[13].len() == 0 {
                                        None
                                    } else {
                                        Some(row[13])
                                    },
                                    organization_name: row[14],
                                },
                            },
                        )
                    },
                }
            },
        }
    }
}

/// Turns one row's fields into a range record, or the fault the row carries.
pub fn parse_row(fields: &Vec<String>) -> (r: Result<RangeRecord, ConverterError>)
    ensures
        match r {
            Ok(rec) => row_spec(fields.deep_view()) == Ok::<RangeModel, ConverterError>(rec@),
            Err(e) => row_spec(fields.deep_view()) == Err::<RangeModel, ConverterError>(e),
        },
{
    let ghost dv = fields.deep_view();
    proof {
        assert(forall|k: int| 0 <= k < fields@.len() ==> dv[k] == #[trigger] fields@[k]@);
    }
    if fields.len() < 1 {
        return Err(ConverterError::MissingField(0));
    }
    let a = match parse_ip(fields[0].as_str()) {
        Some(a) => a,
        None => {
            return Err(ConverterError::AddressParse);
        },
    };
    if fields.len() < 2 {
        return Err(ConverterError::MissingField(1));
    }
    let b = match parse_ip(fields[1].as_str()) {
        Some(b) => b,
        None => {
            return Err(ConverterError::AddressParse);
        },
    };
    let fam = a.family();
    if fam != b.family() {
        return Err(ConverterError::FamilyMismatch);
    }
    if fields.len() < 15 {
        return Err(ConverterError::MissingField(fields.len()));
    }
    let rec = RangeRecord {
        family: fam,
        start: a.value(),
        end: b.value(),
        attrs: Location {
            country: fields[2].clone(),
            stateprov: fields[3].clone(),
            district: fields[4].clone(),
            city: fields[5].clone(),
            zipcode: fields[6].clone(),
            latitude: normalize_decimal(fields[7].as_str()),
            longitude: normalize_decimal(fields[8].as_str()),
            geoname_id: int_or_zero(fields[9].as_str()),
            timezone_offset: normalize_decimal(fields[10].as_str()),
            timezone_name: fields[11].clone(),
            isp_name: fields[12].clone(),
            connection_type: if fields[13].as_str().is_empty() {
                None
            } else {
                Some(fields[13].clone())
            },
            organization_name: fields[14].clone(),
        },
    };
    proof {
        match row_spec(dv) {
            Ok(m) => {
                assert(rec@ =~= m);
            },
            Err(_) => {
                assert(false);
            },
        }
    }
    Ok(rec)
}

/// A sink told the cumulative row count at each committed full batch.  Its
/// history is the sequence of counts it has been told, oldest first.
pub trait ProgressSink {
    /// The counts this sink has been told so far.
    spec fn history(&self) -> Seq<usize>;

    /// Take note of the cumulative row count at a batch boundary.
    fn notify(&mut self, count: usize)
        ensures
            final(self).history() == old(self).history().push(count),
    ;
}

/// A progress sink that records each reported count.
pub struct ProgressLog {
    pub counts: Vec<usize>,
}

impl ProgressSink for ProgressLog {
    open spec fn history(&self) -> Seq<usize> {
        self.counts@
    }

    fn notify(&mut self, count: usize) {
        self.counts.push(count);
    }
}

impl ProgressLog {
    /// A log with nothing recorded yet.
    pub fn new() -> (r: ProgressLog)
        ensures
            r.counts@ == Seq::<usize>::empty(),
    {
        let r = ProgressLog { counts: Vec::new() };
        proof {
            assert(r.counts@ =~= Seq::<usize>::empty());
        }
        r
    }
}

/// What the delimited reader yields for given input bytes: the rows after
/// the header, each as its fields, or nothing when the input is malformed.
pub uninterp spec fn csv_rows_of(data: Seq<u8>) -> Option<Seq<Seq<Seq<char>>>>;

/// Relies on csv::ReaderBuilder and csv::Reader: reading delimited records
/// from a byte slice depends on the bytes alone.  The first record is always
/// read as a header and skipped, as the source dataset carries one; rows may
/// vary in width (`flexible`).  Quoting is handled leniently and never
/// fails; the reader reports an error only for a record that is not valid
/// UTF-8, on which `None` is returned.
#[verifier::external_body]
fn read_csv_rows(data: &[u8]) -> (r: Option<Vec<Vec<String>>>)
    ensures
        match r {
            Some(rows) => csv_rows_of(data@) == Some(rows.deep_view()),
            None => csv_rows_of(data@) is None,
        },
{
    let mut rdr = csv::ReaderBuilder::new().flexible(true).from_reader(data);
    let mut rows: Vec<Vec<String>> = Vec::new();
    for rec in rdr.records() {
        match rec {
            Ok(sr) => rows.push(sr.iter().map(str::to_string).collect()),
            Err(_) => return None,
        }
    }
    Some(rows)
}

/// The index of the first row that carries a fault, looking at the first
/// `n` rows.
pub open spec fn first_bad(rows: Seq<Seq<Seq<char>>>, n: int) -> Option<int>
    decreases n,
{
    if n <= 0 {
        None
    } else {
        match first_bad(rows, n - 1) {
            Some(i) => Some(i),
            None => if row_spec(rows[n - 1]) is Err {
                Some(n - 1)
            } else {
                None
            },
        }
    }
}

/// Once a first fault is found, looking further never changes it.
proof fn lemma_first_bad_stable(rows: Seq<Seq<Seq<char>>>, i: int, n: int)
    requires
        0 <= i < n,
        first_bad(rows, i) is None,
        row_spec(rows[i]) is Err,
    ensures
        first_bad(rows, n) == Some(i),
    decreases n,
{
    if n > i + 1 {
        lemma_first_bad_stable(rows, i, n - 1);
    }
}

/// The records the first `n` rows contribute to family `f`'s table, in
/// row order.
pub open spec fn recs_fam(rows: Seq<Seq<Seq<char>>>, n: int, f: Family) -> Seq<RangeModel>
    decreases n,
{
    if n <= 0 {
        Seq::empty()
    } else {
        let prev = recs_fam(rows, n - 1, f);
        match row_spec(rows[n - 1]) {
            Ok(m) => if m.family == f {
                prev.push(m)
            } else {
                prev
            },
            Err(_) => prev,
        }
    }
}

/// The counts reported to the progress sink while ingesting `n` rows in
/// batches of `batch`: one report per full batch, at each multiple of
/// `batch`.
pub open spec fn progress_marks(n: int, batch: int) -> Seq<usize> {
    Seq::new((n / batch) as nat, |k: int| ((k + 1) * batch) as usize)
}

/// Everything ingestion promises: how the store, the progress history and
/// the result relate to what the input bytes denote.
pub open spec fn ingest_outcome(
    data: Seq<u8>,
    db: DbModel,
    old_hist: Seq<usize>,
    new_hist: Seq<usize>,
    r: Result<(), ConverterError>,
    batch: int,
) -> bool {
    match csv_rows_of(data) {
        None => {
            &&& r == Err::<(), ConverterError>(ConverterError::InputAccess)
            &&& db.v4 == Seq::<RangeModel>::empty()
            &&& db.v6 == Seq::<RangeModel>::empty()
            &&& new_hist == old_hist
        },
        Some(rows) => match first_bad(rows, rows.len() as int) {
            None => {
                &&& r == Ok::<(), ConverterError>(())
                &&& db.v4 == recs_fam(rows, rows.len() as int, Family::V4)
                &&& db.v6 == recs_fam(rows, rows.len() as int, Family::V6)
                &&& new_hist == old_hist + progress_marks(rows.len() as int, batch)
            },
            Some(i) => {
                &&& (match row_spec(rows[i]) {
                    Err(e) => r == Err::<(), ConverterError>(e),
                    Ok(_) => false,
                })
                &&& db.v4 == recs_fam(rows, (i / batch) * batch, Family::V4)
                &&& db.v6 == recs_fam(rows, (i / batch) * batch, Family::V6)
                &&& new_hist == old_hist + progress_marks(i, batch)
            },
        },
    }
}

/// How one more row moves the batch arithmetic: the quotient steps up
/// exactly at multiples of the batch size.
proof fn lemma_div_step(i: int, b: int)
    requires
        0 <= i,
        1 <= b,
    ensures
        (i + 1) % b == 0 ==> (i + 1) / b == i / b + 1 && (i / b + 1) * b == i + 1,
        (i + 1) % b != 0 ==> (i + 1) / b == i / b,
        0 <= i / b,
        (i / b) * b <= i,
{
    lemma_fundamental_div_mod(i, b);
    vstd::arithmetic::div_mod::lemma_mod_bound(i, b);
    vstd::arithmetic::div_mod::lemma_div_pos_is_pos(i, b);
    let q = i / b;
    let r = i % b;
    assert(i == b * q + r);
    assert(q * b == b * q && (q + 1) * b == b * q + b && (q / 1) * b == q * b) by (nonlinear_arith);
    assert(q * b <= i) by (nonlinear_arith)
        requires
            i == b * q + r,
            0 <= r,
    {
    }
    if r + 1 == b {
        assert(i + 1 == (q + 1) * b + 0);
        lemma_fundamental_div_mod_converse(i + 1, b, q + 1, 0);
    } else {
        assert(i + 1 == q * b + (r + 1));
        lemma_fundamental_div_mod_converse(i + 1, b, q, r + 1);
    }
}

/// The one public converter: a namespace for the ingestion entry points.
pub struct Converter;

impl Converter {
    /// Ingests `data` into a rebuilt store with the default batch size.
    /// The first record of `data` is always read as a header row and not
    /// ingested.
    pub fn csv_to_db<P: ProgressSink>(data: &[u8], db: &mut DBIP, progress: &mut P) -> (r: Result<
        (),
        ConverterError,
    >)
        ensures
            ingest_outcome(
                data@,
                final(db)@,
                old(progress).history(),
                final(progress).history(),
                r,
                INSERTS_PER_STATEMENT as int,
            ),
            final(db).wf(),
    {
        Self::csv_to_db_batched(data, db, INSERTS_PER_STATEMENT, progress)
    }

    /// Ingests `data` into a rebuilt store, committing after every
    /// `batch_size` rows and reporting the cumulative count at each commit.
    #[verifier::rlimit(100)]
    pub fn csv_to_db_batched<P: ProgressSink>(
        data: &[u8],
        db: &mut DBIP,
        batch_size: usize,
        progress: &mut P,
    ) -> (r: Result<(), ConverterError>)
        requires
            batch_size >= 1,
        ensures
            ingest_outcome(
                data@,
                final(db)@,
                old(progress).history(),
                final(progress).history(),
                r,
                batch_size as int,
            ),
            final(db).wf(),
    {
        *db = DBIP::new();
        let rows = match read_csv_rows(data) {
            Some(rows) => rows,
            None => {
                return Err(ConverterError::InputAccess);
            },
        };
        let ghost rws = rows.deep_view();
        proof {
            assert(forall|k: int| 0 <= k < rows@.len() ==> rws[k] == #[trigger] rows@[k].deep_view());
            assert(progress_marks(0, batch_size as int) =~= Seq::<usize>::empty());
            assert(old(progress).history() + Seq::<usize>::empty() =~= old(progress).history());
        }
        let mut pend4: Vec<RangeRecord> = Vec::new();
        let mut pend6: Vec<RangeRecord> = Vec::new();
        let mut i: usize = 0;
        proof {
            let b = batch_size as int;
            lemma_fundamental_div_mod_converse(0, b, 0, 0);
            assert((0int / b) * b == 0) by (nonlinear_arith)
                requires
                    0int / b == 0,
            {
            }
            assert(recs_fam(rws, 0, Family::V4) =~= Seq::<RangeModel>::empty());
            assert(recs_fam(rws, 0, Family::V6) =~= Seq::<RangeModel>::empty());
            assert(recs_model(pend4@) =~= Seq::<RangeModel>::empty());
            assert(recs_model(pend6@) =~= Seq::<RangeModel>::empty());
            assert(db@.v4 + recs_model(pend4@) =~= db@.v4);
            assert(db@.v6 + recs_model(pend6@) =~= db@.v6);
        }
        while i < rows.len()
            invariant
                i <= rows@.len(),
                batch_size >= 1,
                rws == rows.deep_view(),
                rws.len() == rows@.len(),
                csv_rows_of(data@) == Some(rws),
                first_bad(rws, i as int) is None,
                db@.v4 == recs_fam(rws, ((i as int) / (batch_size as int)) * (batch_size as int), Family::V4),
                db@.v6 == recs_fam(rws, ((i as int) / (batch_size as int)) * (batch_size as int), Family::V6),
                db@.v4 + recs_model(pend4@) == recs_fam(rws, i as int, Family::V4),
                db@.v6 + recs_model(pend6@) == recs_fam(rws, i as int, Family::V6),
                progress.history() == old(progress).history() + progress_marks(
                    i as int,
                    batch_size as int,
                ),
                db.wf(),
                forall|k: int|
                    0 <= k < pend4@.len() ==> (#[trigger] pend4@[k])@.family == Family::V4
                        && pend4@[k]@.start < 0x1_0000_0000 && pend4@[k]@.end < 0x1_0000_0000,
                forall|k: int| 0 <= k < pend6@.len() ==> (#[trigger] pend6@[k])@.family == Family::V6,
            decreases rows@.len() - i,
        {
            let ghost b = batch_size as int;
            let fields = &rows[i];
            proof {
                assert(fields.deep_view() == rws[i as int]);
            }
            match parse_row(fields) {
                Ok(rec) => {
                    let ghost rm = rec@;
                    proof {
                        assert(row_spec(rws[i as int]) == Ok::<RangeModel, ConverterError>(rm));
                        assert(first_bad(rws, i + 1) is None);
                        lemma_row_family_bounds(rws[i as int]);
                    }
                    match rec.family {
                        Family::V4 => {
                            pend4.push(rec);
                            proof {
                                assert(recs_model(pend4@) =~= recs_model(pend4@.drop_last()).push(
                                    rm,
                                ));
                                assert(db@.v4 + recs_model(pend4@) =~= recs_fam(
                                    rws,
                                    i + 1,
                                    Family::V4,
                                ));
                                assert(db@.v6 + recs_model(pend6@) =~= recs_fam(
                                    rws,
                                    i + 1,
                                    Family::V6,
                                ));
                            }
                        },
                        Family::V6 => {
                            pend6.push(rec);
                            proof {
                                assert(recs_model(pend6@) =~= recs_model(pend6@.drop_last()).push(
                                    rm,
                                ));
                                assert(db@.v6 + recs_model(pend6@) =~= recs_fam(
                                    rws,
                                    i + 1,
                                    Family::V6,
                                ));
                                assert(db@.v4 + recs_model(pend4@) =~= recs_fam(
                                    rws,
                                    i + 1,
                                    Family::V4,
                                ));
                            }
                        },
                    }
                },
                Err(e) => {
                    proof {
                        lemma_first_bad_stable(rws, i as int, rws.len() as int);
                        lemma_div_step(i as int, b);
                    }
                    return Err(e);
                },
            }
            i = i + 1;
            proof {
                lemma_div_step(i - 1, b);
            }
            if i % batch_size == 0 {
                db.commit_batch(&mut pend4, &mut pend6);
                progress.notify(i);
                proof {
                    assert((i as int) / b == (i - 1) / b + 1);
                    assert(((i - 1) / b + 1) * b == i as int);
                    assert(progress_marks(i as int, b) =~= progress_marks(i - 1, b).push(
                        i as usize,
                    ));
                    assert(old(progress).history() + progress_marks(i - 1, b).push(i as usize)
                        =~= (old(progress).history() + progress_marks(i - 1, b)).push(i as usize));
                    assert(((i as int) / b) * b == i as int) by (nonlinear_arith)
                        requires
                            (i as int) / b == (i - 1) / b + 1,
                            ((i - 1) / b + 1) * b == i as int,
                    {
                    }
                    assert(recs_model(pend4@) =~= Seq::<RangeModel>::empty());
                    assert(recs_model(pend6@) =~= Seq::<RangeModel>::empty());
                    assert(db@.v4 + recs_model(pend4@) =~= db@.v4);
                    assert(db@.v6 + recs_model(pend6@) =~= db@.v6);
                }
            } else {
                proof {
                    assert((i as int) / b == (i - 1) / b);
                    assert(progress_marks(i as int, b) =~= progress_marks(i - 1, b));
                }
            }
        }
        if pend4.len() > 0 || pend6.len() > 0 {
            db.commit_batch(&mut pend4, &mut pend6);
        } else {
            proof {
                assert(recs_model(pend4@) =~= Seq::<RangeModel>::empty());
                assert(recs_model(pend6@) =~= Seq::<RangeModel>::empty());
                assert(db@.v4 + recs_model(pend4@) =~= db@.v4);
                assert(db@.v6 + recs_model(pend6@) =~= db@.v6);
            }
        }
        Ok(())
    }
}

/// Ingest-then-query self-consistency: after a successful ingestion whose
/// rows produced, for the family queried, pairwise non-overlapping ranges
/// with `start <= end` (the dataset invariants the store assumes), looking
/// up any produced record's own `start` or `end` answers exactly that
/// record.  A dataset that breaks those invariants — two rows with the same
/// range, say — still ingests, and the tie-break rule alone decides its
/// lookups.
pub proof fn lemma_ingest_self_consistency(
    rows: Seq<Seq<Seq<char>>>,
    db: DbModel,
    f: Family,
    k: int,
)
    requires
        db.v4 == recs_fam(rows, rows.len() as int, Family::V4),
        db.v6 == recs_fam(rows, rows.len() as int, Family::V6),
        crate::store::non_overlapping(db.table(f)),
        0 <= k < db.table(f).len(),
        db.table(f)[k].start <= db.table(f)[k].end,
    ensures
        crate::store::lookup(db.table(f), db.table(f)[k].start) == Some(k),
        crate::store::lookup(db.table(f), db.table(f)[k].end) == Some(k),
{
    crate::store::lemma_lookup_self(db.table(f), k);
}

/// A row's record lies inside its family's space: v4 endpoints fit 32 bits.
proof fn lemma_row_family_bounds(row: Seq<Seq<char>>)
    ensures
        match row_spec(row) {
            Ok(m) => m.family == Family::V4 ==> m.start < 0x1_0000_0000 && m.end < 0x1_0000_0000,
            Err(_) => true,
        },
{
    if row.len() >= 2 {
        match ip_of_text(row[0]) {
            Some(a) => {
                match ip_of_text(row[1]) {
                    Some(b) => {
                        match a {
                            IpAddress::V4(_) => {
                                match b {
                                    IpAddress::V4(_) => {
                                    },
                                    IpAddress::V6(_) => {
                                    },
                                }
                            },
                            IpAddress::V6(_) => {
                            },
                        }
                    },
                    None => {
                    },
                }
            },
            None => {
            },
        }
    }
}

} // verus!
