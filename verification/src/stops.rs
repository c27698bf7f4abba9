//! Stop records: decoding rows of the stop table into stop points, keeping
//! only genuine boarding points, and skipping rows that fail to decode.

use vstd::prelude::*;
use vstd::string::*;
use crate::numbers::{spec_parse_u8, spec_is_float_literal, parse_u8, is_float_literal};

verus! {

/// A stop-like point read from one row of the stop table.
pub struct StopPoint {
    pub stop_id: String,
    /// Latitude in decimal degrees, kept as the decoded text of the field.
    pub stop_lat: String,
    /// Longitude in decimal degrees, kept as the decoded text of the field.
    pub stop_lon: String,
    /// Absent or zero for a boarding point; any other value is excluded.
    pub location_type: Option<u8>,
}

/// The mathematical content of a `StopPoint`.
pub struct StopV {
    pub stop_id: Seq<char>,
    pub stop_lat: Seq<char>,
    pub stop_lon: Seq<char>,
    pub location_type: Option<u8>,
}

impl DeepView for StopPoint {
    type V = StopV;

    open spec fn deep_view(&self) -> StopV {
        StopV {
            stop_id: self.stop_id@,
            stop_lat: self.stop_lat@,
            stop_lon: self.stop_lon@,
            location_type: self.location_type,
        }
    }
}

/// The location type a stop resolves to when the column is absent or empty.
pub open spec fn spec_resolved(lt: Option<u8>) -> int {
    match lt {
        None => 0,
        Some(v) => v as int,
    }
}

/// Index of the first header field equal to `name`, if any.
pub open spec fn spec_find_column(header: Seq<Seq<char>>, name: Seq<char>) -> Option<int>
    decreases header.len(),
{
    if header.len() == 0 {
        None
    } else if header[0] == name {
        Some(0)
    } else {
        match spec_find_column(header.subrange(1, header.len() as int), name) {
            None => None,
            Some(i) => Some(i + 1),
        }
    }
}

proof fn lemma_find_column_char(header: Seq<Seq<char>>, name: Seq<char>)
    ensures
        match spec_find_column(header, name) {
            None => forall|i: int| 0 <= i < header.len() ==> #[trigger] header[i] != name,
            Some(i) => 0 <= i < header.len() && header[i] == name && forall|k: int|
                0 <= k < i ==> #[trigger] header[k] != name,
        },
    decreases header.len(),
{
    if header.len() > 0 && header[0] != name {
        let rest = header.subrange(1, header.len() as int);
        lemma_find_column_char(rest, name);
        assert(forall|i: int| 1 <= i < header.len() ==> #[trigger] header[i] == rest[i - 1]);
        assert(forall|i: int| 0 <= i < rest.len() ==> #[trigger] rest[i] == header[i + 1]);
    }
}

/// Finds a column by header name, so that column order does not matter and
/// unknown columns are ignored.
pub fn find_column(header: &Vec<String>, name: &String) -> (r: Option<usize>)
    ensures
        match r {
            None => spec_find_column(header.deep_view(), name@) is None,
            Some(i) => spec_find_column(header.deep_view(), name@) == Some(i as int),
        },
{
    let ghost h = header.deep_view();
    let mut i: usize = 0;
    while i < header.len()
        invariant
            i <= header.len(),
            h == header.deep_view(),
            h.len() == header@.len(),
            header@.len() == header.len(),
            forall|k: int| 0 <= k < i ==> #[trigger] h[k] != name@,
        decreases header.len() - i,
    {
        if header[i] == *name {
            proof {
                assert(h[i as int] == name@);
                lemma_find_column_char(h, name@);
                assert(spec_find_column(h, name@) == Some(i as int));
            }
            return Some(i);
        }
        i += 1;
    }
    proof {
        lemma_find_column_char(h, name@);
    }
    None
}

/// What one row of the table becomes.
pub enum RowResult {
    /// The row failed to decode and is skipped with a diagnostic.
    Malformed,
    /// The row decoded but is not a boarding point.
    Excluded,
    /// The row decoded to a boarding point.
    Kept(StopPoint),
}

/// The mathematical content of a `RowResult`.
pub enum RowV {
    Malformed,
    Excluded,
    Kept(StopV),
}

impl DeepView for RowResult {
    type V = RowV;

    open spec fn deep_view(&self) -> RowV {
        match self {
            RowResult::Malformed => RowV::Malformed,
            RowResult::Excluded => RowV::Excluded,
            RowResult::Kept(sp) => RowV::Kept(sp.deep_view()),
        }
    }
}

/// `Option<usize>` column index as a mathematical index.
pub open spec fn opt_idx(i: Option<usize>) -> Option<int> {
    match i {
        None => None,
        Some(v) => Some(v as int),
    }
}

/// The location type of a row: `Some(lt)` when the field is absent, empty or
/// a byte written in decimal, `None` when it fails to decode.
pub open spec fn spec_row_location_type(row: Seq<Seq<char>>, ity: Option<int>) -> Option<
    Option<u8>,
> {
    match ity {
        None => Some(None),
        Some(i) => if 0 <= i < row.len() {
            if row[i].len() == 0 {
                Some(None)
            } else {
                match spec_parse_u8(row[i]) {
                    None => None,
                    Some(v) => Some(Some(v)),
                }
            }
        } else {
            Some(None)
        },
    }
}

/// Decodes one row: the row is kept exactly when every required field is
/// present, both coordinates are floating-point literals, and its resolved
/// location type is zero; a decode failure marks the row malformed.
pub open spec fn spec_decode_row(
    row: Seq<Seq<char>>,
    ii: int,
    ila: int,
    ilo: int,
    ity: Option<int>,
) -> RowV {
    if !(0 <= ii < row.len() && 0 <= ila < row.len() && 0 <= ilo < row.len()) {
        RowV::Malformed
    } else if !spec_is_float_literal(row[ila]) || !spec_is_float_literal(row[ilo]) {
        RowV::Malformed
    } else {
        match spec_row_location_type(row, ity) {
            None => RowV::Malformed,
            Some(lt) => if spec_resolved(lt) == 0 {
                RowV::Kept(
                    StopV {
                        stop_id: row[ii],
                        stop_lat: row[ila],
                        stop_lon: row[ilo],
                        location_type: lt,
                    },
                )
            } else {
                RowV::Excluded
            },
        }
    }
}

pub fn decode_row(row: &Vec<String>, ii: usize, ila: usize, ilo: usize, ity: Option<usize>) -> (r:
    RowResult)
    ensures
        r.deep_view() == spec_decode_row(row.deep_view(), ii as int, ila as int, ilo as int, opt_idx(ity)),
{
    if !(ii < row.len() && ila < row.len() && ilo < row.len()) {
        return RowResult::Malformed;
    }
    if !is_float_literal(row[ila].as_str()) || !is_float_literal(row[ilo].as_str()) {
        return RowResult::Malformed;
    }
    let lt: Option<u8> = match ity {
        None => None,
        Some(i) => {
            if i < row.len() && !row[i].as_str().is_empty() {
                match parse_u8(row[i].as_str()) {
                    None => {
                        return RowResult::Malformed;
                    },
                    Some(v) => Some(v),
                }
            } else {
                None
            }
        },
    };
    let resolved: u8 = match lt {
        None => 0,
        Some(v) => v,
    };
    if resolved == 0 {
        RowResult::Kept(
            StopPoint {
                stop_id: row[ii].clone(),
                stop_lat: row[ila].clone(),
                stop_lon: row[ilo].clone(),
                location_type: lt,
            },
        )
    } else {
        RowResult::Excluded
    }
}

/// A fatal condition of the stop table; bad rows are never fatal.
#[derive(Clone, Copy, PartialEq, Eq, Structural, Debug)]
pub enum StopsError {
    /// The table's header record could not be read at all.
    UnreadableHeader,
    /// The header lacks one of `stop_id`, `stop_lat`, `stop_lon`.
    MissingColumns,
}

impl StopsError {
    /// A one-line description for the error stream.
    pub fn message(&self) -> (m: String)
        ensures
            *self == StopsError::UnreadableHeader ==> m@ == "cannot read the header of the stops file"@,
            *self == StopsError::MissingColumns ==> m@
                == "the stops file is missing one of stop_id, stop_lat, stop_lon"@,
    {
        match self {
            StopsError::UnreadableHeader => String::from_str(
                "cannot read the header of the stops file",
            ),
            StopsError::MissingColumns => String::from_str(
                "the stops file is missing one of stop_id, stop_lat, stop_lon",
            ),
        }
    }
}

/// The stops kept from a table, with the indices of the skipped rows.
pub struct ParsedStops {
    pub stops: Vec<StopPoint>,
    /// Indices (counted over the data rows, from zero) of rows that failed
    /// to decode; each deserves a diagnostic, none aborts the run.
    pub skipped: Vec<usize>,
}

/// The mathematical content of a `ParsedStops`.
pub struct ParsedV {
    pub stops: Seq<StopV>,
    pub skipped: Seq<usize>,
}

impl DeepView for ParsedStops {
    type V = ParsedV;

    open spec fn deep_view(&self) -> ParsedV {
        ParsedV { stops: self.stops.deep_view(), skipped: self.skipped@ }
    }
}

/// The required column indices of a header, and the optional one.
pub open spec fn spec_header_columns(header: Seq<Seq<char>>) -> Option<(int, int, int, Option<int>)> {
    if spec_find_column(header, "stop_id"@) is Some && spec_find_column(header, "stop_lat"@) is Some
        && spec_find_column(header, "stop_lon"@) is Some {
        Some(
            (
                spec_find_column(header, "stop_id"@)->Some_0,
                spec_find_column(header, "stop_lat"@)->Some_0,
                spec_find_column(header, "stop_lon"@)->Some_0,
                spec_find_column(header, "location_type"@),
            ),
        )
    } else {
        None
    }
}

/// Decodes the data rows in order; a row the reader rejected (`None`) or one
/// that fails to decode is recorded as skipped, the others are kept or
/// excluded by `spec_decode_row`.
pub open spec fn spec_decode_rows(
    rows: Seq<Option<Seq<Seq<char>>>>,
    ii: int,
    ila: int,
    ilo: int,
    ity: Option<int>,
) -> ParsedV
    decreases rows.len(),
{
    if rows.len() == 0 {
        ParsedV { stops: Seq::empty(), skipped: Seq::empty() }
    } else {
        let prev = spec_decode_rows(rows.drop_last(), ii, ila, ilo, ity);
        let k = (rows.len() - 1) as usize;
        match rows.last() {
            None => ParsedV { stops: prev.stops, skipped: prev.skipped.push(k) },
            Some(row) => match spec_decode_row(row, ii, ila, ilo, ity) {
                RowV::Malformed => ParsedV { stops: prev.stops, skipped: prev.skipped.push(k) },
                RowV::Excluded => prev,
                RowV::Kept(sv) => ParsedV { stops: prev.stops.push(sv), skipped: prev.skipped },
            },
        }
    }
}

/// Decodes a whole table: fails exactly when a required column is missing,
/// and otherwise keeps the boarding points in row order.
pub open spec fn spec_decode_table(
    header: Seq<Seq<char>>,
    rows: Seq<Option<Seq<Seq<char>>>>,
) -> Result<ParsedV, StopsError> {
    match spec_header_columns(header) {
        None => Err(StopsError::MissingColumns),
        Some(cols) => Ok(spec_decode_rows(rows, cols.0, cols.1, cols.2, cols.3)),
    }
}

/// Decodes the data rows of a stop table whose header and rows are given.
pub fn decode_stops(header: &Vec<String>, rows: &Vec<Option<Vec<String>>>) -> (r: Result<
    ParsedStops,
    StopsError,
>)
    ensures
        match r {
            Err(e) => spec_decode_table(header.deep_view(), rows.deep_view()) == Err::<
                ParsedV,
                StopsError,
            >(e),
            Ok(p) => spec_decode_table(header.deep_view(), rows.deep_view()) == Ok::<
                ParsedV,
                StopsError,
            >(p.deep_view()),
        },
{
    let id_name = String::from_str("stop_id");
    let lat_name = String::from_str("stop_lat");
    let lon_name = String::from_str("stop_lon");
    let lt_name = String::from_str("location_type");
    let ii = match find_column(header, &id_name) {
        Some(i) => i,
        None => {
            return Err(StopsError::MissingColumns);
        },
    };
    let ila = match find_column(header, &lat_name) {
        Some(i) => i,
        None => {
            return Err(StopsError::MissingColumns);
        },
    };
    let ilo = match find_column(header, &lon_name) {
        Some(i) => i,
        None => {
            return Err(StopsError::MissingColumns);
        },
    };
    let ity = find_column(header, &lt_name);
    let ghost rv = rows.deep_view();
    let mut stops: Vec<StopPoint> = Vec::new();
    let mut skipped: Vec<usize> = Vec::new();
    let mut k: usize = 0;
    proof {
        assert(spec_decode_rows(rv.take(0), ii as int, ila as int, ilo as int, opt_idx(ity)).stops
            =~= stops.deep_view());
        assert(spec_decode_rows(rv.take(0), ii as int, ila as int, ilo as int, opt_idx(ity)).skipped
            =~= skipped@);
    }
    while k < rows.len()
        invariant
            k <= rows.len(),
            rv == rows.deep_view(),
            rv.len() == rows@.len(),
            rows@.len() == rows.len(),
            spec_decode_rows(rv.take(k as int), ii as int, ila as int, ilo as int, opt_idx(ity)).stops
                == stops.deep_view(),
            spec_decode_rows(rv.take(k as int), ii as int, ila as int, ilo as int, opt_idx(ity)).skipped
                == skipped@,
        decreases rows.len() - k,
    {
        let ghost prefix = rv.take(k as int);
        let ghost prefix1 = rv.take(k as int + 1);
        proof {
            assert(prefix1.drop_last() =~= prefix);
            assert(prefix1.last() == rv[k as int]);
            assert(rv[k as int] == rows@[k as int].deep_view());
        }
        match &rows[k] {
            None => {
                skipped.push(k);
            },
            Some(row) => {
                match decode_row(row, ii, ila, ilo, ity) {
                    RowResult::Malformed => {
                        skipped.push(k);
                    },
                    RowResult::Excluded => {},
                    RowResult::Kept(sp) => {
                        let ghost spv = sp.deep_view();
                        stops.push(sp);
                        proof {
                            assert(stops.deep_view() =~= spec_decode_rows(
                                prefix,
                                ii as int,
                                ila as int,
                                ilo as int,
                                opt_idx(ity),
                            ).stops.push(spv));
                        }
                    },
                }
            },
        }
        k += 1;
    }
    proof {
        assert(rv.take(rows@.len() as int) =~= rv);
    }
    Ok(ParsedStops { stops, skipped })
}

/// Every stop the decoder keeps resolves to location type zero: a row with
/// any other location type never enters the stop set.
pub proof fn lemma_kept_stops_are_boarding(
    rows: Seq<Option<Seq<Seq<char>>>>,
    ii: int,
    ila: int,
    ilo: int,
    ity: Option<int>,
)
    ensures
        forall|x: int|
            0 <= x < spec_decode_rows(rows, ii, ila, ilo, ity).stops.len() ==> spec_resolved(
                (#[trigger] spec_decode_rows(rows, ii, ila, ilo, ity).stops[x]).location_type,
            ) == 0,
    decreases rows.len(),
{
    if rows.len() > 0 {
        lemma_kept_stops_are_boarding(rows.drop_last(), ii, ila, ilo, ity);
        let cur = spec_decode_rows(rows, ii, ila, ilo, ity);
        let prev = spec_decode_rows(rows.drop_last(), ii, ila, ilo, ity);
        assert forall|x: int| 0 <= x < cur.stops.len() implies spec_resolved(
            (#[trigger] cur.stops[x]).location_type,
        ) == 0 by {
            if x < prev.stops.len() {
                assert(cur.stops[x] == prev.stops[x]);
            }
        }
    }
}

/// The row at index `k` is skipped: the reader rejected it, or it failed to
/// decode.
pub open spec fn spec_row_is_skipped(
    rows: Seq<Option<Seq<Seq<char>>>>,
    k: int,
    ii: int,
    ila: int,
    ilo: int,
    ity: Option<int>,
) -> bool {
    match rows[k] {
        None => true,
        Some(row) => spec_decode_row(row, ii, ila, ilo, ity) is Malformed,
    }
}

/// A malformed row never aborts the decode: with the required columns
/// present the whole table decodes, whatever its rows hold, and a row is
/// recorded as skipped (for one diagnostic each) exactly when the reader
/// rejected it or it failed to decode.
pub proof fn lemma_bad_rows_never_fatal(header: Seq<Seq<char>>, rows: Seq<Option<Seq<Seq<char>>>>)
    requires
        spec_header_columns(header) is Some,
        rows.len() <= usize::MAX,
    ensures
        spec_decode_table(header, rows) is Ok,
        ({
            let cols = spec_header_columns(header)->Some_0;
            let parsed = spec_decode_table(header, rows)->Ok_0;
            forall|k: int|
                0 <= k < rows.len() ==> (parsed.skipped.contains(k as usize)
                    <==> spec_row_is_skipped(rows, k, cols.0, cols.1, cols.2, cols.3))
        }),
{
    let cols = spec_header_columns(header)->Some_0;
    lemma_skipped_rows(rows, cols.0, cols.1, cols.2, cols.3);
}

proof fn lemma_skipped_rows(
    rows: Seq<Option<Seq<Seq<char>>>>,
    ii: int,
    ila: int,
    ilo: int,
    ity: Option<int>,
)
    requires
        rows.len() <= usize::MAX,
    ensures
        forall|k: int|
            0 <= k < rows.len() ==> (spec_decode_rows(rows, ii, ila, ilo, ity).skipped.contains(
                k as usize,
            ) <==> spec_row_is_skipped(rows, k, ii, ila, ilo, ity)),
        forall|x: int|
            0 <= x < spec_decode_rows(rows, ii, ila, ilo, ity).skipped.len() ==> 0 <= (
            #[trigger] spec_decode_rows(rows, ii, ila, ilo, ity).skipped[x]) < rows.len(),
    decreases rows.len(),
{
    if rows.len() > 0 {
        let prev_rows = rows.drop_last();
        lemma_skipped_rows(prev_rows, ii, ila, ilo, ity);
        let cur = spec_decode_rows(rows, ii, ila, ilo, ity);
        let prev = spec_decode_rows(prev_rows, ii, ila, ilo, ity);
        let last = rows.len() - 1;
        assert(forall|k: int| 0 <= k < last ==> rows[k] == prev_rows[k]);
        assert(forall|k: int|
            0 <= k < last ==> (spec_row_is_skipped(rows, k, ii, ila, ilo, ity)
                == spec_row_is_skipped(prev_rows, k, ii, ila, ilo, ity)));
        if spec_row_is_skipped(rows, last, ii, ila, ilo, ity) {
            assert(cur.skipped == prev.skipped.push(last as usize));
            assert(cur.skipped.contains(last as usize)) by {
                assert(cur.skipped[cur.skipped.len() - 1] == last as usize);
            }
            assert forall|k: int| 0 <= k < last implies (cur.skipped.contains(k as usize)
                <==> spec_row_is_skipped(rows, k, ii, ila, ilo, ity)) by {
                assert(forall|x: int|
                    0 <= x < prev.skipped.len() ==> cur.skipped[x] == prev.skipped[x]);
                if spec_row_is_skipped(rows, k, ii, ila, ilo, ity) {
                    let x = choose|x: int|
                        0 <= x < prev.skipped.len() && prev.skipped[x] == k as usize;
                    assert(cur.skipped[x] == k as usize);
                }
                if cur.skipped.contains(k as usize) {
                    let x = choose|x: int|
                        0 <= x < cur.skipped.len() && cur.skipped[x] == k as usize;
                    assert(x < prev.skipped.len());
                    assert(prev.skipped[x] == k as usize);
                }
            }
        } else {
            assert(cur.skipped == prev.skipped);
            assert(!cur.skipped.contains(last as usize)) by {
                if cur.skipped.contains(last as usize) {
                    let x = choose|x: int|
                        0 <= x < cur.skipped.len() && cur.skipped[x] == last as usize;
                    assert(prev.skipped[x] == last as usize);
                    assert((prev.skipped[x]) < prev_rows.len());
                }
            }
        }
    }
}

/// What the comma-separated reader makes of a byte input: `None` when it
/// cannot read a header record at all; otherwise the header's fields and,
/// per data record, its fields, or `None` for a record it rejects.
pub uninterp spec fn csv_table_of(bytes: Seq<u8>) -> Option<
    (Seq<Seq<char>>, Seq<Option<Seq<Seq<char>>>>),
>;

/// Relies on csv::Reader::from_reader, Reader::headers and Reader::records
/// (crate csv, default configuration): the input's first record is the
/// header; each further record becomes its fields, or `None` where the
/// reader rejects the record (wrong field count, bad encoding); a header the
/// reader rejects makes the whole result `None`.
#[verifier::external_body]
fn split_csv(bytes: &[u8]) -> (r: Option<(Vec<String>, Vec<Option<Vec<String>>>)>)
    ensures
        r.deep_view() == csv_table_of(bytes@),
{
    let mut rdr = csv::Reader::from_reader(bytes);
    let header: Vec<String> = match rdr.headers() {
        Ok(h) => h.iter().map(|f| f.to_string()).collect(),
        Err(_) => return None,
    };
    let rows: Vec<Option<Vec<String>>> = rdr
        .records()
        .map(|rec| rec.ok().map(|row| row.iter().map(|f| f.to_string()).collect()))
        .collect();
    Some((header, rows))
}

/// Reads a whole stop table from its bytes: splits it with the
/// comma-separated reader, then decodes the rows.
pub fn parse_stops(bytes: &[u8]) -> (r: Result<ParsedStops, StopsError>)
    ensures
        csv_table_of(bytes@) is None ==> r == Err::<ParsedStops, StopsError>(
            StopsError::UnreadableHeader,
        ),
        csv_table_of(bytes@) matches Some(table) ==> match r {
            Err(e) => spec_decode_table(table.0, table.1) == Err::<ParsedV, StopsError>(e),
            Ok(p) => spec_decode_table(table.0, table.1) == Ok::<ParsedV, StopsError>(
                p.deep_view(),
            ),
        },
{
    match split_csv(bytes) {
        None => Err(StopsError::UnreadableHeader),
        Some(table) => decode_stops(&table.0, &table.1),
    }
}

} // verus!
