//! Encoding transfer records as a comma-separated table with the standard
//! quoting rules: a field is quoted exactly when it holds a comma, a quote
//! or a line break, and quotes inside a quoted field are doubled.

use vstd::prelude::*;
use vstd::string::*;
use crate::numbers::{spec_u32_string, push_u32};
use crate::stops::StopPoint;
use crate::transfers::{generate_transfers, spec_generate, TransferRecord, TransferV};

verus! {

/// Characters that force a field into quotes.
pub open spec fn is_special(c: char) -> bool {
    c == ',' || c == '"' || c == '\n' || c == '\r'
}

/// The field must be written inside quotes.
pub open spec fn needs_quoting(f: Seq<char>) -> bool {
    exists|i: int| 0 <= i < f.len() && is_special(#[trigger] f[i])
}

/// A character as written inside a quoted field: quotes are doubled.
pub open spec fn spec_escaped_char(c: char) -> Seq<char> {
    if c == '"' {
        seq!['"', '"']
    } else {
        seq![c]
    }
}

pub open spec fn spec_escaped(f: Seq<char>) -> Seq<char>
    decreases f.len(),
{
    if f.len() == 0 {
        Seq::empty()
    } else {
        spec_escaped(f.drop_last()) + spec_escaped_char(f.last())
    }
}

/// A field as written: bare, or quoted and escaped when it needs quoting.
pub open spec fn spec_encoded_field(f: Seq<char>) -> Seq<char> {
    if needs_quoting(f) {
        seq!['"'] + spec_escaped(f) + seq!['"']
    } else {
        f
    }
}

fn is_special_exec(c: char) -> (r: bool)
    ensures
        r == is_special(c),
{
    c == ',' || c == '"' || c == '\n' || c == '\r'
}

fn field_needs_quoting(f: &str) -> (r: bool)
    ensures
        r == needs_quoting(f@),
{
    let n = f.unicode_len();
    let mut j: usize = 0;
    while j < n
        invariant
            j <= n,
            n == f@.len(),
            forall|i: int| 0 <= i < j ==> !is_special(#[trigger] f@[i]),
        decreases n - j,
    {
        if is_special_exec(f.get_char(j)) {
            assert(is_special(f@[j as int]));
            return true;
        }
        j += 1;
    }
    false
}

/// Appends one field, quoted exactly when needed.
pub fn push_field(out: &mut String, f: &String)
    ensures
        final (out)@ == old(out)@ + spec_encoded_field(f@),
{
    let fs = f.as_str();
    if !field_needs_quoting(fs) {
        out.append(fs);
        return ;
    }
    let ghost base = old(out)@;
    out.append("\"");
    proof {
        reveal_strlit("\"");
        assert(out@ =~= base + seq!['"'] + spec_escaped(f@.take(0)));
    }
    let n = fs.unicode_len();
    let mut j: usize = 0;
    while j < n
        invariant
            j <= n,
            n == f@.len(),
            fs@ == f@,
            out@ == base + seq!['"'] + spec_escaped(f@.take(j as int)),
        decreases n - j,
    {
        let c = fs.get_char(j);
        let ghost pre = f@.take(j as int);
        let ghost pre1 = f@.take(j as int + 1);
        proof {
            assert(pre1.drop_last() =~= pre);
            assert(pre1.last() == f@[j as int]);
        }
        if c == '"' {
            out.append("\"\"");
            proof {
                reveal_strlit("\"\"");
                assert(out@ =~= base + seq!['"'] + spec_escaped(pre1));
            }
        } else {
            let piece = fs.substring_char(j, j + 1);
            assert(piece@ =~= seq![f@[j as int]]);
            out.append(piece);
            proof {
                assert(out@ =~= base + seq!['"'] + spec_escaped(pre1));
            }
        }
        j += 1;
    }
    out.append("\"");
    proof {
        reveal_strlit("\"");
        assert(f@.take(n as int) =~= f@);
        assert(out@ =~= base + spec_encoded_field(f@));
    }
}

/// The header record of the transfers table.
pub open spec fn spec_header_line() -> Seq<char> {
    "from_stop_id,to_stop_id,transfer_type,min_transfer_time\n"@
}

/// One record as written: its four fields separated by commas, then a line
/// feed.
pub open spec fn spec_record_line(r: TransferV) -> Seq<char> {
    spec_encoded_field(r.from_stop_id) + seq![','] + spec_encoded_field(r.to_stop_id) + seq![',']
        + spec_u32_string(r.transfer_type as nat) + seq![','] + spec_u32_string(
        r.min_transfer_time as nat,
    ) + seq!['\n']
}

/// Appends one record's line.
pub fn push_record(out: &mut String, r: &TransferRecord)
    ensures
        final (out)@ == old(out)@ + spec_record_line(r.deep_view()),
{
    push_field(out, &r.from_stop_id);
    out.append(",");
    push_field(out, &r.to_stop_id);
    out.append(",");
    push_u32(out, r.transfer_type as u32);
    out.append(",");
    push_u32(out, r.min_transfer_time);
    out.append("\n");
    proof {
        reveal_strlit(",");
        reveal_strlit("\n");
        assert(out@ =~= old(out)@ + spec_record_line(r.deep_view()));
    }
}

/// The lines of the records, in the order received.
pub open spec fn spec_record_lines(rs: Seq<TransferV>) -> Seq<char>
    decreases rs.len(),
{
    if rs.len() == 0 {
        Seq::empty()
    } else {
        spec_record_lines(rs.drop_last()) + spec_record_line(rs.last())
    }
}

/// The whole output: the header line, then one line per record in order;
/// no records gives a header-only table.
pub open spec fn spec_output(rs: Seq<TransferV>) -> Seq<char> {
    spec_header_line() + spec_record_lines(rs)
}

/// Encodes the transfers table.
pub fn encode_transfers(records: &Vec<TransferRecord>) -> (out: String)
    ensures
        out@ == spec_output(records.deep_view()),
{
    let mut out = String::from_str("from_stop_id,to_stop_id,transfer_type,min_transfer_time\n");
    let ghost rv = records.deep_view();
    proof {
        assert(out@ =~= spec_header_line() + spec_record_lines(rv.take(0)));
    }
    let mut k: usize = 0;
    while k < records.len()
        invariant
            k <= records.len(),
            rv == records.deep_view(),
            rv.len() == records@.len(),
            records@.len() == records.len(),
            out@ == spec_header_line() + spec_record_lines(rv.take(k as int)),
        decreases records.len() - k,
    {
        proof {
            assert(rv.take(k as int + 1).drop_last() =~= rv.take(k as int));
            assert(rv.take(k as int + 1).last() == rv[k as int]);
            assert(rv[k as int] == records@[k as int].deep_view());
        }
        push_record(&mut out, &records[k]);
        proof {
            assert(out@ =~= spec_header_line() + spec_record_lines(rv.take(k as int + 1)));
        }
        k += 1;
    }
    proof {
        assert(rv.take(records@.len() as int) =~= rv);
    }
    out
}

/// The whole transfers table of a stop set: its generated records, encoded
/// under the header line. `times` holds one entry per ordered pair of
/// stops, as for `generate_transfers`.
pub fn transfers_table(stops: &Vec<StopPoint>, times: &Vec<Option<u32>>, pad: u32) -> (out: String)
    requires
        times@.len() == stops@.len() * stops@.len(),
        forall|k: int|
            0 <= k < times@.len() ==> (#[trigger] times@[k] matches Some(w) ==> w + pad
                <= u32::MAX),
    ensures
        out@ == spec_output(spec_generate(stops.deep_view(), times@, pad)),
{
    let records = generate_transfers(stops, times, pad);
    encode_transfers(&records)
}

} // verus!
