use gtfs_transfers::numbers::push_u32;
use gtfs_transfers::output::{encode_transfers, push_field};
use gtfs_transfers::transfers::TransferRecord;

const HEADER: &str = "from_stop_id,to_stop_id,transfer_type,min_transfer_time\n";

fn record(from: &str, to: &str, time: u32) -> TransferRecord {
    TransferRecord {
        from_stop_id: from.to_string(),
        to_stop_id: to.to_string(),
        transfer_type: 2,
        min_transfer_time: time,
    }
}

#[test]
fn renders_u32_decimals() {
    for (n, expect) in [
        (0u32, "0"),
        (7, "7"),
        (10, "10"),
        (1234567890, "1234567890"),
        (u32::MAX, "4294967295"),
    ] {
        let mut s = String::new();
        push_u32(&mut s, n);
        assert_eq!(s, expect);
    }
}

#[test]
fn plain_fields_stay_bare() {
    let mut s = String::new();
    push_field(&mut s, &"stop 1".to_string());
    assert_eq!(s, "stop 1");
}

#[test]
fn fields_with_separators_get_quoted() {
    for (field, expect) in [
        ("a,b", "\"a,b\""),
        ("a\"b", "\"a\"\"b\""),
        ("a\nb", "\"a\nb\""),
        ("a\rb", "\"a\rb\""),
        ("\"", "\"\"\"\""),
    ] {
        let mut s = String::new();
        push_field(&mut s, &field.to_string());
        assert_eq!(s, expect, "field: {field:?}");
    }
}

#[test]
fn empty_table_is_header_only() {
    let out = encode_transfers(&Vec::new());
    assert_eq!(out, HEADER);
}

#[test]
fn records_become_lines_in_order() {
    let out = encode_transfers(&vec![record("A", "B", 10), record("B", "A", 0)]);
    assert_eq!(out, format!("{HEADER}A,B,2,10\nB,A,2,0\n"));
}

#[test]
fn matches_reference_writer() {
    let records = vec![
        record("a,b", "c\"d", 3),
        record("plain", "x\ny", 0),
        record("", "line\rbreak", 7),
        record("unicode é", "semi;colon", 1),
    ];
    let mut wtr = csv::Writer::from_writer(Vec::new());
    wtr.write_record(&["from_stop_id", "to_stop_id", "transfer_type", "min_transfer_time"])
        .unwrap();
    for r in &records {
        wtr.write_record(&[
            r.from_stop_id.as_str(),
            r.to_stop_id.as_str(),
            "2",
            &r.min_transfer_time.to_string(),
        ])
        .unwrap();
    }
    let expect = String::from_utf8(wtr.into_inner().unwrap()).unwrap();
    assert_eq!(encode_transfers(&records), expect);
}

#[test]
fn quoting_applies_inside_records() {
    let out = encode_transfers(&vec![record("a,b", "c\"d", 3)]);
    assert_eq!(out, format!("{HEADER}\"a,b\",\"c\"\"d\",2,3\n"));
}
