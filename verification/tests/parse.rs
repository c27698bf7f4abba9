use gtfs_transfers::numbers::{is_float_literal, parse_u8};
use gtfs_transfers::stops::{decode_stops, find_column, parse_stops, StopsError};

#[test]
fn parse_u8_plain() {
    assert_eq!(parse_u8("0"), Some(0));
    assert_eq!(parse_u8("7"), Some(7));
    assert_eq!(parse_u8("255"), Some(255));
    assert_eq!(parse_u8("007"), Some(7));
}

#[test]
fn parse_u8_signs() {
    assert_eq!(parse_u8("+7"), Some(7));
    assert_eq!(parse_u8("-0"), None);
    assert_eq!(parse_u8("-1"), None);
}

#[test]
fn parse_u8_rejects() {
    assert_eq!(parse_u8(""), None);
    assert_eq!(parse_u8("+"), None);
    assert_eq!(parse_u8("256"), None);
    assert_eq!(parse_u8("12a"), None);
    assert_eq!(parse_u8(" 1"), None);
    assert_eq!(parse_u8("1 "), None);
}

#[test]
fn float_literal_accepts() {
    for s in [
        "1", "1.5", ".5", "5.", "-0.5", "+3", "1e5", "1.2E-3", "12e+07", "inf", "INFINITY",
        "nan", "NaN", "-inf", "48.8534",
    ] {
        assert!(is_float_literal(s), "expected accept: {s}");
        assert!(s.parse::<f64>().is_ok(), "reference disagrees on: {s}");
    }
}

#[test]
fn float_literal_rejects() {
    for s in [
        "", "abc", "1.2.3", "1e", "e5", ".", "+", "1e5.2", "in", "infinit", " 1", "1 ", "0x1",
        "1_000", "nan(2)",
    ] {
        assert!(!is_float_literal(s), "expected reject: {s}");
        assert!(s.parse::<f64>().is_err(), "reference disagrees on: {s}");
    }
}

#[test]
fn parse_u8_matches_std() {
    for s in [
        "0", "7", "255", "256", "007", "+7", "-0", "-00", "-1", "", "+", "-", "12a", " 1",
        "1 ", "00000000000000255", "999999999999999999999",
    ] {
        assert_eq!(parse_u8(s), s.parse::<u8>().ok(), "on {s:?}");
    }
}

#[test]
fn float_literal_matches_std() {
    for s in [
        "00000000001e000005", "Inf", "iNfInItY", "nAn", "-.5e-2", "+.e1", "5.e3", "--1", "\u{20ac}",
        "1e+", "infinityy",
    ] {
        assert_eq!(is_float_literal(s), s.parse::<f64>().is_ok(), "on {s:?}");
    }
}

fn owned(row: &[&str]) -> Vec<String> {
    row.iter().map(|s| s.to_string()).collect()
}

#[test]
fn find_column_by_name() {
    let header = owned(&["stop_name", "stop_lat", "stop_id", "stop_lat"]);
    assert_eq!(find_column(&header, &"stop_id".to_string()), Some(2));
    assert_eq!(find_column(&header, &"stop_lat".to_string()), Some(1));
    assert_eq!(find_column(&header, &"stop_lon".to_string()), None);
}

#[test]
fn decode_keeps_boarding_points_only() {
    let header = owned(&["stop_id", "stop_lat", "stop_lon", "location_type"]);
    let rows = vec![
        Some(owned(&["A", "1.0", "2.0", "0"])),
        Some(owned(&["B", "1.0", "2.0", "1"])),
        Some(owned(&["C", "1.0", "2.0", ""])),
    ];
    let parsed = decode_stops(&header, &rows).unwrap();
    let ids: Vec<&str> = parsed.stops.iter().map(|s| s.stop_id.as_str()).collect();
    assert_eq!(ids, vec!["A", "C"]);
    assert!(parsed.skipped.is_empty());
}

#[test]
fn decode_skips_malformed_rows() {
    let header = owned(&["stop_id", "stop_lat", "stop_lon"]);
    let rows = vec![
        Some(owned(&["A", "abc", "2.0"])),
        None,
        Some(owned(&["B", "1.0", "2.0"])),
        Some(owned(&["C", "1.0", "oops"])),
    ];
    let parsed = decode_stops(&header, &rows).unwrap();
    let ids: Vec<&str> = parsed.stops.iter().map(|s| s.stop_id.as_str()).collect();
    assert_eq!(ids, vec!["B"]);
    assert_eq!(parsed.skipped, vec![0, 1, 3]);
}

#[test]
fn decode_bad_location_type_is_malformed() {
    let header = owned(&["stop_id", "stop_lat", "stop_lon", "location_type"]);
    let rows = vec![Some(owned(&["A", "1.0", "2.0", "x"]))];
    let parsed = decode_stops(&header, &rows).unwrap();
    assert!(parsed.stops.is_empty());
    assert_eq!(parsed.skipped, vec![0]);
}

#[test]
fn decode_missing_column_is_fatal() {
    let header = owned(&["stop_id", "stop_lat"]);
    let rows = vec![Some(owned(&["A", "1.0"]))];
    assert!(matches!(decode_stops(&header, &rows), Err(StopsError::MissingColumns)));
}

#[test]
fn parse_stops_reads_csv_bytes() {
    let data = b"stop_id,stop_name,stop_lat,stop_lon\n\"A,1\",first,48.85,2.35\nB,second,45.75,4.85\n";
    let parsed = parse_stops(data).unwrap();
    assert_eq!(parsed.stops.len(), 2);
    assert_eq!(parsed.stops[0].stop_id, "A,1");
    assert_eq!(parsed.stops[0].stop_lat, "48.85");
    assert_eq!(parsed.stops[0].stop_lon, "2.35");
    assert_eq!(parsed.stops[0].location_type, None);
    assert_eq!(parsed.stops[1].stop_id, "B");
    assert!(parsed.skipped.is_empty());
}

#[test]
fn parse_stops_crlf_and_extra_columns() {
    let data = b"stop_lon,stop_id,stop_lat,zone\r\n2.35,A,48.85,z1\r\n";
    let parsed = parse_stops(data).unwrap();
    assert_eq!(parsed.stops.len(), 1);
    assert_eq!(parsed.stops[0].stop_id, "A");
    assert_eq!(parsed.stops[0].stop_lat, "48.85");
    assert_eq!(parsed.stops[0].stop_lon, "2.35");
}

#[test]
fn parse_stops_skips_short_rows() {
    let data = b"stop_id,stop_lat,stop_lon\nA,48.85\nB,45.75,4.85\n";
    let parsed = parse_stops(data).unwrap();
    assert_eq!(parsed.stops.len(), 1);
    assert_eq!(parsed.stops[0].stop_id, "B");
    assert_eq!(parsed.skipped, vec![0]);
}

#[test]
fn parse_stops_missing_header_is_fatal() {
    let data = b"stop_id,stop_lat\nA,48.85\n";
    assert!(matches!(parse_stops(data), Err(StopsError::MissingColumns)));
}

#[test]
fn parse_stops_unreadable_header_is_fatal() {
    // The header record is not valid text, so the reader rejects it.
    let data: &[u8] = &[0xff, 0xfe, b'\n', b'A', b'\n'];
    assert!(matches!(parse_stops(data), Err(StopsError::UnreadableHeader)));
}

#[test]
fn stops_error_messages() {
    assert!(!StopsError::MissingColumns.message().is_empty());
    assert!(!StopsError::UnreadableHeader.message().is_empty());
}
