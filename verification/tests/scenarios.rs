//! Whole-pipeline scenarios: stop bytes in, transfer table text out. The
//! geodesic evaluation of each stop pair is computed here with the same
//! haversine formula the program uses, and handed to the library.

use gtfs_transfers::output::transfers_table;
use gtfs_transfers::stops::{parse_stops, ParsedStops, StopPoint};

const HEADER: &str = "from_stop_id,to_stop_id,transfer_type,min_transfer_time\n";
const EARTH_RADIUS: f64 = 6372797.560856;

fn haversine(lat1: f64, lon1: f64, lat2: f64, lon2: f64) -> f64 {
    let phi1 = lat1.to_radians();
    let phi2 = lat2.to_radians();
    let lambda1 = lon1.to_radians();
    let lambda2 = lon2.to_radians();
    let x = f64::sin((phi2 - phi1) / 2.).powi(2);
    let y = f64::cos(phi1) * f64::cos(phi2) * f64::sin((lambda2 - lambda1) / 2.).powi(2);
    2. * EARTH_RADIUS * f64::asin(f64::sqrt(x + y))
}

fn walk_times(stops: &[StopPoint], max_distance: f64, walking_speed: f64) -> Vec<Option<u32>> {
    let coords: Vec<(f64, f64)> = stops
        .iter()
        .map(|s| (s.stop_lat.parse().unwrap(), s.stop_lon.parse().unwrap()))
        .collect();
    let mut times = Vec::with_capacity(stops.len() * stops.len());
    for &(lat1, lon1) in &coords {
        for &(lat2, lon2) in &coords {
            let d = haversine(lat1, lon1, lat2, lon2);
            times.push(if d <= max_distance {
                Some((d / walking_speed) as u32)
            } else {
                None
            });
        }
    }
    times
}

fn run(input: &[u8], max_distance: f64, walking_speed: f64, transfer_time: u32) -> String {
    let parsed: ParsedStops = parse_stops(input).unwrap();
    let times = walk_times(&parsed.stops, max_distance, walking_speed);
    transfers_table(&parsed.stops, &times, transfer_time)
}

#[test]
fn two_stops_at_the_same_point() {
    let input = b"stop_id,stop_lat,stop_lon\nA,48.85,2.35\nB,48.85,2.35\n";
    let out = run(input, 500.0, 1.0, 10);
    assert_eq!(
        out,
        format!("{HEADER}A,A,2,10\nA,B,2,10\nB,A,2,10\nB,B,2,10\n")
    );
}

#[test]
fn stops_a_kilometer_apart_keep_only_self_pairs() {
    // Roughly one kilometer along a meridian.
    let input = b"stop_id,stop_lat,stop_lon\nA,0.0,0.0\nB,0.009,0.0\n";
    let parsed = parse_stops(input).unwrap();
    let d = haversine(0.0, 0.0, 0.009, 0.0);
    assert!(d > 500.0 && d < 1100.0);
    assert_eq!(haversine(0.009, 0.0, 0.0, 0.0), d);
    assert_eq!(haversine(0.0, 0.0, 0.0, 0.0), 0.0);
    assert_eq!(parsed.stops.len(), 2);
    let out = run(input, 500.0, 0.785, 0);
    assert_eq!(out, format!("{HEADER}A,A,2,0\nB,B,2,0\n"));
}

#[test]
fn all_rows_filtered_gives_header_only() {
    let input = b"stop_id,stop_lat,stop_lon,location_type\nS1,48.85,2.35,2\nS2,48.85,2.35,3\n";
    let out = run(input, 500.0, 1.0, 0);
    assert_eq!(out, HEADER);
}

#[test]
fn zero_data_rows_gives_header_only() {
    let input = b"stop_id,stop_lat,stop_lon\n";
    let out = run(input, 500.0, 1.0, 0);
    assert_eq!(out, HEADER);
}

#[test]
fn malformed_row_skipped_without_aborting() {
    let input = b"stop_id,stop_lat,stop_lon\nA,abc,2.35\nB,48.85,2.35\n";
    let parsed = parse_stops(input).unwrap();
    assert_eq!(parsed.skipped, vec![0]);
    let out = run(input, 500.0, 1.0, 5);
    assert_eq!(out, format!("{HEADER}B,B,2,5\n"));
}

#[test]
fn excluded_stops_appear_at_no_endpoint() {
    let input =
        b"stop_id,stop_lat,stop_lon,location_type\nA,48.85,2.35,0\nGARE,48.85,2.35,1\nB,48.85,2.35,\n";
    let out = run(input, 500.0, 1.0, 0);
    assert!(!out.contains("GARE"));
    assert_eq!(out, format!("{HEADER}A,A,2,0\nA,B,2,0\nB,A,2,0\nB,B,2,0\n"));
}
