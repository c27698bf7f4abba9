use gtfs_transfers::stops::StopPoint;
use gtfs_transfers::transfers::generate_transfers;

fn stop(id: &str) -> StopPoint {
    StopPoint {
        stop_id: id.to_string(),
        stop_lat: "0.0".to_string(),
        stop_lon: "0.0".to_string(),
        location_type: None,
    }
}

#[test]
fn generates_passing_pairs_in_order() {
    let stops = vec![stop("A"), stop("B")];
    // Pair order: (A,A), (A,B), (B,A), (B,B).
    let times = vec![Some(0), None, Some(5), Some(2)];
    let out = generate_transfers(&stops, &times, 7);
    let rows: Vec<(String, String, u8, u32)> = out
        .iter()
        .map(|r| {
            (
                r.from_stop_id.clone(),
                r.to_stop_id.clone(),
                r.transfer_type,
                r.min_transfer_time,
            )
        })
        .collect();
    assert_eq!(
        rows,
        vec![
            ("A".to_string(), "A".to_string(), 2, 7),
            ("B".to_string(), "A".to_string(), 2, 12),
            ("B".to_string(), "B".to_string(), 2, 9),
        ]
    );
}

#[test]
fn output_count_equals_passing_pairs() {
    let stops = vec![stop("A"), stop("B"), stop("C")];
    let times = vec![
        Some(0),
        Some(1),
        None,
        Some(1),
        Some(0),
        None,
        None,
        None,
        Some(0),
    ];
    let out = generate_transfers(&stops, &times, 0);
    let passing = times.iter().filter(|t| t.is_some()).count();
    assert_eq!(out.len(), passing);
}

#[test]
fn self_pair_gets_exactly_the_padding() {
    let stops = vec![stop("S")];
    let times = vec![Some(0)];
    let out = generate_transfers(&stops, &times, 42);
    assert_eq!(out.len(), 1);
    assert_eq!(out[0].from_stop_id, "S");
    assert_eq!(out[0].to_stop_id, "S");
    assert_eq!(out[0].transfer_type, 2);
    assert_eq!(out[0].min_transfer_time, 42);
}

#[test]
fn no_stops_no_transfers() {
    let stops: Vec<StopPoint> = Vec::new();
    let times: Vec<Option<u32>> = Vec::new();
    let out = generate_transfers(&stops, &times, 0);
    assert!(out.is_empty());
}
