use simulation_curator::gtfs::{
    assign_stop_times, duration_to_string, filter_points_to_window, filter_stops_in_range,
    get_shape_points_from_trips, interpolate_times, parse_duration, Coord, PartialBlock,
    ShapePoint, Stop,
};
use simulation_curator::SimulationError;

fn coord(lat: i64, lon: i64) -> Coord {
    Coord { lat_micro: lat, lon_micro: lon }
}

fn point(seq: u64, time_ms: Option<u64>) -> ShapePoint {
    ShapePoint { shape_id: String::from("s1"), coord: coord(0, 0), shape_pt_sequence: seq, time: time_ms }
}

fn stop(name: &str, arrival: u64, departure: u64) -> Stop {
    Stop {
        trip_id: String::from("t1"),
        stop_id: String::from(name),
        stop_name: String::from(name),
        arrival_time: arrival,
        departure_time: departure,
        coord: coord(0, 0),
    }
}

#[test]
fn parse_duration_parses_clock_strings() {
    assert_eq!(parse_duration("08:00:00").unwrap(), 8 * 3_600_000);
    assert_eq!(parse_duration("00:00:01").unwrap(), 1_000);
    // hours beyond 24 are legal: overnight blocks keep counting
    assert_eq!(parse_duration("25:30:00").unwrap(), 25 * 3_600_000 + 30 * 60_000);
    assert_eq!(parse_duration("0:1:2").unwrap(), 62_000);
}

#[test]
fn parse_duration_rejects_malformed_strings() {
    assert_eq!(parse_duration("").unwrap_err(), SimulationError::MalformedTimeString);
    assert_eq!(parse_duration("12:34").unwrap_err(), SimulationError::MalformedTimeString);
    assert_eq!(parse_duration("1:2:3:4").unwrap_err(), SimulationError::MalformedTimeString);
    assert_eq!(parse_duration("a:b:c").unwrap_err(), SimulationError::MalformedTimeString);
    assert_eq!(parse_duration("1::2").unwrap_err(), SimulationError::MalformedTimeString);
    assert_eq!(
        parse_duration("99999999999999999999:00:00").unwrap_err(),
        SimulationError::MalformedTimeString
    );
}

#[test]
fn duration_to_string_pads_fields() {
    assert_eq!(duration_to_string(8 * 3_600_000 + 10 * 60_000), String::from("08:10:00"));
    assert_eq!(duration_to_string(62_000), String::from("00:01:02"));
    assert_eq!(duration_to_string(125 * 3_600_000 + 59_000), String::from("125:00:59"));
}

#[test]
fn parse_and_print_round_trip() {
    let printed = duration_to_string(parse_duration("09:41:07").unwrap());
    assert_eq!(printed, String::from("09:41:07"));
}

#[test]
fn interpolation_fills_between_timed_points() {
    let points = vec![
        point(0, Some(1_000)),
        point(1, None),
        point(2, None),
        point(3, Some(4_000)),
    ];
    let out = interpolate_times(points, None).unwrap();
    let times: Vec<Option<u64>> = out.iter().map(|p| p.time).collect();
    assert_eq!(times, vec![Some(1_000), Some(2_000), Some(3_000), Some(4_000)]);
}

#[test]
fn interpolation_wraps_circular_blocks() {
    // some point was timed twice: its first observation was 1000, the
    // overwriting one 8000; the backwards window interpolates from the
    // remembered first time
    let points = vec![
        point(0, Some(8_000)),
        point(1, None),
        point(2, Some(5_000)),
        point(3, None),
    ];
    let out = interpolate_times(points, Some((1_000, 8_000))).unwrap();
    let times: Vec<Option<u64>> = out.iter().map(|p| p.time).collect();
    // window (0, 2): 5000 < 8000, so base is the remembered 1000 and the
    // gap is (5000 - 1000) / 2; the tail past the last timed point runs
    // from 1000 by (8000 - 5000) / 2
    assert_eq!(times, vec![Some(8_000), Some(3_000), Some(5_000), Some(2_500)]);
}

#[test]
fn interpolation_rejects_non_positive_windows() {
    let points = vec![point(0, Some(5_000)), point(1, None), point(2, Some(5_000))];
    assert_eq!(
        interpolate_times(points, None).unwrap_err(),
        SimulationError::InconsistentSchedule
    );
    let points2 = vec![point(0, Some(5_000)), point(1, None), point(2, Some(3_000))];
    assert_eq!(
        interpolate_times(points2, None).unwrap_err(),
        SimulationError::InconsistentSchedule
    );
}

#[test]
fn window_filter_drops_untimed_and_outside_points() {
    let points = vec![
        point(0, Some(500)),
        point(1, None),
        point(2, Some(1_500)),
        point(3, Some(2_500)),
    ];
    let kept = filter_points_to_window(points, 1_000, 2_000);
    assert_eq!(kept.len(), 1);
    assert_eq!(kept[0].shape_pt_sequence, 2);
}

#[test]
fn assign_stop_times_marks_nearest_points() {
    // stop 0 is nearest to point 1, stop 1 nearest to point 0; each point
    // gets the midpoint of its stop's arrival and departure
    let points = vec![point(0, None), point(1, None)];
    let stops = vec![stop("a", 1_000, 3_000), stop("b", 5_000, 5_000)];
    let dists = vec![vec![70, 10], vec![20, 90]];
    let (out, circ) = assign_stop_times(points, &stops, &dists);
    assert!(circ.is_none());
    assert_eq!(out[0].time, Some(5_000));
    assert_eq!(out[1].time, Some(2_000));
}

#[test]
fn assign_stop_times_remembers_circular_overwrites() {
    // both stops match the same point: the remembered pair carries its
    // first and second observed times
    let points = vec![point(0, None), point(1, None)];
    let stops = vec![stop("a", 1_000, 1_000), stop("b", 9_000, 9_000)];
    let dists = vec![vec![10, 70], vec![10, 70]];
    let (out, circ) = assign_stop_times(points, &stops, &dists);
    assert_eq!(out[0].time, Some(9_000));
    assert_eq!(circ, Some((1_000, 9_000)));
}

#[test]
fn stop_filter_keeps_edge_neighbours() {
    let stops = vec![
        stop("before", 0, 500),
        stop("edge", 2_500, 2_600),
        stop("after", 3_000, 3_500),
    ];
    // window [1000, 2000]: "edge" overlaps nothing but its predecessor
    // departs before the window's end while it arrives after it
    let kept = filter_stops_in_range(&stops, 1_000, 2_000);
    let names: Vec<String> = kept.iter().map(|s| s.stop_id.clone()).collect();
    assert_eq!(names, vec![String::from("edge")]);
}

#[test]
fn shape_points_gather_in_block_order() {
    let b1 = PartialBlock {
        block_id: String::from("b1"),
        route_id: String::from("r1"),
        stops: Vec::new(),
        shape_points: vec![point(0, None), point(1, None)],
    };
    let b2 = PartialBlock {
        block_id: String::from("b2"),
        route_id: String::from("r1"),
        stops: Vec::new(),
        shape_points: vec![point(7, None)],
    };
    let all = get_shape_points_from_trips(&[b1, b2]);
    let seqs: Vec<u64> = all.iter().map(|p| p.shape_pt_sequence).collect();
    assert_eq!(seqs, vec![0, 1, 7]);
}
