use gpx_analyzer::geom::{
    approach_distance, isqrt, point_distance, project, AnalysisConfig, PlanarPoint,
};
use gpx_analyzer::track::TrackPoint;
use gpx_analyzer::tracker::{analyze_points, CandidateResult};

// With both scale factors at 10^7 mm per degree, one e7 coordinate unit is
// exactly one planar millimetre, so test points can name their distances
// directly.
fn cfg(threshold_mm: u128) -> AnalysisConfig {
    AnalysisConfig::new(0, 0, 10_000_000, 10_000_000, threshold_mm).expect("valid configuration")
}

fn point(lat_e7: i64, lon_e7: i64) -> TrackPoint {
    TrackPoint { lat_e7, lon_e7, time: None }
}

fn timed(lat_e7: i64, lon_e7: i64, t: &str) -> TrackPoint {
    TrackPoint { lat_e7, lon_e7, time: Some(t.as_bytes().to_vec()) }
}

fn distances(results: &[CandidateResult]) -> Vec<u128> {
    results.iter().map(|r| r.distance_mm).collect()
}

fn run(threshold_mm: u128, points: Vec<TrackPoint>) -> Vec<CandidateResult> {
    analyze_points(&cfg(threshold_mm), &String::from("file.gpx"), &points)
}

#[test]
fn isqrt_small_values() {
    assert_eq!(isqrt(0), 0);
    assert_eq!(isqrt(1), 1);
    assert_eq!(isqrt(3), 1);
    assert_eq!(isqrt(4), 2);
    assert_eq!(isqrt(99), 9);
    assert_eq!(isqrt(100), 10);
    assert_eq!(isqrt(10_000_000_000_000_000_000_000_000_000_000_000), 100_000_000_000_000_000);
}

#[test]
fn config_rejects_out_of_range_reference() {
    assert!(AnalysisConfig::new(900_000_001, 0, 1, 1, 0).is_none());
    assert!(AnalysisConfig::new(0, 1_800_000_001, 1, 1, 0).is_none());
    assert!(AnalysisConfig::new(0, 0, -1, 1, 0).is_none());
    assert!(AnalysisConfig::new(0, 0, 1, 200_000_001, 0).is_none());
    assert!(AnalysisConfig::new(-900_000_000, 1_800_000_000, 200_000_000, 0, 7).is_some());
}

#[test]
fn projection_is_reference_relative() {
    let c = AnalysisConfig::new(10_000_000, 20_000_000, 10_000_000, 10_000_000, 0).unwrap();
    let p = project(&c, 10_000_050, 20_000_070);
    assert_eq!(p.x_mm, 70);
    assert_eq!(p.y_mm, 50);
    let q = project(&c, 9_999_950, 19_999_930);
    assert_eq!(q.x_mm, -70);
    assert_eq!(q.y_mm, -50);
}

#[test]
fn point_distance_is_euclidean() {
    assert_eq!(point_distance(PlanarPoint { x_mm: 3, y_mm: 4 }), 5);
    assert_eq!(point_distance(PlanarPoint { x_mm: 0, y_mm: -7 }), 7);
    // rounded down
    assert_eq!(point_distance(PlanarPoint { x_mm: 1, y_mm: 1 }), 1);
}

#[test]
fn approach_distance_uses_the_segment_when_the_reference_is_abeam() {
    // segment from (-100, 30) to (100, 30) passes 30 mm from the origin
    let d = approach_distance(
        PlanarPoint { x_mm: -100, y_mm: 30 },
        PlanarPoint { x_mm: 100, y_mm: 30 },
    );
    assert_eq!(d, 30);
}

#[test]
fn approach_distance_falls_back_to_the_endpoint() {
    // the origin projects beyond this segment, so the endpoint distance wins
    let d = approach_distance(
        PlanarPoint { x_mm: 0, y_mm: 200 },
        PlanarPoint { x_mm: 0, y_mm: 50 },
    );
    assert_eq!(d, 50);
    // duplicate points degrade to the plain point distance
    let d2 = approach_distance(
        PlanarPoint { x_mm: 0, y_mm: 40 },
        PlanarPoint { x_mm: 0, y_mm: 40 },
    );
    assert_eq!(d2, 40);
}

#[test]
fn boundary_point_at_threshold_is_within() {
    // dist == threshold: the point joins a zone and is reported
    let rs = run(100, vec![point(100, 0)]);
    assert_eq!(distances(&rs), vec![100]);
    // one millimetre beyond: no zone ever opens; the point is only a miss
    let rs = run(100, vec![point(101, 0)]);
    assert_eq!(distances(&rs), vec![101]);
}

#[test]
fn zone_collapses_to_its_minimum() {
    // distances [50, 80, 30] with threshold 100: one zone, one result: 30
    let rs = run(100, vec![point(50, 0), point(80, 0), point(30, 0)]);
    assert_eq!(distances(&rs), vec![30]);
}

#[test]
fn zone_minimum_keeps_the_earliest_timestamp_holder() {
    let rs = run(
        100,
        vec![timed(50, 0, "early"), timed(30, 0, "low"), timed(80, 0, "late")],
    );
    assert_eq!(distances(&rs), vec![30]);
    assert_eq!(rs[0].time, Some(b"low".to_vec()));
    assert_eq!(rs[0].path, "file.gpx");
}

#[test]
fn fallback_reports_the_running_minimum_miss() {
    // distances [150, 500, 300] with threshold 100: no zone; one result: 150
    let rs = run(100, vec![point(150, 0), point(500, 0), point(300, 0)]);
    assert_eq!(distances(&rs), vec![150]);
}

#[test]
fn no_points_no_results() {
    let rs = run(100, vec![]);
    assert!(rs.is_empty());
}

#[test]
fn two_zones_emit_two_results() {
    let rs = run(
        100,
        vec![point(20, 0), point(150, 0), point(90, 0)],
    );
    // zone [20] closed by 150, zone [90] closed by end of stream;
    // the miss 150 stays unreported because a zone was open at the end
    assert_eq!(distances(&rs), vec![20, 90]);
}

#[test]
fn miss_is_emitted_when_no_zone_is_open_at_the_end() {
    let rs = run(
        100,
        vec![point(50, 0), point(150, 0), point(80, 0), point(30, 0), point(500, 0)],
    );
    assert_eq!(distances(&rs), vec![50, 30, 150]);
}

#[test]
fn segment_awareness_catches_a_crossing_track() {
    // two points far away, but the segment between them passes 25 mm from
    // the reference: the second point scores the perpendicular offset
    let rs = run(100, vec![point(25, -4000), point(25, 4000)]);
    assert_eq!(distances(&rs), vec![25]);
}
