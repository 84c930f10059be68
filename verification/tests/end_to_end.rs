use gpx_analyzer::geom::AnalysisConfig;
use gpx_analyzer::pipeline::{analyze_corpus, analyze_file};
use gpx_analyzer::report::AnalysisReport;
use gpx_analyzer::tracker::CandidateResult;
use gpx_analyzer::Warning;

// Reference at (0, 0); both scale factors at 10^7 mm per degree, so one e7
// coordinate unit is one millimetre; threshold 100 mm stands in for the
// 100 m of the full-scale scenario.
fn cfg() -> AnalysisConfig {
    AnalysisConfig::new(0, 0, 10_000_000, 10_000_000, 100).expect("valid configuration")
}

fn trkpt(lat_e7: i64, time: Option<&str>) -> String {
    let t = match time {
        Some(t) => format!("<time>{}</time>", t),
        None => String::new(),
    };
    format!("<trkpt lat=\"0.{:07}\" lon=\"0.0\">{}</trkpt>", lat_e7, t)
}

fn track_file(lats_e7: &[i64]) -> Vec<u8> {
    let mut doc = String::from("<?xml version=\"1.0\"?><gpx><trk><trkseg>");
    for &l in lats_e7 {
        doc.push_str(&trkpt(l, None));
    }
    doc.push_str("</trkseg></trk></gpx>");
    doc.into_bytes()
}

fn distances(results: &[CandidateResult]) -> Vec<u128> {
    results.iter().map(|r| r.distance_mm).collect()
}

#[test]
fn file_scenario_two_zones_and_a_miss() {
    // sequential point distances [50, 150, 80, 30, 500]
    let (rs, warns) = analyze_file(
        &String::from("one.gpx"),
        &track_file(&[50, 150, 80, 30, 500]),
        &cfg(),
    );
    assert!(warns.is_empty());
    assert_eq!(distances(&rs), vec![50, 30, 150]);
    assert!(rs.iter().all(|r| r.path == "one.gpx"));
}

#[test]
fn corpus_scenario_with_an_empty_second_file() {
    let files = vec![
        (String::from("one.gpx"), track_file(&[50, 150, 80, 30, 500])),
        (String::from("two.gpx"), track_file(&[])),
    ];
    let (report, warns) = analyze_corpus(&files, &cfg());
    assert!(warns.is_empty());
    match report {
        AnalysisReport::Matches { within, nearest_outside } => {
            assert_eq!(distances(&within), vec![30, 50]);
            let n = nearest_outside.expect("the successor at 150 exists");
            assert_eq!(n.distance_mm, 150);
            assert_eq!(n.path, "one.gpx");
        }
        other => panic!("expected matches, got {:?}", other),
    }
}

#[test]
fn pipeline_is_idempotent() {
    let files = vec![
        (String::from("one.gpx"), track_file(&[50, 150, 80, 30, 500])),
        (String::from("two.gpx"), track_file(&[220, 90])),
    ];
    let first = analyze_corpus(&files, &cfg());
    let second = analyze_corpus(&files, &cfg());
    assert_eq!(first, second);
}

#[test]
fn timestamps_travel_to_the_report() {
    let doc = format!(
        "<gpx>{}{}{}{}</gpx>",
        trkpt(40, Some("2021-05-01T10:00:00Z")),
        trkpt(160, Some("2021-05-01T10:01:00Z")),
        trkpt(30, None),
        trkpt(500, None),
    );
    let (rs, _) = analyze_file(&String::from("t.gpx"), &doc.into_bytes(), &cfg());
    // zone [40] closes at 160 and carries its member's timestamp; the
    // second zone collapses to the untimed 30 and closes at 500; the
    // nearest miss 160 carries its own timestamp
    assert_eq!(distances(&rs), vec![40, 30, 160]);
    assert_eq!(rs[0].time, Some(b"2021-05-01T10:00:00Z".to_vec()));
    assert_eq!(rs[1].time, None);
    assert_eq!(rs[2].time, Some(b"2021-05-01T10:01:00Z".to_vec()));
}

#[test]
fn warnings_carry_through_the_pipeline() {
    let doc = b"<gpx><trkpt lat=\"x\" lon=\"1.0\"></trkpt><broken".to_vec();
    let (rs, warns) = analyze_file(&String::from("w.gpx"), &doc, &cfg());
    assert!(rs.is_empty());
    assert_eq!(
        warns,
        vec![Warning::MalformedToken { offset: 38 }, Warning::InvalidLatitude]
    );
}

#[test]
fn a_damaged_file_still_yields_its_good_points() {
    let mut doc = b"<junk <gpx>".to_vec();
    doc.extend_from_slice(&track_file(&[60]));
    let (rs, warns) = analyze_file(&String::from("d.gpx"), &doc, &cfg());
    assert_eq!(warns.len(), 1);
    assert!(matches!(warns[0], Warning::MalformedToken { .. }));
    assert_eq!(distances(&rs), vec![60]);
}
