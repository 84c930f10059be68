use gpx_analyzer::report::{merge_report, sort_results, AnalysisReport};
use gpx_analyzer::tracker::CandidateResult;

fn cand(distance_mm: u128, path: &str) -> CandidateResult {
    CandidateResult { distance_mm, path: String::from(path), time: None }
}

fn distances(results: &[CandidateResult]) -> Vec<u128> {
    results.iter().map(|r| r.distance_mm).collect()
}

#[test]
fn sort_orders_by_distance_and_keeps_ties_stable() {
    let sorted = sort_results(vec![
        cand(90, "a"),
        cand(20, "b"),
        cand(20, "c"),
        cand(5, "d"),
    ]);
    assert_eq!(distances(&sorted), vec![5, 20, 20, 90]);
    assert_eq!(sorted[1].path, "b");
    assert_eq!(sorted[2].path, "c");
}

#[test]
fn corpus_merge_is_globally_ordered() {
    // files producing {20, 90} and {5, 70} merge to [5, 20, 70, 90]
    let a = vec![cand(20, "a"), cand(90, "a")];
    let b = vec![cand(5, "b"), cand(70, "b")];
    let r1 = merge_report(vec![a.clone(), b.clone()], 100);
    let r2 = merge_report(vec![b, a], 100);
    match (&r1, &r2) {
        (
            AnalysisReport::Matches { within: w1, nearest_outside: n1 },
            AnalysisReport::Matches { within: w2, nearest_outside: n2 },
        ) => {
            assert_eq!(distances(w1), vec![5, 20, 70, 90]);
            // the same global order regardless of file processing order
            assert_eq!(distances(w2), vec![5, 20, 70, 90]);
            assert!(n1.is_none());
            assert!(n2.is_none());
        }
        other => panic!("expected matches in both orders, got {:?}", other),
    }
}

#[test]
fn nearest_outside_is_the_positional_successor() {
    let r = merge_report(
        vec![vec![cand(30, "a"), cand(150, "a")], vec![cand(50, "b"), cand(500, "b")]],
        100,
    );
    match r {
        AnalysisReport::Matches { within, nearest_outside } => {
            assert_eq!(distances(&within), vec![30, 50]);
            let n = nearest_outside.expect("a point beyond the threshold exists");
            assert_eq!(n.distance_mm, 150);
        }
        other => panic!("expected matches, got {:?}", other),
    }
}

#[test]
fn all_within_leaves_no_nearest_outside() {
    let r = merge_report(vec![vec![cand(10, "a")], vec![cand(99, "b")]], 100);
    match r {
        AnalysisReport::Matches { within, nearest_outside } => {
            assert_eq!(distances(&within), vec![10, 99]);
            assert!(nearest_outside.is_none());
        }
        other => panic!("expected matches, got {:?}", other),
    }
}

#[test]
fn nothing_within_reports_the_closest_only() {
    let r = merge_report(vec![vec![cand(300, "a")], vec![cand(120, "b"), cand(800, "b")]], 100);
    match r {
        AnalysisReport::ClosestOnly { closest } => {
            assert_eq!(closest.distance_mm, 120);
            assert_eq!(closest.path, "b");
        }
        other => panic!("expected closest-only, got {:?}", other),
    }
}

#[test]
fn no_candidates_no_report() {
    let r = merge_report(vec![vec![], vec![]], 100);
    assert_eq!(r, AnalysisReport::Empty);
}

#[test]
fn threshold_boundary_splits_inclusively() {
    let r = merge_report(vec![vec![cand(100, "a"), cand(101, "a")]], 100);
    match r {
        AnalysisReport::Matches { within, nearest_outside } => {
            assert_eq!(distances(&within), vec![100]);
            assert_eq!(nearest_outside.map(|c| c.distance_mm), Some(101));
        }
        other => panic!("expected matches, got {:?}", other),
    }
}
