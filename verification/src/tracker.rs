//! The per-file nearest-approach state machine.
//!
//! Points stream through in document order. Each one is projected and its
//! segment-aware distance to the reference computed. A run of consecutive
//! points within the threshold is a zone; while a zone is open only its
//! minimum-distance member (the earliest, on ties) is kept, and the first
//! point beyond the threshold closes the zone and emits that member as a
//! candidate. Points beyond the threshold also maintain the file's nearest
//! miss, which is emitted at end of stream when no zone is open then —
//! the fallback when the file never came close.

use crate::geom::{
    approach_dist_mm, approach_distance, point_dist_mm, point_distance, project, scaled_axis_mm,
    AnalysisConfig, PlanarPoint, ANGLE_ABS_MAX_E7,
};
use crate::track::{points_view, TrackPoint, TrackPointModel};
use crate::scan::copy_range;
use vstd::prelude::*;

verus! {

/// One reported approach: its distance, the file it came from and the
/// timestamp of the point that achieved it, if that point carried one.
#[derive(Debug, Clone, PartialEq, Eq)]
pub struct CandidateResult {
    pub distance_mm: u128,
    pub path: String,
    pub time: Option<Vec<u8>>,
}

#[verifier::ext_equal]
pub struct CandidateModel {
    pub distance_mm: int,
    pub path: Seq<char>,
    pub time: Option<Seq<u8>>,
}

impl View for CandidateResult {
    type V = CandidateModel;

    open spec fn view(&self) -> CandidateModel {
        CandidateModel {
            distance_mm: self.distance_mm as int,
            path: self.path@,
            time: match self.time {
                Some(ref t) => Some(t@),
                None => None,
            },
        }
    }
}

pub open spec fn results_view(v: Seq<CandidateResult>) -> Seq<CandidateModel> {
    v.map_values(|c: CandidateResult| c@)
}

pub open spec fn cand_opt_view(v: Option<CandidateResult>) -> Option<CandidateModel> {
    match v {
        Some(c) => Some(c@),
        None => None,
    }
}

pub open spec fn prev_view(v: Option<PlanarPoint>) -> Option<(int, int)> {
    match v {
        Some(p) => Some((p.x_mm as int, p.y_mm as int)),
        None => None,
    }
}

/// The tracker's state between points of one file.
#[verifier::ext_equal]
pub struct TrackState {
    pub prev: Option<(int, int)>,
    pub zone: Option<CandidateModel>,
    pub miss: Option<CandidateModel>,
    pub results: Seq<CandidateModel>,
}

pub open spec fn track_init() -> TrackState {
    TrackState { prev: None, zone: None, miss: None, results: Seq::empty() }
}

/// Planar projection of a point's coordinates, as the tracker sees it.
pub open spec fn planar_of(cfg: AnalysisConfig, p: TrackPointModel) -> (int, int) {
    (
        scaled_axis_mm(p.lon_e7 - cfg.ref_lon_e7, cfg.lon_scale_mm as int),
        scaled_axis_mm(p.lat_e7 - cfg.ref_lat_e7, cfg.lat_scale_mm as int),
    )
}

/// Distance used for a step: segment-aware once a previous point exists,
/// straight-line for the first point of the file.
pub open spec fn dist_of(prev: Option<(int, int)>, xy: (int, int)) -> int {
    match prev {
        None => point_dist_mm(xy.0, xy.1),
        Some(p) => approach_dist_mm(p.0, p.1, xy.0, xy.1),
    }
}

/// The distance the tracker scores for each point of a file, in document
/// order: the first point is scored against the reference directly, every
/// later one against the segment from its predecessor.
pub open spec fn step_dists(cfg: AnalysisConfig, points: Seq<TrackPointModel>) -> Seq<int> {
    Seq::new(
        points.len(),
        |i: int|
            if i == 0 {
                dist_of(None, planar_of(cfg, points[0]))
            } else {
                dist_of(Some(planar_of(cfg, points[i - 1])), planar_of(cfg, points[i]))
            },
    )
}

/// One point's effect on the tracker state.
pub open spec fn track_step(
    cfg: AnalysisConfig,
    path: Seq<char>,
    st: TrackState,
    p: TrackPointModel,
) -> TrackState {
    let xy = planar_of(cfg, p);
    let d = dist_of(st.prev, xy);
    let cand = CandidateModel { distance_mm: d, path, time: p.time };
    if d <= cfg.threshold_mm {
        TrackState {
            prev: Some(xy),
            zone: match st.zone {
                None => Some(cand),
                Some(z) => if d < z.distance_mm {
                    Some(cand)
                } else {
                    Some(z)
                },
            },
            miss: st.miss,
            results: st.results,
        }
    } else {
        TrackState {
            prev: Some(xy),
            zone: None,
            miss: match st.miss {
                None => Some(cand),
                Some(m) => if d < m.distance_mm {
                    Some(cand)
                } else {
                    Some(m)
                },
            },
            results: match st.zone {
                Some(z) => st.results.push(z),
                None => st.results,
            },
        }
    }
}

pub open spec fn track_fold(
    cfg: AnalysisConfig,
    path: Seq<char>,
    points: Seq<TrackPointModel>,
    i: int,
    st: TrackState,
) -> TrackState
    decreases points.len() - i,
{
    if i < 0 || i >= points.len() {
        st
    } else {
        track_fold(cfg, path, points, i + 1, track_step(cfg, path, st, points[i]))
    }
}

/// End of stream: a still-open zone closes as usual; otherwise the nearest
/// miss, if any, becomes the file's fallback result.
pub open spec fn track_finish(st: TrackState) -> Seq<CandidateModel> {
    match st.zone {
        Some(z) => st.results.push(z),
        None => match st.miss {
            Some(m) => st.results.push(m),
            None => st.results,
        },
    }
}

/// Everything one file contributes to the corpus-wide report.
pub open spec fn file_results(
    cfg: AnalysisConfig,
    path: Seq<char>,
    points: Seq<TrackPointModel>,
) -> Seq<CandidateModel> {
    track_finish(track_fold(cfg, path, points, 0, track_init()))
}

fn clone_time(t: &Option<Vec<u8>>) -> (r: Option<Vec<u8>>)
    ensures
        (match r {
            Some(ref v) => Some(v@),
            None => None,
        }) == (match t {
            Some(ref v) => Some(v@),
            None => None,
        }),
{
    match t {
        Some(v) => {
            let c = copy_range(v, 0, v.len());
            proof {
                assert(c@ =~= v@);
            }
            Some(c)
        },
        None => None,
    }
}

/// Runs the tracker over one file's points and returns its candidates.
pub fn analyze_points(cfg: &AnalysisConfig, path: &String, points: &Vec<TrackPoint>) -> (r: Vec<
    CandidateResult,
>)
    requires
        cfg.valid(),
        forall|k: int|
            0 <= k < points@.len() ==> -ANGLE_ABS_MAX_E7 <= #[trigger] points@[k].lat_e7
                <= ANGLE_ABS_MAX_E7 && -ANGLE_ABS_MAX_E7 <= points@[k].lon_e7 <= ANGLE_ABS_MAX_E7,
    ensures
        results_view(r@) == file_results(*cfg, path@, points_view(points@)),
{
    let ghost pv = points_view(points@);
    let n = points.len();
    let mut prev: Option<PlanarPoint> = None;
    let mut zone: Option<CandidateResult> = None;
    let mut miss: Option<CandidateResult> = None;
    let mut results: Vec<CandidateResult> = Vec::new();
    let mut i: usize = 0;
    proof {
        assert(results_view(results@) =~= Seq::<CandidateModel>::empty());
        assert(TrackState {
            prev: prev_view(prev),
            zone: cand_opt_view(zone),
            miss: cand_opt_view(miss),
            results: results_view(results@),
        } =~= track_init());
    }
    while i < n
        invariant
            0 <= i <= n,
            n == points@.len(),
            pv == points_view(points@),
            cfg.valid(),
            forall|k: int|
                0 <= k < points@.len() ==> -ANGLE_ABS_MAX_E7 <= #[trigger] points@[k].lat_e7
                    <= ANGLE_ABS_MAX_E7 && -ANGLE_ABS_MAX_E7 <= points@[k].lon_e7
                    <= ANGLE_ABS_MAX_E7,
            match prev {
                Some(q) => crate::geom::in_planar_range(q),
                None => true,
            },
            track_fold(
                *cfg,
                path@,
                pv,
                i as int,
                TrackState {
                    prev: prev_view(prev),
                    zone: cand_opt_view(zone),
                    miss: cand_opt_view(miss),
                    results: results_view(results@),
                },
            ) == track_fold(*cfg, path@, pv, 0, track_init()),
        decreases n - i,
    {
        let ghost cur = TrackState {
            prev: prev_view(prev),
            zone: cand_opt_view(zone),
            miss: cand_opt_view(miss),
            results: results_view(results@),
        };
        proof {
            assert(pv[i as int] == points@[i as int]@);
            assert(track_fold(*cfg, path@, pv, i as int, cur) == track_fold(
                *cfg,
                path@,
                pv,
                i + 1,
                track_step(*cfg, path@, cur, pv[i as int]),
            ));
        }
        let p = &points[i];
        let xy = project(cfg, p.lat_e7, p.lon_e7);
        let d: u128 = match prev {
            None => point_distance(xy),
            Some(q) => approach_distance(q, xy),
        };
        let cand = CandidateResult { distance_mm: d, path: path.clone(), time: clone_time(
            &p.time,
        ) };
        proof {
            assert(cand@ =~= (CandidateModel {
                distance_mm: d as int,
                path: path@,
                time: pv[i as int].time,
            }));
            assert(d as int == dist_of(prev_view(prev), planar_of(*cfg, pv[i as int])));
        }
        if d <= cfg.threshold_mm {
            zone = match zone {
                None => Some(cand),
                Some(z) => {
                    if d < z.distance_mm {
                        Some(cand)
                    } else {
                        Some(z)
                    }
                },
            };
        } else {
            results = {
                let mut rs = results;
                match zone {
                    Some(z) => {
                        proof {
                            assert(results_view(rs@.push(z)) =~= results_view(rs@).push(z@));
                        }
                        rs.push(z);
                    },
                    None => {},
                }
                rs
            };
            zone = None;
            miss = match miss {
                None => Some(cand),
                Some(m) => {
                    if d < m.distance_mm {
                        Some(cand)
                    } else {
                        Some(m)
                    }
                },
            };
        }
        prev = Some(xy);
        proof {
            assert(TrackState {
                prev: prev_view(prev),
                zone: cand_opt_view(zone),
                miss: cand_opt_view(miss),
                results: results_view(results@),
            } =~= track_step(*cfg, path@, cur, pv[i as int]));
        }
        i = i + 1;
    }
    match zone {
        Some(z) => {
            proof {
                assert(results_view(results@.push(z)) =~= results_view(results@).push(z@));
            }
            results.push(z);
        },
        None => {
            match miss {
                Some(m) => {
                    proof {
                        assert(results_view(results@.push(m)) =~= results_view(results@).push(
                            m@,
                        ));
                    }
                    results.push(m);
                },
                None => {},
            }
        },
    }
    results
}

} // verus!
