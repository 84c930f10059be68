//! Corpus-level laws of the pipeline, stated and proved once for all
//! inputs.

use crate::geom::AnalysisConfig;
use crate::report::{dist_sorted, lemma_sort_by_dist, merged_report, sort_by_dist, split_idx, ReportModel};
use crate::pipeline::corpus_report;
use crate::track::TrackPointModel;
use crate::tracker::{dist_of, file_results, planar_of, step_dists, track_fold, track_init, track_step, CandidateModel, TrackState};
use vstd::prelude::*;
use vstd::relations::{sorted_by, total_ordering};
use vstd::seq_lib::{lemma_multiset_commutative, lemma_sorted_unique};

verus! {

/// The distances of a candidate sequence, in order.
pub open spec fn dists(s: Seq<CandidateModel>) -> Seq<int> {
    s.map_values(|c: CandidateModel| c.distance_mm)
}

/// Sequences with the same candidates (as a multiset) have the same
/// distance multiset.
proof fn lemma_dists_multiset(s1: Seq<CandidateModel>, s2: Seq<CandidateModel>)
    requires
        s1.to_multiset() == s2.to_multiset(),
    ensures
        dists(s1).to_multiset() == dists(s2).to_multiset(),
    decreases s1.len(),
{
    broadcast use vstd::seq_lib::group_to_multiset_ensures;
    broadcast use vstd::multiset::group_multiset_axioms;

    if s1.len() == 0 {
        assert(s1.to_multiset().len() == s1.len());
        assert(s2.to_multiset().len() == s2.len());
        assert(dists(s1) =~= dists(s2));
    } else {
        let x = s1.last();
        let xd = x.distance_mm;
        assert(s1.contains(x));
        assert(s2.to_multiset().count(x) > 0);
        assert(s2.contains(x));
        let i = choose|i: int| 0 <= i < s2.len() && s2[i] == x;
        let r1 = s1.remove(s1.len() - 1);
        let r2 = s2.remove(i);
        assert(r1.to_multiset() == s1.to_multiset().remove(x));
        assert(r2.to_multiset() == s2.to_multiset().remove(x));
        lemma_dists_multiset(r1, r2);
        assert(dists(r1) =~= dists(s1).remove(s1.len() - 1));
        assert(dists(r2) =~= dists(s2).remove(i));
        assert(dists(s1).remove(s1.len() - 1).to_multiset() == dists(s1).to_multiset().remove(
            dists(s1)[s1.len() - 1],
        ));
        assert(dists(s2).remove(i).to_multiset() == dists(s2).to_multiset().remove(dists(s2)[i]));
        assert(dists(s1)[s1.len() - 1] == xd);
        assert(dists(s2)[i] == xd);
        assert(dists(s1).contains(xd)) by {
            assert(dists(s1)[s1.len() - 1] == xd);
        }
        assert(dists(s2).contains(xd)) by {
            assert(dists(s2)[i] == xd);
        }
        let m1 = dists(s1).to_multiset();
        let m2 = dists(s2).to_multiset();
        assert(m1.remove(xd) == m2.remove(xd));
        assert(m1.count(xd) > 0);
        assert(m2.count(xd) > 0);
        assert forall|v: int| true implies m1.count(v) == m2.count(v) by {
            if v == xd {
                assert(m1.remove(xd).count(v) == m1.count(v) - 1);
                assert(m2.remove(xd).count(v) == m2.count(v) - 1);
            } else {
                assert(m1.remove(xd).count(v) == m1.count(v));
                assert(m2.remove(xd).count(v) == m2.count(v));
            }
        }
        assert(m1 =~= m2);
    }
}

/// Merging the same candidates in any per-file arrangement yields the same
/// globally sorted distance order: the merge step is insensitive to the
/// order files were processed in.
pub proof fn lemma_merge_order_independent(
    a: Seq<Seq<CandidateModel>>,
    b: Seq<Seq<CandidateModel>>,
)
    requires
        a.flatten().to_multiset() == b.flatten().to_multiset(),
    ensures
        dists(sort_by_dist(a.flatten())) == dists(sort_by_dist(b.flatten())),
{
    let sa = sort_by_dist(a.flatten());
    let sb = sort_by_dist(b.flatten());
    lemma_sort_by_dist(a.flatten());
    lemma_sort_by_dist(b.flatten());
    lemma_dists_multiset(sa, sb);
    let leq = |x: int, y: int| x <= y;
    assert(total_ordering(leq)) by {
        assert forall|x: int, y: int, z: int| true implies (#[trigger] leq(x, x)) && (leq(x, y)
            && leq(y, x) ==> x == y) && (leq(x, y) && #[trigger] leq(y, z) ==> #[trigger] leq(
            x,
            z,
        )) && (leq(x, y) || leq(y, x)) by {}
    }
    assert(sorted_by(dists(sa), leq)) by {
        assert forall|i: int, j: int| 0 <= i < j < dists(sa).len() implies #[trigger] leq(
            dists(sa)[i],
            dists(sa)[j],
        ) by {
            assert(sa[i].distance_mm <= sa[j].distance_mm);
        }
    }
    assert(sorted_by(dists(sb), leq)) by {
        assert forall|i: int, j: int| 0 <= i < j < dists(sb).len() implies #[trigger] leq(
            dists(sb)[i],
            dists(sb)[j],
        ) by {
            assert(sb[i].distance_mm <= sb[j].distance_mm);
        }
    }
    lemma_sorted_unique(dists(sa), dists(sb), leq);
}

proof fn lemma_pair_flatten(f1: Seq<CandidateModel>, f2: Seq<CandidateModel>)
    ensures
        seq![f1, f2].flatten() == f1 + f2,
{
    let pair = seq![f1, f2];
    assert(pair.drop_first() =~= seq![f2]);
    assert(seq![f2].drop_first() =~= Seq::<Seq<CandidateModel>>::empty());
    assert(Seq::<Seq<CandidateModel>>::empty().flatten() =~= Seq::<CandidateModel>::empty());
    assert(seq![f2].flatten() == seq![f2].first().add(seq![f2].drop_first().flatten()));
    assert(seq![f2].flatten() =~= f2);
    assert(pair.flatten() == pair.first().add(pair.drop_first().flatten()));
    assert(pair.flatten() =~= f1 + f2);
}

/// Two files' result lists may be handed to the merge in either order: the
/// globally sorted distance order is the same.
pub proof fn lemma_two_files_commute(f1: Seq<CandidateModel>, f2: Seq<CandidateModel>)
    ensures
        dists(sort_by_dist(seq![f1, f2].flatten())) == dists(sort_by_dist(seq![f2, f1].flatten())),
{
    broadcast use vstd::multiset::group_multiset_axioms;

    lemma_pair_flatten(f1, f2);
    lemma_pair_flatten(f2, f1);
    lemma_multiset_commutative(f1, f2);
    lemma_multiset_commutative(f2, f1);
    assert(f1.to_multiset().add(f2.to_multiset()) =~= f2.to_multiset().add(f1.to_multiset()));
    lemma_merge_order_independent(seq![f1, f2], seq![f2, f1]);
}

pub open spec fn opt_dist(o: Option<CandidateModel>) -> Option<int> {
    match o {
        Some(c) => Some(c.distance_mm),
        None => None,
    }
}

/// The distance skeleton of a report: the within-partition's distances in
/// order, the nearest-outside distance, and the closest-only distance.
pub open spec fn report_distances(r: ReportModel) -> (Seq<int>, Option<int>, Option<int>) {
    match r {
        ReportModel::Matches { within, nearest_outside } => (
            dists(within),
            opt_dist(nearest_outside),
            None,
        ),
        ReportModel::ClosestOnly { closest } => (Seq::empty(), None, Some(closest.distance_mm)),
        ReportModel::Empty => (Seq::empty(), None, None),
    }
}

proof fn lemma_split_idx_congruent(
    s1: Seq<CandidateModel>,
    s2: Seq<CandidateModel>,
    thr: int,
    i: int,
)
    requires
        dists(s1) == dists(s2),
        0 <= i,
    ensures
        split_idx(s1, thr, i) == split_idx(s2, thr, i),
    decreases s1.len() - i,
{
    assert(dists(s1).len() == s1.len());
    assert(dists(s2).len() == s2.len());
    if i < s1.len() {
        assert(s1[i].distance_mm == dists(s1)[i]);
        assert(s2[i].distance_mm == dists(s2)[i]);
        if s1[i].distance_mm <= thr {
            lemma_split_idx_congruent(s1, s2, thr, i + 1);
        }
    }
}

/// The whole merged report is insensitive to the order files were
/// processed in: with the same candidates, both arrangements produce the
/// same kind of report with the same distances in the same places.
pub proof fn lemma_report_order_independent(
    a: Seq<Seq<CandidateModel>>,
    b: Seq<Seq<CandidateModel>>,
    thr: int,
)
    requires
        a.flatten().to_multiset() == b.flatten().to_multiset(),
    ensures
        report_distances(merged_report(a, thr)) == report_distances(merged_report(b, thr)),
{
    let sa = sort_by_dist(a.flatten());
    let sb = sort_by_dist(b.flatten());
    lemma_merge_order_independent(a, b);
    assert(sa.len() == sb.len()) by {
        assert(dists(sa).len() == sa.len());
        assert(dists(sb).len() == sb.len());
    }
    lemma_split_idx_congruent(sa, sb, thr, 0);
    let k = split_idx(sa, thr, 0);
    lemma_split_idx_props(sa, thr, 0);
    if k > 0 {
        assert(dists(sa.subrange(0, k)) =~= dists(sa).subrange(0, k));
        assert(dists(sb.subrange(0, k)) =~= dists(sb).subrange(0, k));
        if k < sa.len() {
            assert(sa[k].distance_mm == dists(sa)[k]);
            assert(sb[k].distance_mm == dists(sb)[k]);
        }
    } else if sa.len() > 0 {
        assert(sa[0].distance_mm == dists(sa)[0]);
        assert(sb[0].distance_mm == dists(sb)[0]);
    }
}

proof fn lemma_split_idx_props(s: Seq<CandidateModel>, thr: int, i: int)
    requires
        0 <= i <= s.len(),
    ensures
        i <= split_idx(s, thr, i) <= s.len(),
        split_idx(s, thr, i) < s.len() ==> s[split_idx(s, thr, i)].distance_mm > thr,
        forall|j: int| i <= j < split_idx(s, thr, i) ==> #[trigger] s[j].distance_mm <= thr,
    decreases s.len() - i,
{
    if i < s.len() && s[i].distance_mm <= thr {
        lemma_split_idx_props(s, thr, i + 1);
    }
}

/// What the merged report holds, case by case: the within-partition is the
/// longest sorted prefix at or under the threshold, complete (everything
/// past it in the merged order lies beyond the threshold) and followed by
/// its positional successor when one exists; with nothing within, the
/// single globally nearest candidate is reported; with no candidates at
/// all, nothing is.
pub proof fn lemma_report_partition(files: Seq<Seq<CandidateModel>>, thr: int)
    ensures
        ({
            let srt = sort_by_dist(files.flatten());
            match merged_report(files, thr) {
                ReportModel::Matches { within, nearest_outside } => {
                    &&& within.len() > 0
                    &&& within == srt.subrange(0, within.len() as int)
                    &&& dist_sorted(within)
                    &&& forall|j: int|
                        0 <= j < within.len() ==> #[trigger] within[j].distance_mm <= thr
                    &&& match nearest_outside {
                        Some(c) => within.len() < srt.len() && c == srt[within.len() as int]
                            && c.distance_mm > thr,
                        None => within.len() == srt.len(),
                    }
                    &&& forall|j: int|
                        within.len() <= j < srt.len() ==> #[trigger] srt[j].distance_mm > thr
                },
                ReportModel::ClosestOnly { closest } => {
                    &&& srt.len() > 0
                    &&& closest == srt[0]
                    &&& closest.distance_mm > thr
                    &&& forall|j: int|
                        0 <= j < srt.len() ==> closest.distance_mm <= #[trigger] srt[j].distance_mm
                },
                ReportModel::Empty => files.flatten().len() == 0,
            }
        }),
{
    let flat = files.flatten();
    let srt = sort_by_dist(flat);
    lemma_sort_by_dist(flat);
    lemma_split_idx_props(srt, thr, 0);
    let k = split_idx(srt, thr, 0);
    if k > 0 {
        let within = srt.subrange(0, k);
        assert forall|j: int| k <= j < srt.len() implies #[trigger] srt[j].distance_mm > thr by {
            if j > k {
                assert(srt[k].distance_mm <= srt[j].distance_mm);
            }
        }
    }
}

/// The report is a function of the file set and configuration alone: two
/// runs of the pipeline over unchanged inputs produce identical reports.
pub proof fn lemma_report_deterministic(
    cfg: AnalysisConfig,
    files: Seq<(Seq<char>, Seq<u8>)>,
    r1: ReportModel,
    r2: ReportModel,
)
    requires
        r1 == corpus_report(cfg, files),
        r2 == corpus_report(cfg, files),
    ensures
        r1 == r2,
{
}

/// Least value of the integer suffix `s[i..]`.
pub open spec fn min_from(s: Seq<int>, i: int) -> int
    decreases s.len() - i,
{
    if i < 0 || i >= s.len() {
        0
    } else if i == s.len() - 1 {
        s[i]
    } else {
        let m = min_from(s, i + 1);
        if s[i] <= m {
            s[i]
        } else {
            m
        }
    }
}

/// While every remaining point stays within the threshold, the tracker only
/// deepens the one open zone: nothing is emitted, the miss is untouched,
/// and the zone's kept member carries the least distance seen.
proof fn lemma_fold_all_within(
    cfg: AnalysisConfig,
    path: Seq<char>,
    points: Seq<TrackPointModel>,
    i: int,
    st: TrackState,
)
    requires
        0 <= i < points.len(),
        forall|j: int|
            i <= j < points.len() ==> #[trigger] step_dists(cfg, points)[j]
                <= cfg.threshold_mm as int,
        if i == 0 {
            st.prev is None
        } else {
            st.prev == Some(planar_of(cfg, points[i - 1]))
        },
    ensures
        track_fold(cfg, path, points, i, st).results == st.results,
        track_fold(cfg, path, points, i, st).miss == st.miss,
        track_fold(cfg, path, points, i, st).zone matches Some(z) && z.distance_mm == (
        match st.zone {
            Some(z0) => if z0.distance_mm <= min_from(step_dists(cfg, points), i) {
                z0.distance_mm
            } else {
                min_from(step_dists(cfg, points), i)
            },
            None => min_from(step_dists(cfg, points), i),
        }),
    decreases points.len() - i,
{
    let sd = step_dists(cfg, points);
    let d = sd[i];
    assert(dist_of(st.prev, planar_of(cfg, points[i])) == d);
    let st2 = track_step(cfg, path, st, points[i]);
    if i == points.len() - 1 {
        assert(track_fold(cfg, path, points, i + 1, st2) == st2);
    } else {
        lemma_fold_all_within(cfg, path, points, i + 1, st2);
    }
}

/// While every remaining point lies beyond the threshold, no zone opens:
/// nothing is emitted and the miss tracks the least distance seen.
proof fn lemma_fold_all_beyond(
    cfg: AnalysisConfig,
    path: Seq<char>,
    points: Seq<TrackPointModel>,
    i: int,
    st: TrackState,
)
    requires
        0 <= i < points.len(),
        forall|j: int|
            i <= j < points.len() ==> #[trigger] step_dists(cfg, points)[j]
                > cfg.threshold_mm as int,
        st.zone is None,
        if i == 0 {
            st.prev is None
        } else {
            st.prev == Some(planar_of(cfg, points[i - 1]))
        },
    ensures
        track_fold(cfg, path, points, i, st).results == st.results,
        track_fold(cfg, path, points, i, st).zone is None,
        track_fold(cfg, path, points, i, st).miss matches Some(m) && m.distance_mm == (
        match st.miss {
            Some(m0) => if m0.distance_mm <= min_from(step_dists(cfg, points), i) {
                m0.distance_mm
            } else {
                min_from(step_dists(cfg, points), i)
            },
            None => min_from(step_dists(cfg, points), i),
        }),
    decreases points.len() - i,
{
    let sd = step_dists(cfg, points);
    let d = sd[i];
    assert(dist_of(st.prev, planar_of(cfg, points[i])) == d);
    let st2 = track_step(cfg, path, st, points[i]);
    if i == points.len() - 1 {
        assert(track_fold(cfg, path, points, i + 1, st2) == st2);
    } else {
        lemma_fold_all_beyond(cfg, path, points, i + 1, st2);
    }
}

/// Zone collapsing: a file whose every point stays within the threshold is
/// one maximal zone, and it reduces to exactly one candidate, carrying the
/// least of the scored distances.
pub proof fn lemma_zone_collapsing(
    cfg: AnalysisConfig,
    path: Seq<char>,
    points: Seq<TrackPointModel>,
)
    requires
        points.len() > 0,
        forall|j: int|
            0 <= j < points.len() ==> #[trigger] step_dists(cfg, points)[j]
                <= cfg.threshold_mm as int,
    ensures
        file_results(cfg, path, points).len() == 1,
        file_results(cfg, path, points)[0].distance_mm == min_from(step_dists(cfg, points), 0),
{
    lemma_fold_all_within(cfg, path, points, 0, track_init());
}

/// Fallback: a file whose every point lies beyond the threshold never opens
/// a zone and yields exactly one candidate, the running minimum miss.
pub proof fn lemma_nearest_miss_fallback(
    cfg: AnalysisConfig,
    path: Seq<char>,
    points: Seq<TrackPointModel>,
)
    requires
        points.len() > 0,
        forall|j: int|
            0 <= j < points.len() ==> #[trigger] step_dists(cfg, points)[j]
                > cfg.threshold_mm as int,
    ensures
        file_results(cfg, path, points).len() == 1,
        file_results(cfg, path, points)[0].distance_mm == min_from(step_dists(cfg, points), 0),
{
    lemma_fold_all_beyond(cfg, path, points, 0, track_init());
}

/// `c` stems from one of the first `bound` points of the file: it carries
/// the file's path, that point's scored distance and its timestamp.
pub open spec fn cand_from(
    cfg: AnalysisConfig,
    path: Seq<char>,
    points: Seq<TrackPointModel>,
    bound: int,
    c: CandidateModel,
) -> bool {
    &&& c.path == path
    &&& exists|j: int|
        0 <= j < bound && c.distance_mm == step_dists(cfg, points)[j] && c.time === points[j].time
}

pub open spec fn opt_from(
    cfg: AnalysisConfig,
    path: Seq<char>,
    points: Seq<TrackPointModel>,
    bound: int,
    o: Option<CandidateModel>,
) -> bool {
    match o {
        Some(c) => cand_from(cfg, path, points, bound, c),
        None => true,
    }
}

pub open spec fn all_from(
    cfg: AnalysisConfig,
    path: Seq<char>,
    points: Seq<TrackPointModel>,
    bound: int,
    s: Seq<CandidateModel>,
) -> bool {
    forall|k: int| 0 <= k < s.len() ==> cand_from(cfg, path, points, bound, #[trigger] s[k])
}

proof fn lemma_fold_provenance(
    cfg: AnalysisConfig,
    path: Seq<char>,
    points: Seq<TrackPointModel>,
    i: int,
    st: TrackState,
)
    requires
        0 <= i <= points.len(),
        if i == 0 {
            st.prev is None
        } else {
            st.prev == Some(planar_of(cfg, points[i - 1]))
        },
        opt_from(cfg, path, points, i, st.zone),
        opt_from(cfg, path, points, i, st.miss),
        all_from(cfg, path, points, i, st.results),
    ensures
        opt_from(cfg, path, points, points.len() as int, track_fold(cfg, path, points, i, st).zone),
        opt_from(cfg, path, points, points.len() as int, track_fold(cfg, path, points, i, st).miss),
        all_from(
            cfg,
            path,
            points,
            points.len() as int,
            track_fold(cfg, path, points, i, st).results,
        ),
    decreases points.len() - i,
{
    if i == points.len() {
        assert forall|bound: int, c: CandidateModel|
            i <= bound && cand_from(cfg, path, points, i, c) implies cand_from(
            cfg,
            path,
            points,
            bound,
            c,
        ) by {
            let j = choose|j: int|
                0 <= j < i && c.distance_mm == step_dists(cfg, points)[j] && c.time
                    === points[j].time;
            assert(0 <= j < bound && c.distance_mm == step_dists(cfg, points)[j] && c.time
                === points[j].time);
        }
    } else {
        let d = step_dists(cfg, points)[i];
        assert(dist_of(st.prev, planar_of(cfg, points[i])) == d);
        let st2 = track_step(cfg, path, st, points[i]);
        let cand = CandidateModel { distance_mm: d, path, time: points[i].time };
        assert(cand_from(cfg, path, points, i + 1, cand)) by {
            assert(0 <= i < i + 1 && cand.distance_mm == step_dists(cfg, points)[i] && cand.time
                === points[i].time);
        }
        assert forall|c: CandidateModel| cand_from(cfg, path, points, i, c) implies cand_from(
            cfg,
            path,
            points,
            i + 1,
            c,
        ) by {
            let j = choose|j: int|
                0 <= j < i && c.distance_mm == step_dists(cfg, points)[j] && c.time
                    === points[j].time;
            assert(0 <= j < i + 1 && c.distance_mm == step_dists(cfg, points)[j] && c.time
                === points[j].time);
        }
        assert(all_from(cfg, path, points, i + 1, st2.results)) by {
            match st.zone {
                Some(z) => {
                    assert forall|k: int| 0 <= k < st2.results.len() implies cand_from(
                        cfg,
                        path,
                        points,
                        i + 1,
                        st2.results[k],
                    ) by {
                        if d <= cfg.threshold_mm as int {
                        } else {
                            assert(st2.results =~= st.results.push(z));
                            if k < st.results.len() {
                                assert(cand_from(cfg, path, points, i, st.results[k]));
                            } else {
                                assert(st2.results[k] == z);
                            }
                        }
                    }
                },
                None => {},
            }
        }
        lemma_fold_provenance(cfg, path, points, i + 1, st2);
    }
}

/// Every candidate a file reports stems from one of that file's own points:
/// it carries the file's path, one of the tracker's scored distances, and
/// the timestamp of the point that scored it.
pub proof fn lemma_results_provenance(
    cfg: AnalysisConfig,
    path: Seq<char>,
    points: Seq<TrackPointModel>,
)
    ensures
        all_from(cfg, path, points, points.len() as int, file_results(cfg, path, points)),
{
    lemma_fold_provenance(cfg, path, points, 0, track_init());
    let fin = track_fold(cfg, path, points, 0, track_init());
    let out = file_results(cfg, path, points);
    assert forall|k: int| 0 <= k < out.len() implies cand_from(
        cfg,
        path,
        points,
        points.len() as int,
        out[k],
    ) by {
        if k < fin.results.len() {
            assert(cand_from(cfg, path, points, points.len() as int, fin.results[k]));
        } else {
            match fin.zone {
                Some(z) => {
                    assert(out[k] == z);
                },
                None => {
                    match fin.miss {
                        Some(m) => {
                            assert(out[k] == m);
                        },
                        None => {},
                    }
                },
            }
        }
    }
}

/// The threshold boundary is inclusive: a point at distance exactly the
/// threshold joins a zone (and emits nothing yet), while any point even one
/// millimetre beyond it leaves the zone state closed.
pub proof fn lemma_zone_boundary(
    cfg: AnalysisConfig,
    path: Seq<char>,
    st: TrackState,
    p: TrackPointModel,
)
    ensures
        dist_of(st.prev, planar_of(cfg, p)) <= cfg.threshold_mm ==> track_step(
            cfg,
            path,
            st,
            p,
        ).zone is Some && track_step(cfg, path, st, p).results == st.results,
        dist_of(st.prev, planar_of(cfg, p)) > cfg.threshold_mm ==> track_step(
            cfg,
            path,
            st,
            p,
        ).zone is None,
{
}

} // verus!
