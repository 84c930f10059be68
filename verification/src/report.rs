//! Corpus-wide merge: flatten per-file candidates, sort by distance, split
//! at the threshold.
//!
//! The sort is a stable insertion sort with a functional specification, so
//! the merged report is a function of the input sequence alone; candidates
//! at equal distances keep their discovery order, which depends on the
//! order files were handed in and is documented as not a portable
//! guarantee.

use crate::tracker::{results_view, CandidateModel, CandidateResult};
use vstd::prelude::*;

verus! {

/// `x` placed after every element at most as distant: stable insertion.
pub open spec fn insert_by_dist(s: Seq<CandidateModel>, x: CandidateModel) -> Seq<CandidateModel>
    decreases s.len(),
{
    if s.len() == 0 {
        seq![x]
    } else if s.last().distance_mm <= x.distance_mm {
        s.push(x)
    } else {
        insert_by_dist(s.drop_last(), x).push(s.last())
    }
}

/// Stable sort of candidates by ascending distance.
pub open spec fn sort_by_dist(s: Seq<CandidateModel>) -> Seq<CandidateModel>
    decreases s.len(),
{
    if s.len() == 0 {
        Seq::empty()
    } else {
        insert_by_dist(sort_by_dist(s.drop_last()), s.last())
    }
}

pub open spec fn dist_sorted(s: Seq<CandidateModel>) -> bool {
    forall|i: int, j: int|
        0 <= i < j < s.len() ==> #[trigger] s[i].distance_mm <= #[trigger] s[j].distance_mm
}

pub proof fn lemma_insert_by_dist(s: Seq<CandidateModel>, x: CandidateModel)
    ensures
        insert_by_dist(s, x).len() == s.len() + 1,
        insert_by_dist(s, x).to_multiset() =~= s.to_multiset().insert(x),
        forall|k: int|
            0 <= k < insert_by_dist(s, x).len() ==> (#[trigger] insert_by_dist(s, x)[k] == x
                || s.contains(insert_by_dist(s, x)[k])),
        dist_sorted(s) ==> dist_sorted(insert_by_dist(s, x)),
    decreases s.len(),
{
    broadcast use vstd::seq_lib::group_to_multiset_ensures;

    if s.len() == 0 {
        assert(seq![x].to_multiset() =~= Seq::<CandidateModel>::empty().to_multiset().insert(x))
            by {
            assert(seq![x] =~= Seq::<CandidateModel>::empty().push(x));
        }
    } else if s.last().distance_mm <= x.distance_mm {
        assert(s.push(x).to_multiset() =~= s.to_multiset().insert(x));
        if dist_sorted(s) {
            assert forall|i: int, j: int| 0 <= i < j < s.push(x).len() implies #[trigger] s.push(
                x,
            )[i].distance_mm <= #[trigger] s.push(x)[j].distance_mm by {
                if j < s.len() {
                } else {
                    assert(s.push(x)[j] == x);
                    if i < s.len() - 1 {
                        assert(s[i].distance_mm <= s[s.len() - 1].distance_mm);
                    }
                }
            }
        }
    } else {
        let dl = s.drop_last();
        let l = s.last();
        lemma_insert_by_dist(dl, x);
        let rec = insert_by_dist(dl, x);
        assert(s =~= dl.push(l));
        assert(s.to_multiset() =~= dl.to_multiset().insert(l));
        assert(rec.push(l).to_multiset() =~= rec.to_multiset().insert(l));
        assert(rec.to_multiset().insert(l) =~= dl.to_multiset().insert(x).insert(l));
        assert(dl.to_multiset().insert(x).insert(l) =~= dl.to_multiset().insert(l).insert(x));
        assert forall|k: int|
            0 <= k < rec.push(l).len() implies (#[trigger] rec.push(l)[k] == x || s.contains(
            rec.push(l)[k],
        )) by {
            if k < rec.len() {
                if rec[k] != x {
                    assert(dl.contains(rec[k]));
                    let m = choose|m: int| 0 <= m < dl.len() && dl[m] == rec[k];
                    assert(s[m] == rec[k]);
                }
            } else {
                assert(rec.push(l)[k] == l);
                assert(s[s.len() - 1] == l);
            }
        }
        if dist_sorted(s) {
            assert(dist_sorted(dl));
            assert(dist_sorted(rec));
            assert forall|i: int, j: int| 0 <= i < j < rec.push(l).len() implies #[trigger] rec
                .push(l)[i].distance_mm <= #[trigger] rec.push(l)[j].distance_mm by {
                if j < rec.len() {
                } else {
                    assert(rec.push(l)[j] == l);
                    let e = rec.push(l)[i];
                    assert(e == rec[i]);
                    assert(e == x || dl.contains(e));
                    if e == x {
                        assert(x.distance_mm < l.distance_mm);
                    } else {
                        let m = choose|m: int| 0 <= m < dl.len() && dl[m] == e;
                        assert(s[m].distance_mm <= s[s.len() - 1].distance_mm);
                    }
                }
            }
        }
    }
}

pub proof fn lemma_sort_by_dist(s: Seq<CandidateModel>)
    ensures
        sort_by_dist(s).len() == s.len(),
        sort_by_dist(s).to_multiset() =~= s.to_multiset(),
        dist_sorted(sort_by_dist(s)),
    decreases s.len(),
{
    broadcast use vstd::seq_lib::group_to_multiset_ensures;

    if s.len() > 0 {
        let dl = s.drop_last();
        lemma_sort_by_dist(dl);
        lemma_insert_by_dist(sort_by_dist(dl), s.last());
        assert(s =~= dl.push(s.last()));
        assert(s.to_multiset() =~= dl.to_multiset().insert(s.last()));
    }
}

/// Positional insert equals the recursive insertion when `at` is the spot a
/// backward scan stops at.
proof fn lemma_insert_at(s: Seq<CandidateModel>, x: CandidateModel, at: int)
    requires
        0 <= at <= s.len(),
        forall|j: int| at <= j < s.len() ==> #[trigger] s[j].distance_mm > x.distance_mm,
        at > 0 ==> s[at - 1].distance_mm <= x.distance_mm,
    ensures
        insert_by_dist(s, x) =~= s.subrange(0, at).push(x) + s.subrange(at, s.len() as int),
    decreases s.len(),
{
    if s.len() == 0 {
    } else if s.last().distance_mm <= x.distance_mm {
        assert(at == s.len());
    } else {
        let dl = s.drop_last();
        lemma_insert_at(dl, x, at);
        assert(dl.subrange(0, at) =~= s.subrange(0, at));
        assert(dl.subrange(at, dl.len() as int) =~= s.subrange(at, s.len() - 1));
        assert(insert_by_dist(dl, x).push(s.last()) =~= s.subrange(0, at).push(x) + s.subrange(
            at,
            s.len() as int,
        ));
    }
}

/// Inserts one candidate at its sorted position.
fn push_sorted(out: &mut Vec<CandidateResult>, c: CandidateResult)
    ensures
        results_view(final(out)@) == insert_by_dist(results_view(old(out)@), c@),
{
    let n = out.len();
    let mut at = n;
    while at > 0 && out[at - 1].distance_mm > c.distance_mm
        invariant
            0 <= at <= n,
            n == out@.len(),
            forall|j: int|
                at <= j < n ==> #[trigger] results_view(out@)[j].distance_mm > c@.distance_mm,
        decreases at,
    {
        at = at - 1;
    }
    proof {
        lemma_insert_at(results_view(out@), c@, at as int);
    }
    let ghost before = out@;
    out.insert(at, c);
    proof {
        assert(results_view(out@) =~= results_view(before).subrange(0, at as int).push(c@)
            + results_view(before).subrange(at as int, before.len() as int));
    }
}

/// Sorts candidates by ascending distance, stably.
pub fn sort_results(rs: Vec<CandidateResult>) -> (r: Vec<CandidateResult>)
    ensures
        results_view(r@) == sort_by_dist(results_view(rs@)),
{
    let ghost whole = results_view(rs@);
    let mut input = rs;
    let mut out: Vec<CandidateResult> = Vec::new();
    let ghost mut done: Seq<CandidateModel> = Seq::empty();
    proof {
        assert(done + results_view(input@) =~= whole);
        assert(results_view(out@) =~= sort_by_dist(done));
    }
    while input.len() > 0
        invariant
            whole == done + results_view(input@),
            results_view(out@) == sort_by_dist(done),
        decreases input@.len(),
    {
        let ghost old_in = input@;
        let c = input.remove(0);
        proof {
            assert(input@ =~= old_in.drop_first());
            assert(results_view(input@) =~= results_view(old_in).drop_first());
            assert(results_view(old_in)[0] == c@);
            let done2 = done.push(c@);
            assert(done2 + results_view(input@) =~= done + results_view(old_in));
            assert(done2.drop_last() =~= done);
            assert(sort_by_dist(done2) == insert_by_dist(sort_by_dist(done), c@));
            done = done2;
        }
        push_sorted(&mut out, c);
    }
    proof {
        assert(results_view(input@) =~= Seq::<CandidateModel>::empty());
        assert(done =~= whole);
    }
    out
}

/// First position at or after `i` whose candidate lies beyond the
/// threshold, or the length.
pub open spec fn split_idx(s: Seq<CandidateModel>, thr: int, i: int) -> int
    decreases s.len() - i,
{
    if i >= s.len() {
        s.len() as int
    } else if s[i].distance_mm > thr {
        i
    } else {
        split_idx(s, thr, i + 1)
    }
}

proof fn lemma_split_idx_eq(s: Seq<CandidateModel>, thr: int, i: int, r: int)
    requires
        0 <= i <= r <= s.len(),
        r < s.len() ==> s[r].distance_mm > thr,
        forall|k: int| i <= k < r ==> #[trigger] s[k].distance_mm <= thr,
    ensures
        split_idx(s, thr, i) == r,
    decreases r - i,
{
    if i < r {
        lemma_split_idx_eq(s, thr, i + 1, r);
    }
}

/// The corpus-wide report (see `report_spec` for what each case holds).
#[derive(Debug, Clone, PartialEq, Eq)]
pub enum AnalysisReport {
    /// Candidates within the threshold, sorted ascending, and the
    /// positional successor in the merged order, when one exists.
    Matches { within: Vec<CandidateResult>, nearest_outside: Option<CandidateResult> },
    /// Nothing was within the threshold: the globally closest candidate.
    ClosestOnly { closest: CandidateResult },
    /// No file yielded any candidate.
    Empty,
}

#[verifier::ext_equal]
pub enum ReportModel {
    Matches { within: Seq<CandidateModel>, nearest_outside: Option<CandidateModel> },
    ClosestOnly { closest: CandidateModel },
    Empty,
}

impl View for AnalysisReport {
    type V = ReportModel;

    open spec fn view(&self) -> ReportModel {
        match self {
            AnalysisReport::Matches { within, nearest_outside } => ReportModel::Matches {
                within: results_view(within@),
                nearest_outside: match nearest_outside {
                    Some(c) => Some(c@),
                    None => None,
                },
            },
            AnalysisReport::ClosestOnly { closest } => ReportModel::ClosestOnly {
                closest: closest@,
            },
            AnalysisReport::Empty => ReportModel::Empty,
        }
    }
}

/// Partition of an already-sorted candidate sequence: everything up to the
/// first candidate beyond the threshold is the within-report; that
/// candidate itself, if present, is the nearest point outside the
/// threshold. With nothing within but something found, the closest
/// candidate is reported alone.
pub open spec fn report_spec(sorted: Seq<CandidateModel>, thr: int) -> ReportModel {
    let k = split_idx(sorted, thr, 0);
    if k > 0 {
        ReportModel::Matches {
            within: sorted.subrange(0, k),
            nearest_outside: if k < sorted.len() {
                Some(sorted[k])
            } else {
                None
            },
        }
    } else if sorted.len() > 0 {
        ReportModel::ClosestOnly { closest: sorted[0] }
    } else {
        ReportModel::Empty
    }
}

/// The whole corpus-level merge: flatten, sort, partition.
pub open spec fn merged_report(files: Seq<Seq<CandidateModel>>, thr: int) -> ReportModel {
    report_spec(sort_by_dist(files.flatten()), thr)
}

pub open spec fn files_view(v: Seq<Vec<CandidateResult>>) -> Seq<Seq<CandidateModel>> {
    v.map_values(|f: Vec<CandidateResult>| results_view(f@))
}

/// Merges the per-file result lists into the corpus-wide report.
pub fn merge_report(per_file: Vec<Vec<CandidateResult>>, threshold_mm: u128) -> (r: AnalysisReport)
    ensures
        r@ == merged_report(files_view(per_file@), threshold_mm as int),
{
    let ghost fv = files_view(per_file@);
    let mut rest = per_file;
    let mut flat: Vec<CandidateResult> = Vec::new();
    let ghost mut donef: Seq<Seq<CandidateModel>> = Seq::empty();
    proof {
        assert(donef + files_view(rest@) =~= fv);
        assert(results_view(flat@) =~= donef.flatten());
    }
    while rest.len() > 0
        invariant
            fv == donef + files_view(rest@),
            results_view(flat@) == donef.flatten(),
        decreases rest@.len(),
    {
        let ghost old_rest = rest@;
        let ghost old_flat = flat@;
        let mut f = rest.remove(0);
        proof {
            assert(files_view(rest@) =~= files_view(old_rest).drop_first());
            assert(files_view(old_rest)[0] == results_view(f@));
            let donef2 = donef.push(results_view(f@));
            assert(donef2 + files_view(rest@) =~= donef + files_view(old_rest));
            donef.lemma_flatten_push(results_view(f@));
            donef = donef2;
        }
        flat.append(&mut f);
        proof {
            assert(results_view(flat@) =~= results_view(old_flat) + results_view(
                old_rest[0]@,
            ));
        }
    }
    proof {
        assert(files_view(rest@) =~= Seq::<Seq<CandidateModel>>::empty());
        assert(donef =~= fv);
    }
    let mut sorted = sort_results(flat);
    let ghost sv = results_view(sorted@);
    let n = sorted.len();
    let mut k: usize = 0;
    while k < n && sorted[k].distance_mm <= threshold_mm
        invariant
            0 <= k <= n,
            n == sorted@.len(),
            sv == results_view(sorted@),
            forall|j: int| 0 <= j < k ==> #[trigger] sv[j].distance_mm <= threshold_mm as int,
        decreases n - k,
    {
        k = k + 1;
    }
    proof {
        lemma_split_idx_eq(sv, threshold_mm as int, 0, k as int);
    }
    if k > 0 {
        let mut tail = sorted.split_off(k);
        let nearest_outside: Option<CandidateResult> = if tail.len() > 0 {
            let c = tail.remove(0);
            Some(c)
        } else {
            None
        };
        proof {
            assert(results_view(sorted@) =~= sv.subrange(0, k as int));
        }
        AnalysisReport::Matches { within: sorted, nearest_outside }
    } else if n > 0 {
        let c = sorted.remove(0);
        AnalysisReport::ClosestOnly { closest: c }
    } else {
        AnalysisReport::Empty
    }
}

} // verus!
