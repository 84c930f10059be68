//! The full analysis pipeline: bytes in, report out.
//!
//! Per file: tokenize, extract track points, run the nearest-approach
//! tracker. Per corpus: merge every file's candidates into one ordered,
//! threshold-partitioned report. Each stage is a pure function of its
//! inputs, so the whole pipeline is too: `corpus_report` names the report
//! as a function of the file contents and the configuration alone. Files
//! are independent of one another; a caller may run `analyze_file` on each
//! file in any order (or in parallel) and hand the per-file results to
//! `merge_report` in discovery order.

use crate::geom::AnalysisConfig;
use crate::report::{files_view, merge_report, merged_report, AnalysisReport, ReportModel};
use crate::track::{extract_points, extracted};
use crate::tracker::{analyze_points, file_results, results_view, CandidateModel, CandidateResult};
use crate::xml::{scan_tokens, tokenize};
use crate::Warning;
use vstd::prelude::*;

verus! {

/// Everything one file contributes, as a function of its raw bytes.
pub open spec fn file_analysis(cfg: AnalysisConfig, path: Seq<char>, bytes: Seq<u8>) -> Seq<
    CandidateModel,
> {
    file_results(cfg, path, extracted(scan_tokens(bytes, 0).toks).points)
}

/// The warnings one file produces: tokenizer faults first, then skipped
/// points, as a function of its raw bytes.
pub open spec fn file_warnings(bytes: Seq<u8>) -> Seq<Warning> {
    scan_tokens(bytes, 0).warns + extracted(scan_tokens(bytes, 0).toks).warns
}

/// Parses one file's bytes and runs the tracker over its points.
pub fn analyze_file(path: &String, bytes: &Vec<u8>, cfg: &AnalysisConfig) -> (r: (
    Vec<CandidateResult>,
    Vec<Warning>,
))
    requires
        cfg.valid(),
    ensures
        results_view(r.0@) == file_analysis(*cfg, path@, bytes@),
        r.1@ == file_warnings(bytes@),
{
    let (toks, mut warns) = tokenize(bytes);
    let (points, mut pwarns) = extract_points(&toks);
    let results = analyze_points(cfg, path, &points);
    warns.append(&mut pwarns);
    (results, warns)
}

pub open spec fn corpus_view(v: Seq<(String, Vec<u8>)>) -> Seq<(Seq<char>, Seq<u8>)> {
    v.map_values(|f: (String, Vec<u8>)| (f.0@, f.1@))
}

/// Each file's candidates, in corpus order.
pub open spec fn corpus_results(cfg: AnalysisConfig, files: Seq<(Seq<char>, Seq<u8>)>) -> Seq<
    Seq<CandidateModel>,
> {
    files.map_values(|f: (Seq<char>, Seq<u8>)| file_analysis(cfg, f.0, f.1))
}

/// The corpus-wide report as a function of the file set and configuration
/// alone: running the pipeline again on unchanged inputs gives this same
/// value.
pub open spec fn corpus_report(cfg: AnalysisConfig, files: Seq<(Seq<char>, Seq<u8>)>) -> ReportModel {
    merged_report(corpus_results(cfg, files), cfg.threshold_mm as int)
}

/// All files' warnings, in corpus order.
pub open spec fn corpus_warnings(files: Seq<(Seq<char>, Seq<u8>)>) -> Seq<Warning> {
    files.map_values(|f: (Seq<char>, Seq<u8>)| file_warnings(f.1)).flatten()
}

/// Runs the whole pipeline over a corpus, file by file, and merges.
pub fn analyze_corpus(files: &Vec<(String, Vec<u8>)>, cfg: &AnalysisConfig) -> (r: (
    AnalysisReport,
    Vec<Warning>,
))
    requires
        cfg.valid(),
    ensures
        r.0@ == corpus_report(*cfg, corpus_view(files@)),
        r.1@ == corpus_warnings(corpus_view(files@)),
{
    let ghost cv = corpus_view(files@);
    let ghost wseqs = cv.map_values(|f: (Seq<char>, Seq<u8>)| file_warnings(f.1));
    let n = files.len();
    let mut per_file: Vec<Vec<CandidateResult>> = Vec::new();
    let mut warns: Vec<Warning> = Vec::new();
    let mut i: usize = 0;
    proof {
        assert(files_view(per_file@) =~= corpus_results(*cfg, cv).take(0));
        assert(warns@ =~= wseqs.take(0).flatten());
    }
    while i < n
        invariant
            0 <= i <= n,
            n == files@.len(),
            cv == corpus_view(files@),
            wseqs == cv.map_values(|f: (Seq<char>, Seq<u8>)| file_warnings(f.1)),
            cfg.valid(),
            files_view(per_file@) == corpus_results(*cfg, cv).take(i as int),
            warns@ == wseqs.take(i as int).flatten(),
        decreases n - i,
    {
        let f = &files[i];
        let (rs, mut ws) = analyze_file(&f.0, &f.1, cfg);
        proof {
            assert(cv[i as int] == (files@[i as int].0@, files@[i as int].1@));
            assert(results_view(rs@) == file_analysis(*cfg, cv[i as int].0, cv[i as int].1));
            assert(corpus_results(*cfg, cv).take(i + 1) =~= corpus_results(*cfg, cv).take(
                i as int,
            ).push(results_view(rs@)));
            assert(files_view(per_file@.push(rs)) =~= files_view(per_file@).push(results_view(
                rs@,
            )));
            assert(wseqs.take(i + 1) =~= wseqs.take(i as int).push(ws@));
            wseqs.take(i as int).lemma_flatten_push(ws@);
        }
        per_file.push(rs);
        warns.append(&mut ws);
        i = i + 1;
    }
    proof {
        assert(corpus_results(*cfg, cv).take(n as int) =~= corpus_results(*cfg, cv));
        assert(wseqs.take(n as int) =~= wseqs);
    }
    let report = merge_report(per_file, cfg.threshold_mm);
    (report, warns)
}

} // verus!
