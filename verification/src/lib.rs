//! Nearest-approach search over a corpus of GPS track logs.
//!
//! Given a reference coordinate and a distance threshold, the library finds
//! every track point lying within the threshold of the reference and, when a
//! file has none, its single nearest miss. Per-file work is a single
//! pass over the track-log markup followed by a segment-aware
//! nearest-approach state machine; per-file results are then merged into one
//! corpus-wide ordered report.
//!
//! All angular coordinates are fixed-point degrees scaled by `10^7`; all
//! distances are whole millimetres.

pub mod coord;
pub mod entity;
pub mod geom;
pub mod laws;
pub mod pipeline;
pub mod report;
pub mod scan;
pub mod track;
pub mod tracker;
pub mod xml;

use vstd::prelude::*;

verus! {

/// A recoverable fault noticed while reading one file: the result set of the
/// file reflects only what parsed successfully around it.
#[derive(Clone, Copy, PartialEq, Eq, Structural, Debug)]
pub enum Warning {
    /// A markup construct that never terminates, at this byte offset.
    MalformedToken { offset: usize },
    /// A point whose longitude attribute is missing or not a usable number.
    InvalidLongitude,
    /// A point whose latitude attribute is missing or not a usable number.
    InvalidLatitude,
}

} // verus!
