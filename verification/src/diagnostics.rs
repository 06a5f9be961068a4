//! Diagnostics: per-tracker traces of the scores it produced and the memory
//! it held at each frame, plus per-frame resolution histograms.

use vstd::prelude::*;
use crate::id::ID;

verus! {

/// One scored record within a frame: its index, aggregated score and the
/// per-field similarities that produced it.
#[derive(Debug)]
pub struct TrackerRecordDiagnostics {
    pub record_idx: usize,
    pub record_score: u64,
    pub distances: Vec<Option<u64>>,
}

impl TrackerRecordDiagnostics {
    pub fn new(record_idx: usize, record_score: u64, distances: Vec<Option<u64>>) -> (r: Self)
        ensures
            r.record_idx == record_idx,
            r.record_score == record_score,
            r.distances@ == distances@,
    {
        Self { record_idx, record_score, distances }
    }
}

/// What one tracker saw in one frame: the records it found interesting and a
/// snapshot of its memory as raw strings.
#[derive(Debug)]
pub struct TrackerFrameDiagnostics {
    pub frame_idx: usize,
    pub records: Vec<TrackerRecordDiagnostics>,
    pub memory: Vec<Vec<String>>,
}

impl TrackerFrameDiagnostics {
    pub fn new(frame_idx: usize) -> (r: Self)
        ensures
            r.frame_idx == frame_idx,
            r.records@.len() == 0,
            r.memory@.len() == 0,
    {
        Self { frame_idx, records: Vec::new(), memory: Vec::new() }
    }
}

/// The frame-by-frame trace of one tracker.
pub struct TrackerDiagnostics {
    pub id: ID,
    pub frames: Vec<TrackerFrameDiagnostics>,
}

impl TrackerDiagnostics {
    pub fn new(id: ID) -> (r: Self)
        ensures
            r.id == id,
            r.frames@.len() == 0,
    {
        Self { id, frames: Vec::new() }
    }
}

/// Match histograms of one resolution step.
#[derive(Debug)]
pub struct ResolvingDiagnostics {
    pub histogram_record_matchs: Vec<usize>,
    pub histogram_tracker_matchs: Vec<usize>,
}

impl ResolvingDiagnostics {
    pub fn new() -> (r: Self)
        ensures
            r.histogram_record_matchs@.len() == 0,
            r.histogram_tracker_matchs@.len() == 0,
    {
        Self { histogram_record_matchs: Vec::new(), histogram_tracker_matchs: Vec::new() }
    }
}

/// Every tracker's trace, keyed by tracker identifier, plus the resolution
/// histograms of the whole run.
pub struct Diagnostics {
    pub trackers: Vec<(ID, TrackerDiagnostics)>,
    pub resolvings: Vec<ResolvingDiagnostics>,
}

impl Diagnostics {
    pub fn new() -> (r: Self)
        ensures
            r.trackers@.len() == 0,
            r.resolvings@.len() == 0,
    {
        Self { trackers: Vec::new(), resolvings: Vec::new() }
    }
}

} // verus!
