//! Trackers: the per-entity state that accumulates a chain across frames,
//! remembers matched field values, and scores each new frame's records.

pub mod record_scorer;
pub mod tracker;
pub mod tracker_memory;
