//! Resolution: the per-frame arbitration that assigns at most one record to
//! each tracker and, under the best-match policy, at most one tracker to each
//! record, spawning fresh trackers for the records nobody claimed.

pub mod resolver;
pub mod best_match_resolving_strategy;
pub mod simple_resolving_strategy;
