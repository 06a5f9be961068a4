//! User-facing configuration. Enumerated options arrive as strings and are
//! validated when the engine is built. All thresholds, ratios and weights on
//! the `[0, 1]` scale are given as integers scaled by `SCORE_ONE`.

use vstd::prelude::*;

verus! {

/// Which resolving strategy arbitrates each frame.
#[derive(Debug)]
pub struct ResolverConfig {
    pub resolving_strategy: String,
}

impl ResolverConfig {
    pub fn py_new(resolving_strategy: String) -> (c: Self)
        ensures
            c.resolving_strategy@ == resolving_strategy@,
    {
        Self { resolving_strategy }
    }
}

/// Which word metric to use and when a pair is worth caching. The substring
/// weight is scaled by 1000.
#[derive(Debug)]
pub struct DistanceMetricConfig {
    pub metric: String,
    pub caching_threshold: u32,
    pub lv_substring_weight: Option<u32>,
    pub lv_multiword_separator: Option<String>,
}

impl DistanceMetricConfig {
    pub fn py_new(
        metric: String,
        caching_threshold: u32,
        lv_substring_weight: Option<u32>,
        lv_multiword_separator: Option<String>,
    ) -> (c: Self)
        ensures
            c.metric@ == metric@,
            c.caching_threshold == caching_threshold,
            c.lv_substring_weight == lv_substring_weight,
    {
        Self { metric, caching_threshold, lv_substring_weight, lv_multiword_separator }
    }
}

/// Which record scorer folds field similarities together.
#[derive(Debug)]
pub struct RecordScorerConfig {
    pub record_scorer: String,
    pub weights: Option<Vec<u32>>,
    pub min_weight_ratio: Option<u64>,
}

impl RecordScorerConfig {
    pub fn py_new(
        record_scorer: String,
        weights: Option<Vec<u32>>,
        min_weight_ratio: Option<u64>,
    ) -> (c: Self)
        ensures
            c.record_scorer@ == record_scorer@,
            c.min_weight_ratio == min_weight_ratio,
            c.weights == weights,
    {
        Self { record_scorer, weights, min_weight_ratio }
    }
}

/// Per-tracker knobs: the interest threshold (scaled), how many frames
/// without a match a tracker survives, the memory policy, and the scorer.
#[derive(Debug)]
pub struct TrackerConfig {
    pub interest_threshold: u64,
    pub limit_no_match_streak: usize,
    pub memory_strategy: String,
    pub record_scorer: RecordScorerConfig,
}

impl TrackerConfig {
    pub fn py_new(
        interest_threshold: u64,
        limit_no_match_streak: usize,
        memory_strategy: String,
        record_scorer: RecordScorerConfig,
    ) -> (c: Self)
        ensures
            c.interest_threshold == interest_threshold,
            c.limit_no_match_streak == limit_no_match_streak,
            c.memory_strategy@ == memory_strategy@,
            c.record_scorer == record_scorer,
    {
        Self { interest_threshold, limit_no_match_streak, memory_strategy, record_scorer }
    }
}

/// The whole engine configuration.
#[derive(Debug)]
pub struct TrackingConfig {
    pub num_threads: usize,
    pub tracker: TrackerConfig,
    pub distance_metric: DistanceMetricConfig,
    pub resolver: ResolverConfig,
}

impl TrackingConfig {
    pub fn py_new(
        num_threads: usize,
        tracker: TrackerConfig,
        distance_metric: DistanceMetricConfig,
        resolver: ResolverConfig,
    ) -> (c: Self)
        ensures
            c.num_threads == num_threads,
            c.tracker == tracker,
            c.distance_metric == distance_metric,
            c.resolver == resolver,
    {
        Self { num_threads, tracker, distance_metric, resolver }
    }
}

} // verus!
