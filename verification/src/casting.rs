//! Validation of the user-facing configuration and construction of the
//! engine. Every unknown option, mismatched weight vector or malformed frame
//! is rejected here, before any tracking starts.

use vstd::prelude::*;
use crate::config::{DistanceMetricConfig, RecordScorerConfig, ResolverConfig, TrackerConfig, TrackingConfig};
use crate::distances::distance_calculator::{CachedDistanceCalculator, CachedDistanceCalculatorWord};
use crate::distances::distance_metric::{LvDistanceMetric, LvOptiDistanceMetric, WordMetric, SCORE_ONE};
use crate::frame::Frame;
use crate::id::IdGen;
use crate::record::RecordSchema;
use crate::resolvers::best_match_resolving_strategy::BestMatchResolvingStrategy;
use crate::resolvers::resolver::{Resolver, ResolvingStrategy};
use crate::resolvers::simple_resolving_strategy::SimpleResolvingStrategy;
use crate::tracking_engine::TrackingEngine;
use crate::trackers::tracker::{calcs_wf, cfg_wf, InternalTrackerConfig, TrackerMemoryStrategy, TrackerRecordScorerConfig};

verus! {

/// Why a configuration or frame set was rejected.
#[derive(Clone, Copy, Debug, PartialEq, Eq, Structural)]
pub enum TrackingError {
    UnknownResolvingStrategy,
    UnknownDistanceMetric,
    MissingSubstringWeight,
    UnknownMemoryStrategy,
    UnknownRecordScorer,
    MissingWeights,
    WeightCountMismatch,
    RatioOutOfRange,
    ThresholdOutOfRange,
    TooFewFrames,
    MalformedFrame,
    FrameIndexMismatch,
    SchemaMismatch,
}

/// Whether a string holds the given text.
fn text_is(s: &String, lit: &str) -> (r: bool)
    ensures
        r == (s@ == lit@),
{
    let other = String::from_str(lit);
    *s == other
}

pub open spec fn resolver_valid(c: ResolverConfig) -> bool {
    c.resolving_strategy@ == "simple"@ || c.resolving_strategy@ == "best_match"@
}

pub open spec fn metric_valid(c: DistanceMetricConfig) -> bool {
    ||| c.metric@ == "lv"@
    ||| c.metric@ == "lvopti"@
    ||| (c.metric@ == "lvsubstring"@ && c.lv_substring_weight is Some)
}

pub open spec fn memory_valid(s: Seq<char>) -> bool {
    ||| s == "bruteforce"@
    ||| s == "mostfrequent"@
    ||| s == "median"@
    ||| s == "lsbruteforce"@
    ||| s == "lsmostfrequent"@
    ||| s == "lsmedian"@
}

/// The ratio a scorer configuration asks for; absent means none.
pub open spec fn ratio_of(c: RecordScorerConfig) -> int {
    match c.min_weight_ratio {
        Some(r) => r as int,
        None => 0,
    }
}

pub open spec fn scorer_valid(c: RecordScorerConfig, nfields: int) -> bool {
    if c.record_scorer@ == "average"@ {
        true
    } else if c.record_scorer@ == "weighted_average"@ || c.record_scorer@
        == "weighted_quadratic"@ {
        &&& c.weights is Some
        &&& c.weights->0@.len() == nfields
        &&& ratio_of(c) <= SCORE_ONE
    } else {
        false
    }
}

pub open spec fn tracker_valid(c: TrackerConfig, nfields: int) -> bool {
    &&& c.interest_threshold <= SCORE_ONE
    &&& memory_valid(c.memory_strategy@)
    &&& scorer_valid(c.record_scorer, nfields)
}

pub open spec fn config_valid(c: TrackingConfig, nfields: int) -> bool {
    &&& resolver_valid(c.resolver)
    &&& metric_valid(c.distance_metric)
    &&& tracker_valid(c.tracker, nfields)
}

/// The frames form a usable sequence: at least two, in order, all with the
/// schema's field count and consistent columns.
pub open spec fn frames_ok(frames: Seq<Frame>, nfields: int) -> bool {
    &&& frames.len() >= 2
    &&& forall|i: int|
        0 <= i < frames.len() ==> (#[trigger] frames[i]).shape_ok() && frames[i].spec_idx() == i
            && frames[i].cols().len() == nfields
}

/// Builds the resolver the configuration names; rejects unknown names.
pub fn build_resolver(c: &ResolverConfig) -> (r: Result<Resolver, TrackingError>)
    ensures
        r is Ok <==> resolver_valid(*c),
        r matches Ok(res) ==> (res.resolving_strategy is BestMatch <==> c.resolving_strategy@
            == "best_match"@),
        r matches Err(e) ==> e == TrackingError::UnknownResolvingStrategy,
{
    if text_is(&c.resolving_strategy, "best_match") {
        Ok(Resolver::new(ResolvingStrategy::BestMatch(BestMatchResolvingStrategy {  })))
    } else if text_is(&c.resolving_strategy, "simple") {
        Ok(Resolver::new(ResolvingStrategy::Simple(SimpleResolvingStrategy {  })))
    } else {
        Err(TrackingError::UnknownResolvingStrategy)
    }
}

/// Builds the word metric the configuration names; rejects unknown names.
pub fn build_distance_metric(c: &DistanceMetricConfig) -> (r: Result<WordMetric, TrackingError>)
    ensures
        r is Ok <==> metric_valid(*c),
        r matches Ok(m) ==> (m is Lv <==> c.metric@ == "lv"@) && (m is LvOpti <==> c.metric@
            == "lvopti"@) && (m is LvSubstring <==> c.metric@ == "lvsubstring"@),
        r matches Err(e) ==> e == TrackingError::UnknownDistanceMetric || e
            == TrackingError::MissingSubstringWeight,
{
    proof {
        reveal_strlit("lv");
        reveal_strlit("lvopti");
        reveal_strlit("lvsubstring");
        assert("lv"@.len() == 2);
        assert("lvopti"@.len() == 6);
        assert("lvsubstring"@.len() == 11);
        assert("lv"@ != "lvopti"@ && "lv"@ != "lvsubstring"@ && "lvopti"@ != "lvsubstring"@);
    }
    if text_is(&c.metric, "lv") {
        Ok(WordMetric::Lv(LvDistanceMetric::new()))
    } else if text_is(&c.metric, "lvopti") {
        Ok(WordMetric::LvOpti(LvOptiDistanceMetric::new()))
    } else if text_is(&c.metric, "lvsubstring") {
        match c.lv_substring_weight {
            Some(w) => Ok(
                WordMetric::LvSubstring(
                    crate::distances::distance_metric::LvSubstringDistanceMetric::new(w),
                ),
            ),
            None => Err(TrackingError::MissingSubstringWeight),
        }
    } else {
        Err(TrackingError::UnknownDistanceMetric)
    }
}

/// Builds one cached calculator over the configured metric.
pub fn build_distance_calculator(c: &DistanceMetricConfig) -> (r: Result<
    CachedDistanceCalculator,
    TrackingError,
>)
    ensures
        r is Ok <==> metric_valid(*c),
        r matches Ok(dc) ==> dc.wf() && dc.metric_spec() is Some,
        r matches Err(e) ==> e == TrackingError::UnknownDistanceMetric || e
            == TrackingError::MissingSubstringWeight,
{
    match build_distance_metric(c) {
        Ok(metric) => Ok(
            CachedDistanceCalculator::Word(
                CachedDistanceCalculatorWord::new(metric, c.caching_threshold),
            ),
        ),
        Err(e) => Err(e),
    }
}

/// Builds one calculator per field; each holds its own cache.
pub fn build_distance_calculators(c: &DistanceMetricConfig, nfields: usize) -> (r: Result<
    Vec<CachedDistanceCalculator>,
    TrackingError,
>)
    ensures
        r is Ok <==> metric_valid(*c),
        r matches Ok(v) ==> v@.len() == nfields && calcs_wf(v@),
        r matches Err(e) ==> e == TrackingError::UnknownDistanceMetric || e
            == TrackingError::MissingSubstringWeight,
{
    let metric = match build_distance_metric(c) {
        Ok(m) => m,
        Err(e) => {
            return Err(e);
        },
    };
    let mut out: Vec<CachedDistanceCalculator> = Vec::new();
    let mut i: usize = 0;
    while i < nfields
        invariant
            i <= nfields,
            out@.len() == i,
            calcs_wf(out@),
        decreases nfields - i,
    {
        out.push(
            CachedDistanceCalculator::Word(
                CachedDistanceCalculatorWord::new(metric, c.caching_threshold),
            ),
        );
        i += 1;
    }
    Ok(out)
}

/// Validates the tracker configuration against the schema's field count and
/// turns it into the internal form.
pub fn cast_tracker_config(c: &TrackerConfig, nfields: usize) -> (r: Result<
    InternalTrackerConfig,
    TrackingError,
>)
    ensures
        r is Ok <==> tracker_valid(*c, nfields as int),
        r matches Ok(ic) ==> cfg_wf(ic, nfields as int) && ic.interest_threshold
            == c.interest_threshold && ic.limit_no_match_streak == c.limit_no_match_streak,
        r matches Err(e) ==> (e == TrackingError::ThresholdOutOfRange ==> c.interest_threshold
            > SCORE_ONE) && (e == TrackingError::UnknownMemoryStrategy ==> !memory_valid(
            c.memory_strategy@,
        )) && (e == TrackingError::UnknownRecordScorer || e == TrackingError::MissingWeights || e
            == TrackingError::WeightCountMismatch || e == TrackingError::RatioOutOfRange
            ==> !scorer_valid(c.record_scorer, nfields as int)) && (e
            == TrackingError::ThresholdOutOfRange || e == TrackingError::UnknownMemoryStrategy || e
            == TrackingError::UnknownRecordScorer || e == TrackingError::MissingWeights || e
            == TrackingError::WeightCountMismatch || e == TrackingError::RatioOutOfRange),
{
    if c.interest_threshold > SCORE_ONE {
        return Err(TrackingError::ThresholdOutOfRange);
    }
    let memory_strategy = if text_is(&c.memory_strategy, "bruteforce") {
        TrackerMemoryStrategy::BruteForce
    } else if text_is(&c.memory_strategy, "mostfrequent") {
        TrackerMemoryStrategy::MostFrequent
    } else if text_is(&c.memory_strategy, "median") {
        TrackerMemoryStrategy::Median
    } else if text_is(&c.memory_strategy, "lsbruteforce") {
        TrackerMemoryStrategy::LSBruteForce
    } else if text_is(&c.memory_strategy, "lsmostfrequent") {
        TrackerMemoryStrategy::LSMostFrequent
    } else if text_is(&c.memory_strategy, "lsmedian") {
        TrackerMemoryStrategy::LSMedian
    } else {
        return Err(TrackingError::UnknownMemoryStrategy);
    };

    let ratio: u64 = match &c.record_scorer.min_weight_ratio {
        Some(r) => *r,
        None => 0,
    };
    let record_scorer = if text_is(&c.record_scorer.record_scorer, "average") {
        TrackerRecordScorerConfig::Average
    } else if text_is(&c.record_scorer.record_scorer, "weighted_average") || text_is(
        &c.record_scorer.record_scorer,
        "weighted_quadratic",
    ) {
        let w = match &c.record_scorer.weights {
            Some(w0) => crate::trackers::tracker::clone_weights(w0),
            None => {
                return Err(TrackingError::MissingWeights);
            },
        };
        if w.len() != nfields {
            return Err(TrackingError::WeightCountMismatch);
        }
        if ratio > SCORE_ONE {
            return Err(TrackingError::RatioOutOfRange);
        }
        if text_is(&c.record_scorer.record_scorer, "weighted_average") {
            TrackerRecordScorerConfig::WeightedAverage(w, ratio)
        } else {
            TrackerRecordScorerConfig::WeightedQuadratic(w, ratio)
        }
    } else {
        return Err(TrackingError::UnknownRecordScorer);
    };

    Ok(
        InternalTrackerConfig {
            interest_threshold: c.interest_threshold,
            limit_no_match_streak: c.limit_no_match_streak,
            memory_strategy,
            record_scorer,
        },
    )
}

/// Validates the configuration and the frames, and assembles the engine.
/// Construction succeeds exactly when every option is known, the weights
/// cover the schema, and the frames are an ordered, consistent set of at
/// least two.
pub fn build_tracking_engine(
    config: &TrackingConfig,
    record_schema: &RecordSchema,
    frames: Vec<Frame>,
) -> (r: Result<TrackingEngine, TrackingError>)
    requires
        forall|i: int| 0 <= i < frames@.len() ==> (#[trigger] frames@[i]).elems_wf(),
    ensures
        r is Ok <==> config_valid(*config, record_schema.fields@.len() as int) && frames_ok(
            frames@,
            record_schema.fields@.len() as int,
        ),
        r matches Ok(e) ==> e.wf() && e.frames@ == frames@ && e.trackers@.len() == 0
            && e.dead_tracking_chains@.len() == 0 && e.next_frame_idx == 1 && e.num_threads
            == config.num_threads && (e.resolver.resolving_strategy is BestMatch
            <==> config.resolver.resolving_strategy@ == "best_match"@),
{
    let nfields = record_schema.num_fields();
    if frames.len() < 2 {
        return Err(TrackingError::TooFewFrames);
    }
    let mut i: usize = 0;
    while i < frames.len()
        invariant
            frames@.len() >= 2,
            i <= frames@.len(),
            nfields == record_schema.fields@.len(),
            forall|k: int| 0 <= k < frames@.len() ==> (#[trigger] frames@[k]).elems_wf(),
            forall|k: int|
                0 <= k < i ==> (#[trigger] frames@[k]).shape_ok() && frames@[k].spec_idx() == k
                    && frames@[k].cols().len() == nfields,
        decreases frames@.len() - i,
    {
        if !frames[i].check_shape() {
            return Err(TrackingError::MalformedFrame);
        }
        if frames[i].idx() != i {
            return Err(TrackingError::FrameIndexMismatch);
        }
        if frames[i].num_features() != nfields {
            return Err(TrackingError::SchemaMismatch);
        }
        i += 1;
    }

    let resolver = match build_resolver(&config.resolver) {
        Ok(res) => res,
        Err(e) => {
            return Err(e);
        },
    };
    let calculators = match build_distance_calculators(&config.distance_metric, nfields) {
        Ok(v) => v,
        Err(e) => {
            return Err(e);
        },
    };
    let tracker_config = match cast_tracker_config(&config.tracker, nfields) {
        Ok(ic) => ic,
        Err(e) => {
            return Err(e);
        },
    };
    Ok(
        TrackingEngine::new(
            frames,
            resolver,
            calculators,
            tracker_config,
            IdGen::Random,
            config.num_threads,
        ),
    )
}

} // verus!
