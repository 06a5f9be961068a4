//! Best-match resolution on hand-built score tables.

use blitzbeaver::frame::{Element, Frame};
use blitzbeaver::id::IdGen;
use blitzbeaver::resolvers::best_match_resolving_strategy::BestMatchResolvingStrategy;
use blitzbeaver::resolvers::resolver::{Resolver, ResolvingStrategy};
use blitzbeaver::trackers::tracker::{
    InternalTrackerConfig, RecordScore, Tracker, TrackerMemoryStrategy, TrackerRecordScorerConfig,
};

fn build_frame(num_records: usize, num_features: usize) -> Frame {
    Frame::new(
        0,
        (0..num_features)
            .map(|_| (0..num_records).map(|_| Element::Missing).collect())
            .collect(),
    )
}

fn tracker_config() -> InternalTrackerConfig {
    InternalTrackerConfig {
        interest_threshold: 700000,
        limit_no_match_streak: 5,
        memory_strategy: TrackerMemoryStrategy::BruteForce,
        record_scorer: TrackerRecordScorerConfig::Average,
    }
}

/// Resolves the trackers with the given scores; returns the trackers and the
/// freshly spawned ones.
fn resolve(
    num_records: usize,
    num_features: usize,
    trackers_scores: Vec<Vec<RecordScore>>,
) -> (Vec<Tracker>, Vec<Tracker>) {
    let mut resolver = Resolver::new(ResolvingStrategy::BestMatch(BestMatchResolvingStrategy {}));
    let config = tracker_config();
    let mut id_gen = IdGen::Sequential(0);

    let mut trackers: Vec<Tracker> = (0..trackers_scores.len())
        .map(|k| Tracker::new(
            InternalTrackerConfig {
                interest_threshold: config.interest_threshold,
                limit_no_match_streak: config.limit_no_match_streak,
                memory_strategy: config.memory_strategy,
                record_scorer: TrackerRecordScorerConfig::Average,
            },
            num_features,
            (1, k as u64),
        ))
        .collect();

    let frame = build_frame(num_records, num_features);
    let new_trackers = resolver.resolve(&frame, &config, &mut id_gen, &mut trackers, &trackers_scores);
    (trackers, new_trackers)
}

fn tracker_no_match(tracker: &Tracker) -> bool {
    tracker.get_tracking_chain().nodes.is_empty()
}

fn tracker_matched_with(tracker: &Tracker, record_idx: usize) -> bool {
    match tracker.get_tracking_chain().nodes.first() {
        Some(node) => node.record_idx == record_idx,
        None => false,
    }
}

fn rs(idx: usize, score: u64) -> RecordScore {
    RecordScore { idx, score }
}

#[test]
fn test_ideal_setup() {
    let num_records = 3;
    let num_features = 3;
    let trackers_scores = vec![
        vec![rs(0, 800000), rs(1, 600000), rs(2, 500000)],
        vec![rs(0, 600000), rs(1, 800000), rs(2, 500000)],
        vec![rs(0, 500000), rs(1, 600000), rs(2, 800000)],
    ];

    let (trackers, new_trackers) = resolve(num_records, num_features, trackers_scores);

    assert!(new_trackers.is_empty());
    assert_eq!(trackers.len(), 3);

    assert!(tracker_matched_with(&trackers[0], 0));
    assert!(tracker_matched_with(&trackers[1], 1));
    assert!(tracker_matched_with(&trackers[2], 2));
}

#[test]
fn test_new_trackers() {
    let num_records = 3;
    let num_features = 3;
    let trackers_scores = vec![vec![], vec![], vec![]];

    let (trackers, new_trackers) = resolve(num_records, num_features, trackers_scores);

    assert_eq!(new_trackers.len(), 3);
    assert_eq!(trackers.len(), 3);

    assert!(tracker_matched_with(&new_trackers[0], 0));
    assert!(tracker_matched_with(&new_trackers[1], 1));
    assert!(tracker_matched_with(&new_trackers[2], 2));
}

#[test]
fn test_suboptimal_setup() {
    let num_records = 3;
    let num_features = 3;
    let trackers_scores = vec![
        // tracker 0 doesn't match
        vec![rs(0, 600000), rs(1, 500000), rs(2, 300000)],
        // tracker 1 matches record 0
        vec![rs(0, 800000), rs(1, 600000), rs(2, 500000)],
        // tracker 2 matches record 1 (suboptimal)
        vec![rs(0, 700000), rs(1, 600000), rs(2, 500000)],
        // tracker 3 matches record 2 (suboptimal)
        vec![rs(0, 600000), rs(1, 500000), rs(2, 400000)],
    ];

    let (trackers, new_trackers) = resolve(num_records, num_features, trackers_scores);

    assert!(new_trackers.is_empty());
    assert_eq!(trackers.len(), 4);

    assert!(tracker_no_match(&trackers[0]));
    assert!(tracker_matched_with(&trackers[1], 0));
    assert!(tracker_matched_with(&trackers[2], 1));
    assert!(tracker_matched_with(&trackers[3], 2));
}

#[test]
fn test_standby_resolution() {
    // Three trackers and three records, each tracker best on its own record:
    // the diagonal assignment falls out after one round of standby waits.
    let trackers_scores = vec![
        vec![rs(0, 800000), rs(1, 600000), rs(2, 500000)],
        vec![rs(1, 800000), rs(0, 600000), rs(2, 500000)],
        vec![rs(2, 800000), rs(1, 600000), rs(0, 500000)],
    ];
    let (trackers, new_trackers) = resolve(3, 3, trackers_scores);
    assert!(new_trackers.is_empty());
    assert!(tracker_matched_with(&trackers[0], 0));
    assert!(tracker_matched_with(&trackers[1], 1));
    assert!(tracker_matched_with(&trackers[2], 2));
}
