//! End-to-end tracking scenarios, configuration validation, and the smaller
//! building blocks: memories, scorers, the distance cache and the median
//! word.

use blitzbeaver::api::execute_tracking_process;
use blitzbeaver::casting::{build_tracking_engine, TrackingError};
use blitzbeaver::config::{
    DistanceMetricConfig, RecordScorerConfig, ResolverConfig, TrackerConfig, TrackingConfig,
};
use blitzbeaver::distances::distance_calculator::{
    CachedDistanceCalculator, CachedDistanceCalculatorWord,
};
use blitzbeaver::distances::distance_matrix::DistanceMatrix;
use blitzbeaver::distances::distance_metric::{LvDistanceMetric, WordMetric};
use blitzbeaver::distances::median_word::compute_median_word;
use blitzbeaver::evaluation::tracking_graph::{
    eval_tracking_chain_length, eval_tracking_graph_properties, median,
};
use blitzbeaver::frame::{Element, Frame};
use blitzbeaver::id::IdGen;
use blitzbeaver::record::{ElementType, FieldSchema, RecordSchema};
use blitzbeaver::tracking_graph::TrackingGraph;
use blitzbeaver::trackers::record_scorer::AverageRecordScorer;
use blitzbeaver::trackers::tracker_memory::{
    BruteForceMemory, LongShortTermMemory, InnerMemory, MedianWordMemory, MostFrequentMemory,
};
use blitzbeaver::word::Word;

fn word_el(s: &str) -> Element {
    Element::Word(Word::new(s.to_string()))
}

fn frame_of(idx: usize, columns: Vec<Vec<&str>>) -> Frame {
    Frame::new(
        idx,
        columns
            .into_iter()
            .map(|col| col.into_iter().map(word_el).collect())
            .collect(),
    )
}

fn schema(n: usize) -> RecordSchema {
    RecordSchema::new(
        (0..n)
            .map(|i| FieldSchema::new(format!("f{}", i), ElementType::String))
            .collect(),
    )
}

fn config(threshold: u64) -> TrackingConfig {
    TrackingConfig::py_new(
        1,
        TrackerConfig::py_new(
            threshold,
            5,
            "bruteforce".to_string(),
            RecordScorerConfig::py_new("average".to_string(), None, None),
        ),
        DistanceMetricConfig::py_new("lv".to_string(), 4, None, None),
        ResolverConfig::py_new("best_match".to_string()),
    )
}

/// The sorted (frame, record) node lists of every chain the root points at.
fn chain_node_sets(graph: &TrackingGraph) -> Vec<Vec<(usize, usize)>> {
    let mut chains: Vec<Vec<(usize, usize)>> = graph
        .root
        .outs
        .iter()
        .map(|(id, _)| {
            graph
                .build_tracking_chain(*id)
                .nodes
                .iter()
                .map(|n| (n.frame_idx, n.record_idx))
                .collect()
        })
        .collect();
    chains.sort();
    chains
}

#[test]
fn test_two_frame_identity() {
    let frames = vec![frame_of(0, vec![vec!["ann"]]), frame_of(1, vec![vec!["ann"]])];
    let (graph, _diag) = execute_tracking_process(&config(500000), &schema(1), frames).unwrap();
    assert_eq!(chain_node_sets(&graph), vec![vec![(0, 0), (1, 0)]]);
}

#[test]
fn test_one_insertion_edit() {
    let frames = vec![
        frame_of(0, vec![vec!["bernart"]]),
        frame_of(1, vec![vec!["bernard"]]),
    ];
    let (graph, _diag) = execute_tracking_process(&config(500000), &schema(1), frames).unwrap();
    assert_eq!(chain_node_sets(&graph), vec![vec![(0, 0), (1, 0)]]);
}

#[test]
fn test_spawn_on_unmatched() {
    let frames = vec![
        frame_of(0, vec![vec!["x"]]),
        frame_of(1, vec![vec!["x", "y"]]),
    ];
    let (graph, _diag) = execute_tracking_process(&config(500000), &schema(1), frames).unwrap();
    assert_eq!(
        chain_node_sets(&graph),
        vec![vec![(0, 0), (1, 0)], vec![(1, 1)]]
    );
}

#[test]
fn test_conflict_resolved_to_best() {
    let frames = vec![
        frame_of(0, vec![vec!["ann", "anna"]]),
        frame_of(1, vec![vec!["ann"]]),
    ];
    let (graph, _diag) = execute_tracking_process(&config(500000), &schema(1), frames).unwrap();
    // Tracker 0 scores 1.0 on the lone record, tracker 1 scores 0.75: the
    // record goes to tracker 0 and tracker 1 keeps its single-node chain.
    assert_eq!(
        chain_node_sets(&graph),
        vec![vec![(0, 0), (1, 0)], vec![(0, 1)]]
    );
}

fn run_with_threads(num_threads: usize) -> TrackingGraph {
    let frames = vec![
        frame_of(0, vec![vec!["ann", "bernart", "carl"]]),
        frame_of(1, vec![vec!["anna", "bernard", "karl"]]),
        frame_of(2, vec![vec!["carla", "ann", "bernhard"]]),
    ];
    let cfg = TrackingConfig::py_new(
        num_threads,
        TrackerConfig::py_new(
            500000,
            5,
            "lsbruteforce".to_string(),
            RecordScorerConfig::py_new("average".to_string(), None, None),
        ),
        DistanceMetricConfig::py_new("lv".to_string(), 1, None, None),
        ResolverConfig::py_new("best_match".to_string()),
    );
    let sch = schema(1);
    let mut engine = build_tracking_engine(&cfg, &sch, frames).unwrap();
    // A deterministic identifier source makes the runs comparable.
    engine.id_gen = IdGen::Sequential(0);
    engine.initialize_trackers();
    while engine.next_frame_idx < engine.frames.len() {
        engine.process_next_frame();
    }
    let chains = engine.collect_tracking_chains();
    TrackingGraph::from_tracking_chains(&engine.frames, chains)
}

#[test]
fn test_cache_determinism() {
    // The same inputs, whatever the thread count, give byte-identical graphs.
    let g1 = run_with_threads(1);
    let g4 = run_with_threads(4);
    assert_eq!(g1.to_bytes(), g4.to_bytes());
}

#[test]
fn test_graph_round_trip() {
    // bytes -> graph -> bytes reproduces the bytes exactly.
    let g = run_with_threads(1);
    let bytes = g.to_bytes();
    let decoded = TrackingGraph::from_bytes(&bytes).unwrap();
    assert_eq!(decoded.to_bytes(), bytes);
    // A truncated stream is rejected.
    assert!(TrackingGraph::from_bytes(&bytes[..bytes.len() - 1]).is_none());
    assert!(TrackingGraph::from_bytes(&bytes[..bytes.len() - 8]).is_none());
}

#[test]
fn test_config_errors() {
    let frames = || vec![frame_of(0, vec![vec!["a"]]), frame_of(1, vec![vec!["a"]])];
    let sch = schema(1);

    let mut c = config(500000);
    c.resolver = ResolverConfig::py_new("other".to_string());
    assert_eq!(
        build_tracking_engine(&c, &sch, frames()).err(),
        Some(TrackingError::UnknownResolvingStrategy)
    );

    let mut c = config(500000);
    c.distance_metric = DistanceMetricConfig::py_new("unknown".to_string(), 4, None, None);
    assert_eq!(
        build_tracking_engine(&c, &sch, frames()).err(),
        Some(TrackingError::UnknownDistanceMetric)
    );

    let mut c = config(500000);
    c.distance_metric = DistanceMetricConfig::py_new("lvsubstring".to_string(), 4, None, None);
    assert_eq!(
        build_tracking_engine(&c, &sch, frames()).err(),
        Some(TrackingError::MissingSubstringWeight)
    );

    let mut c = config(500000);
    c.tracker.memory_strategy = "forgetful".to_string();
    assert_eq!(
        build_tracking_engine(&c, &sch, frames()).err(),
        Some(TrackingError::UnknownMemoryStrategy)
    );

    let mut c = config(500000);
    c.tracker.record_scorer = RecordScorerConfig::py_new("product".to_string(), None, None);
    assert_eq!(
        build_tracking_engine(&c, &sch, frames()).err(),
        Some(TrackingError::UnknownRecordScorer)
    );

    let mut c = config(500000);
    c.tracker.record_scorer =
        RecordScorerConfig::py_new("weighted_average".to_string(), None, None);
    assert_eq!(
        build_tracking_engine(&c, &sch, frames()).err(),
        Some(TrackingError::MissingWeights)
    );

    let mut c = config(500000);
    c.tracker.record_scorer =
        RecordScorerConfig::py_new("weighted_average".to_string(), Some(vec![1, 2]), None);
    assert_eq!(
        build_tracking_engine(&c, &sch, frames()).err(),
        Some(TrackingError::WeightCountMismatch)
    );

    let mut c = config(500000);
    c.tracker.record_scorer = RecordScorerConfig::py_new(
        "weighted_average".to_string(),
        Some(vec![1]),
        Some(2000000),
    );
    assert_eq!(
        build_tracking_engine(&c, &sch, frames()).err(),
        Some(TrackingError::RatioOutOfRange)
    );

    let c = config(2000000);
    assert_eq!(
        build_tracking_engine(&c, &sch, frames()).err(),
        Some(TrackingError::ThresholdOutOfRange)
    );

    let c = config(500000);
    assert_eq!(
        build_tracking_engine(&c, &sch, vec![frame_of(0, vec![vec!["a"]])]).err(),
        Some(TrackingError::TooFewFrames)
    );

    // Columns of different lengths.
    let bad = Frame::new(0, vec![vec![word_el("a")], vec![]]);
    assert_eq!(
        build_tracking_engine(&config(500000), &schema(2), vec![bad, frame_of(1, vec![vec!["a"], vec!["b"]])])
            .err(),
        Some(TrackingError::MalformedFrame)
    );

    // Frame indices out of order.
    assert_eq!(
        build_tracking_engine(
            &config(500000),
            &sch,
            vec![frame_of(0, vec![vec!["a"]]), frame_of(5, vec![vec!["a"]])]
        )
        .err(),
        Some(TrackingError::FrameIndexMismatch)
    );

    // Wrong field count.
    assert_eq!(
        build_tracking_engine(&config(500000), &schema(2), frames()).err(),
        Some(TrackingError::SchemaMismatch)
    );
}

#[test]
fn test_memories() {
    let mut m = BruteForceMemory::new();
    m.signal_matching_element(word_el("a"));
    m.signal_matching_element(Element::Missing);
    m.signal_matching_element(word_el("b"));
    let els = m.get_elements();
    assert_eq!(els.len(), 2);

    let mut m = MostFrequentMemory::new();
    m.signal_matching_element(word_el("x"));
    m.signal_matching_element(word_el("y"));
    m.signal_matching_element(word_el("x"));
    let els = m.get_elements();
    assert_eq!(els.len(), 1);
    match &els[0] {
        Element::Word(w) => assert_eq!(w.raw, "x"),
        _ => panic!("expected a word"),
    }

    let mut m = MedianWordMemory::new();
    m.signal_matching_element(word_el("ann"));
    m.signal_matching_element(word_el("anna"));
    m.signal_matching_element(word_el("ann"));
    let els = m.get_elements();
    assert_eq!(els.len(), 1);
    match &els[0] {
        Element::Word(w) => assert_eq!(w.raw, "ann"),
        _ => panic!("expected a word"),
    }

    // The latest element rides beside the long-term memory and slides into
    // it on the next match.
    let mut m = LongShortTermMemory::new(InnerMemory::BruteForce(BruteForceMemory::new()));
    m.signal_matching_element(word_el("a"));
    assert_eq!(m.get_elements().len(), 1);
    m.signal_matching_element(word_el("b"));
    assert_eq!(m.get_elements().len(), 2);
}

#[test]
fn test_median_word() {
    let words: Vec<Word> = ["ann", "anna", "ann"]
        .iter()
        .map(|s| Word::new(s.to_string()))
        .collect();
    let m = compute_median_word(&words).unwrap();
    assert_eq!(m.raw, "ann");
    assert!(compute_median_word(&Vec::new()).is_none());
}

#[test]
fn test_average_scorer() {
    let scorer = AverageRecordScorer::new();
    assert_eq!(scorer.score(&vec![Some(800000), None, Some(400000)]), 600000);
    assert_eq!(scorer.score(&vec![None, None]), 0);
    assert_eq!(scorer.score(&Vec::new()), 0);
}

#[test]
fn test_distance_matrix() {
    let mut m = DistanceMatrix::new();
    assert_eq!(m.size(), 0);
    let a = "ann".to_string();
    let b = "anna".to_string();
    m.set(&a, &b, 750000);
    assert_eq!(m.size(), 1);
    assert_eq!(m.get(&a, &b), Some(750000));
    // Lookups ignore the orientation of the pair.
    assert_eq!(m.get(&b, &a), Some(750000));
    assert_eq!(m.get(&a, &a), None);
    m.clear();
    assert_eq!(m.size(), 0);
}

#[test]
fn test_cached_calculator_agrees_with_metric() {
    let metric = LvDistanceMetric::new();
    let w1 = Word::new("bernart".to_string());
    let w2 = Word::new("bernard".to_string());
    let direct = metric.dist(&w1, &w2);

    let mut calc = CachedDistanceCalculatorWord::new(WordMetric::Lv(LvDistanceMetric::new()), 1);
    let col1 = vec![word_el("bernart")];
    let col2 = vec![word_el("bernard")];
    calc.precompute(&col1, &col2);
    // A cache hit and a fresh computation agree.
    assert_eq!(calc.get_dist(&w1, &w2), direct);
    calc.clear_cache();
    assert_eq!(calc.get_dist(&w1, &w2), direct);

    let calc2 = CachedDistanceCalculator::Word(CachedDistanceCalculatorWord::new(
        WordMetric::Lv(LvDistanceMetric::new()),
        1,
    ));
    assert_eq!(calc2.get_dist(&word_el("bernart"), &word_el("bernard")), Some(direct));
    assert_eq!(calc2.get_dist(&word_el("bernart"), &Element::Missing), None);
}

#[test]
fn test_sequential_ids() {
    let mut gen = IdGen::Sequential(7);
    assert_eq!(gen.next(), (0, 7));
    assert_eq!(gen.next(), (0, 8));
    let mut rand = IdGen::Random;
    assert_ne!(rand.next(), rand.next());
}

#[test]
fn test_eval_metrics() {
    let frames = vec![
        frame_of(0, vec![vec!["x"]]),
        frame_of(1, vec![vec!["x", "y"]]),
    ];
    let (graph, _diag) = execute_tracking_process(&config(500000), &schema(1), frames).unwrap();
    let lengths = eval_tracking_chain_length(&graph);
    assert_eq!(lengths.count, 2);
    assert_eq!(lengths.max, 2);
    assert_eq!(lengths.min, 1);
    assert_eq!(lengths.total, 3);

    let props = eval_tracking_graph_properties(&graph);
    assert_eq!(props.match_counts.len(), 2);
    assert_eq!(props.match_counts[1], (1, 2));
    assert_eq!(props.conflict_counts[1], (0, 2));

    assert_eq!(median(&vec![1, 2, 3]), 2);
    assert_eq!(median(&vec![1, 2, 3, 4]), 2);
}

#[test]
fn test_graph_decode_rejects_garbage() {
    let g = run_with_threads(1);
    let mut bytes = g.to_bytes();
    // Trailing words after a complete graph are rejected.
    let mut extended = bytes.clone();
    extended.extend_from_slice(&[0u8; 8]);
    assert!(TrackingGraph::from_bytes(&extended).is_none());
    // An absurd edge count in the root is rejected.
    bytes[0] = 0xFF;
    bytes[7] = 0xFF;
    assert!(TrackingGraph::from_bytes(&bytes).is_none());
}
