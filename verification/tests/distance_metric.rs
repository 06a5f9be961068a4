//! Edit counts and similarities of the word metrics on concrete words.

use blitzbeaver::distances::distance::{
    DummyDistance, Edit, LvDistance, LvMultiDistance, LvOptiDistance,
};
use blitzbeaver::distances::distance_metric::{
    LvDistanceMetric, LvOptiDistanceMetric, LvSubstringDistanceMetric, SCORE_ONE,
};
use blitzbeaver::word::Word;

fn create_word(s: &str) -> Word {
    Word::new(s.to_string())
}

#[test]
fn test_lv_distance_metric_metric() {
    let metric = LvDistanceMetric::new();

    // Test identical words
    let w1 = create_word("hello");
    let w2 = create_word("hello");
    let distance = metric.compute_edits(&w1, &w2);
    assert_eq!(distance, 0);
    // Test one empty word
    let w2 = create_word("");
    let distance = metric.compute_edits(&w1, &w2);
    assert_eq!(distance, 5);

    // Test single character difference
    let w2 = create_word("hallo");
    let distance = metric.compute_edits(&w1, &w2);
    assert_eq!(distance, 1);

    // Test different lengths
    let w2 = create_word("helloworld");
    let distance = metric.compute_edits(&w1, &w2);
    assert_eq!(distance, 5);

    // Test partial overlap
    let w1 = create_word("bernart");
    let w2 = create_word("jeanbernard");
    let distance = metric.compute_edits(&w1, &w2);
    assert_eq!(distance, 5);

    // Test case sensitivity
    let w1 = create_word("Hello");
    let w2 = create_word("hello");
    let distance = metric.compute_edits(&w1, &w2);
    assert_eq!(distance, 1);

    let w1 = create_word("Bernard");
    let w2 = create_word("bBeernard");
    let distance = metric.compute_edits(&w1, &w2);
    assert_eq!(distance, 2);
}

#[test]
fn test_lv_opti_distance_metric_metric() {
    let metric = LvOptiDistanceMetric::new();

    // Test identical words
    let w1 = create_word("hello");
    let w2 = create_word("hello");
    let distance = metric.compute_edits(&w1, &w2);
    assert_eq!(distance, 0);
    // Test one empty word
    let w2 = create_word("");
    let distance = metric.compute_edits(&w1, &w2);
    assert_eq!(distance, 5);

    // Test single character difference
    let w2 = create_word("hallo");
    let distance = metric.compute_edits(&w1, &w2);
    assert_eq!(distance, 1);

    // Test different lengths
    let w2 = create_word("helloworld");
    let distance = metric.compute_edits(&w1, &w2);
    assert_eq!(distance, 5);

    // Test partial overlap
    let w1 = create_word("bernart");
    let w2 = create_word("jeanbernard");
    let distance = metric.compute_edits(&w1, &w2);
    assert_eq!(distance, 5);

    // Test case sensitivity
    let w1 = create_word("Hello");
    let w2 = create_word("hello");
    let distance = metric.compute_edits(&w1, &w2);
    assert_eq!(distance, 1);

    let w1 = create_word("Bernard");
    let w2 = create_word("bBeernard");
    let distance = metric.compute_edits(&w1, &w2);
    assert_eq!(distance, 2);
}

#[test]
fn test_lv_substring_metric_metric() {
    let metric = LvSubstringDistanceMetric::new(1000);

    // Test identical words
    let w1 = create_word("hello");
    let w2 = create_word("hello");
    let (distance, longest) = metric.compute_edits(&w1, &w2);
    assert_eq!(distance, 0);
    assert_eq!(longest, 5);

    // Test one empty word
    let w2 = create_word("");
    let (distance, longest) = metric.compute_edits(&w1, &w2);
    assert_eq!(distance, 5);
    assert_eq!(longest, 0);

    // Test single character difference
    let w2 = create_word("hallo");
    let (distance, longest) = metric.compute_edits(&w1, &w2);
    assert_eq!(distance, 1);
    assert_eq!(longest, 3);

    // Test different lengths
    let w2 = create_word("helloworld");
    let (distance, longest) = metric.compute_edits(&w1, &w2);
    assert_eq!(distance, 5);
    assert_eq!(longest, 5);

    // Test partial overlap
    let w1 = create_word("bernart");
    let w2 = create_word("jeanbernard");
    let (distance, longest) = metric.compute_edits(&w1, &w2);
    assert_eq!(distance, 5);
    assert_eq!(longest, 6);

    // Test case sensitivity
    let w1 = create_word("Hello");
    let w2 = create_word("hello");
    let (distance, longest) = metric.compute_edits(&w1, &w2);
    assert_eq!(distance, 1);
    assert_eq!(longest, 4);

    let w1 = create_word("Bernard");
    let w2 = create_word("bBeernard");
    let (distance, longest) = metric.compute_edits(&w1, &w2);
    assert_eq!(distance, 2);
    assert_eq!(longest, 6);
}

#[test]
fn test_metric_properties_on_words() {
    // Reflexivity, symmetry and range on concrete words, for each metric.
    let a = create_word("bernart");
    let b = create_word("jeanbernard");

    let lv = LvDistanceMetric::new();
    assert_eq!(lv.dist(&a, &a), SCORE_ONE);
    assert_eq!(lv.dist(&a, &b), lv.dist(&b, &a));
    assert!(lv.dist(&a, &b) <= SCORE_ONE);

    let opti = LvOptiDistanceMetric::new();
    assert_eq!(opti.dist(&a, &a), SCORE_ONE);
    assert_eq!(opti.dist(&a, &b), opti.dist(&b, &a));
    assert!(opti.dist(&a, &b) <= SCORE_ONE);

    let sub = LvSubstringDistanceMetric::new(500);
    assert_eq!(sub.dist(&a, &a), SCORE_ONE);
    assert_eq!(sub.dist(&a, &b), sub.dist(&b, &a));
    assert!(sub.dist(&a, &b) <= SCORE_ONE);

    // One insertion among seven bytes: similarity 1 - 1/7, rounded down.
    let t = create_word("bernart");
    let d = create_word("bernard");
    assert_eq!(lv.dist(&t, &d), 857142);

    // Two empty words are fully similar.
    let e1 = create_word("");
    let e2 = create_word("");
    assert_eq!(lv.dist(&e1, &e2), SCORE_ONE);
    // A word against an empty word: nothing survives.
    assert_eq!(lv.dist(&a, &e1), 0);
}

#[test]
fn test_word_packing() {
    // One code per grapheme cluster, packed big-endian from the UTF-8 bytes.
    let w = create_word("hello");
    assert_eq!(w.graphemes.len(), 5);
    assert_eq!(w.graphemes[0], 'h' as u64);
    let pair = Word::pack_big_endian(&[1u8, 2u8]);
    assert_eq!(pair, 258);
    let empty = create_word("");
    assert_eq!(empty.graphemes.len(), 0);
}

#[test]
fn test_word_distances() {
    // The word-level distance API agrees with the metric types.
    let metric = LvMultiDistance::new();
    let e = metric.compute_edits("hello", "hallo");
    assert_eq!(e.tot(), 1);
    let e = metric.compute_edits("hello", "");
    assert_eq!(e.tot(), 5);
    assert_eq!(e.insertion + e.deletion + e.substitution, 5);
    assert_eq!(Edit::new().tot(), 0);
    assert_eq!(metric.dist("bernart", "bernard"), 857142);

    let w1 = create_word("bernart");
    let w2 = create_word("jeanbernard");
    assert_eq!(LvDistance::new().compute_edits(&w1, &w2), 5);
    assert_eq!(LvOptiDistance::new().compute_edits(&w1, &w2), 5);
    assert_eq!(LvDistance::new().dist(&w1, &w1), SCORE_ONE);
    assert_eq!(LvOptiDistance::new().dist(&w1, &w1), SCORE_ONE);
    assert_eq!(DummyDistance.dist("a", "b"), 900000);
}
