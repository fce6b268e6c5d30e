//! End-to-end behaviour of the search snapshot: normalization, weighting,
//! conjunctive matching, prefix search, ranking, and the correction
//! protocol.

use karkinos::norm::join_words;
use karkinos::norm::nfkd_case_fold;
use karkinos::norm::normalize;
use karkinos::search::SearchIndex;

fn key(s: &str) -> String {
    s.to_string()
}

#[test]
fn normalization_idempotent_ascii() {
    let first = normalize("Hello, World! rust-lang");
    let rejoined = join_words(&first);
    let second = normalize(&rejoined);
    assert_eq!(first, second);
}

#[test]
fn normalization_idempotent_unicode() {
    let first = normalize("Grüße STRASSE Café nœud");
    let rejoined = join_words(&first);
    let second = normalize(&rejoined);
    assert_eq!(first, second);
}

#[test]
fn fold_handles_expanding_case() {
    assert_eq!(nfkd_case_fold("Straße"), "strasse");
    assert_eq!(nfkd_case_fold("HELLO"), "hello");
}

#[test]
fn segmentation_drops_punctuation() {
    let words = normalize("hello, world!");
    assert_eq!(words, vec!["hello".to_string(), "world".to_string()]);
}

#[test]
fn join_words_spaces() {
    let words = vec!["a".to_string(), "b".to_string(), "c".to_string()];
    assert_eq!(join_words(&words), "a b c");
    let one = vec!["solo".to_string()];
    assert_eq!(join_words(&one), "solo");
    let none: Vec<String> = Vec::new();
    assert_eq!(join_words(&none), "");
}

#[test]
fn repeated_words_accumulate() {
    let mut s = SearchIndex::new();
    s.add(&key("A"), "rust rust", 1);
    let (results, correction) = s.query("rust");
    assert_eq!(results, vec![("A".to_string(), 2u64)]);
    assert!(correction.is_none());
}

#[test]
fn weights_accumulate_across_calls() {
    let mut s = SearchIndex::new();
    s.add(&key("A"), "rust", 3);
    s.add(&key("A"), "rust", 4);
    let (results, _) = s.query("rust");
    assert_eq!(results, vec![("A".to_string(), 7u64)]);
}

#[test]
fn conjunctive_and_semantics() {
    let mut s = SearchIndex::new();
    s.add(&key("A"), "alice smith", 1);
    s.add(&key("B"), "alice jones", 1);
    let (both_words, _) = s.query("alice smith");
    assert_eq!(both_words, vec![("A".to_string(), 1u64)]);
    let (one_word, _) = s.query("alice");
    assert_eq!(
        one_word,
        vec![("A".to_string(), 1u64), ("B".to_string(), 1u64)]
    );
}

#[test]
fn prefix_matches_indexed_word() {
    let mut s = SearchIndex::new();
    s.add(&key("A"), "QuietMisdreavus", 1);
    let (results, correction) = s.query("quie");
    assert_eq!(results, vec![("A".to_string(), 1u64)]);
    assert!(correction.is_none());
}

#[test]
fn case_and_diacritics_fold_together() {
    let mut s = SearchIndex::new();
    s.add(&key("A"), "CAFÉ", 1);
    let (lower, _) = s.query("cafe");
    let (accent, _) = s.query("café");
    let (upper, _) = s.query("CAFE");
    assert_eq!(lower, vec![("A".to_string(), 1u64)]);
    assert_eq!(accent, vec![("A".to_string(), 1u64)]);
    assert_eq!(upper, vec![("A".to_string(), 1u64)]);
}

#[test]
fn heavier_key_ranks_first() {
    let mut s = SearchIndex::new();
    s.add(&key("A"), "name", 20);
    s.add(&key("B"), "name", 1);
    let (results, _) = s.query("name");
    assert_eq!(
        results,
        vec![("A".to_string(), 20u64), ("B".to_string(), 1u64)]
    );
}

#[test]
fn equal_weights_rank_by_key() {
    let mut s = SearchIndex::new();
    s.add(&key("zed"), "term", 5);
    s.add(&key("amy"), "term", 5);
    let (results, _) = s.query("term");
    assert_eq!(
        results,
        vec![("amy".to_string(), 5u64), ("zed".to_string(), 5u64)]
    );
}

#[test]
fn correction_fires_only_on_empty_exact_match() {
    let mut s = SearchIndex::new();
    s.add(&key("A"), "Quiet Misdreavus", 1);
    let (fixed, correction) = s.query("quiet misdreavis");
    assert_eq!(fixed, vec![("A".to_string(), 1u64)]);
    let corrected_query = correction.expect("a correction should be reported");
    assert_eq!(corrected_query, "quiet misdreavus");
    let (exact, no_correction) = s.query("quiet misdreavus");
    assert_eq!(exact, vec![("A".to_string(), 1u64)]);
    assert!(no_correction.is_none());
}

#[test]
fn hopeless_query_stays_empty_without_correction() {
    let mut s = SearchIndex::new();
    s.add(&key("A"), "Quiet Misdreavus", 1);
    let (results, correction) = s.query("zzzzzzzzzz qqqqqqqqqq");
    assert!(results.is_empty());
    assert!(correction.is_none());
}

#[test]
fn empty_query_matches_nothing() {
    let mut s = SearchIndex::new();
    s.add(&key("A"), "anything", 1);
    let (results, correction) = s.query("");
    assert!(results.is_empty());
    assert!(correction.is_none());
    let (blank, blank_correction) = s.query("   ");
    assert!(blank.is_empty());
    assert!(blank_correction.is_none());
}

#[test]
fn empty_index_matches_nothing() {
    let s = SearchIndex::new();
    let (results, correction) = s.query("anything");
    assert!(results.is_empty());
    assert!(correction.is_none());
}

#[test]
fn zero_weight_insertion_is_invisible() {
    let mut s = SearchIndex::new();
    s.add(&key("A"), "ghost", 0);
    let (results, correction) = s.query("ghost");
    assert!(results.is_empty());
    assert!(correction.is_none());
}

#[test]
fn build_ingests_a_whole_batch() {
    let records = vec![
        ("A".to_string(), "alice smith".to_string(), 2u64),
        ("B".to_string(), "alice jones".to_string(), 1u64),
        ("A".to_string(), "alice".to_string(), 3u64),
    ];
    let s = SearchIndex::build(&records);
    let (results, _) = s.query("alice");
    assert_eq!(
        results,
        vec![("A".to_string(), 5u64), ("B".to_string(), 1u64)]
    );
}

#[test]
fn nearest_prefers_smallest_distance_then_key() {
    let mut s = SearchIndex::new();
    s.add(&key("A"), "cat car cart", 1);
    let close = karkinos::matcher::nearest(&s.tree, "caz", 3);
    assert_eq!(close, Some("car".to_string()));
    let exact = karkinos::matcher::nearest(&s.tree, "cart", 3);
    assert_eq!(exact, Some("cart".to_string()));
    let far = karkinos::matcher::nearest(&s.tree, "zzzzzz", 3);
    assert_eq!(far, None);
}

#[test]
fn query_is_reproducible() {
    let mut s = SearchIndex::new();
    s.add(&key("A"), "alpha beta", 2);
    s.add(&key("B"), "alpha", 7);
    let first = s.query("alpha");
    let second = s.query("alpha");
    assert_eq!(first.0, second.0);
    assert_eq!(first.1, second.1);
}
