//! The posting index and the word-order helpers, exercised directly.

use karkinos::index::PostingIndex;
use karkinos::order::str_has_prefix;
use karkinos::order::str_lex_le;
use karkinos::weights::sat_add;
use karkinos::weights::sat_mul;
use karkinos::weights::sat_sub;

#[test]
fn lexicographic_order_on_words() {
    assert!(str_lex_le("abc", "abd"));
    assert!(!str_lex_le("abd", "abc"));
    assert!(str_lex_le("ab", "abc"));
    assert!(str_lex_le("", "a"));
    assert!(str_lex_le("same", "same"));
}

#[test]
fn prefix_relation_on_words() {
    assert!(str_has_prefix("quietmisdreavus", "quie"));
    assert!(str_has_prefix("abc", ""));
    assert!(str_has_prefix("abc", "abc"));
    assert!(!str_has_prefix("abc", "abcd"));
    assert!(!str_has_prefix("abc", "b"));
}

#[test]
fn weight_arithmetic_clamps() {
    assert_eq!(sat_add(2, 3), 5);
    assert_eq!(sat_add(u64::MAX, 1), u64::MAX);
    assert_eq!(sat_mul(6, 7), 42);
    assert_eq!(sat_mul(u64::MAX, 2), u64::MAX);
    assert_eq!(sat_mul(u64::MAX, 0), 0);
    assert_eq!(sat_sub(5, 3), 2);
    assert_eq!(sat_sub(3, 5), 0);
}

#[test]
fn prefix_lookup_merges_words_sharing_prefix() {
    let mut p = PostingIndex::new();
    p.add_word(&"A".to_string(), "car".to_string(), 1);
    p.add_word(&"A".to_string(), "cart".to_string(), 2);
    p.add_word(&"B".to_string(), "cart".to_string(), 4);
    let merged = p.lookup_prefix("car");
    let mut sorted = merged.clone();
    sorted.sort();
    assert_eq!(
        sorted,
        vec![("A".to_string(), 3u64), ("B".to_string(), 4u64)]
    );
    let narrow = p.lookup_prefix("cart");
    let mut narrow_sorted = narrow.clone();
    narrow_sorted.sort();
    assert_eq!(
        narrow_sorted,
        vec![("A".to_string(), 2u64), ("B".to_string(), 4u64)]
    );
}

#[test]
fn exact_lookup_ignores_extensions() {
    let mut p = PostingIndex::new();
    p.add_word(&"A".to_string(), "car".to_string(), 1);
    p.add_word(&"A".to_string(), "cart".to_string(), 2);
    let exact = p.lookup_exact(&"car".to_string());
    assert_eq!(exact, vec![("A".to_string(), 1u64)]);
    let missing = p.lookup_exact(&"ca".to_string());
    assert!(missing.is_empty());
}

#[test]
fn removal_decrements_and_prunes() {
    let mut p = PostingIndex::new();
    p.add_word(&"A".to_string(), "rust".to_string(), 2);
    p.remove_word(&"A".to_string(), &"rust".to_string(), 1);
    assert_eq!(
        p.lookup_exact(&"rust".to_string()),
        vec![("A".to_string(), 1u64)]
    );
    p.remove_word(&"A".to_string(), &"rust".to_string(), 5);
    assert!(p.lookup_exact(&"rust".to_string()).is_empty());
    assert!(p.lookup_prefix("ru").is_empty());
}

#[test]
fn removal_keeps_other_keys() {
    let mut p = PostingIndex::new();
    p.add_word(&"A".to_string(), "word".to_string(), 2);
    p.add_word(&"B".to_string(), "word".to_string(), 3);
    p.remove_word(&"A".to_string(), &"word".to_string(), 2);
    assert_eq!(
        p.lookup_exact(&"word".to_string()),
        vec![("B".to_string(), 3u64)]
    );
}
