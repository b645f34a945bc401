use askalono::NgramSet;

/// The Dice score of two profiles: twice the matched occurrences over the sum
/// of the two sizes. Two empty profiles score 0.0 by convention: no evidence
/// of similarity.
fn dice(a: &NgramSet, b: &NgramSet) -> f32 {
    let matches = a.match_count(b);
    let denominator = a.len() + b.len();
    if denominator == 0 {
        return 0.0;
    }
    (2.0 * matches as f32) / (denominator as f32)
}

#[test]
fn can_construct() {
    let set = NgramSet::new(2);
    assert_eq!(set.len(), 0);
    assert_eq!(set.sequence_length(), 2);
}

#[test]
fn fresh_profile_is_empty() {
    let set = NgramSet::new(3);
    assert_eq!(set.len(), 0);
    assert!(set.is_empty());
}

#[test]
fn counts_overlapping_bigrams() {
    let set = NgramSet::from_str("a b c d", 2);
    assert_eq!(set.get("a b"), 1);
    assert_eq!(set.get("b c"), 1);
    assert_eq!(set.get("c d"), 1);
    assert_eq!(set.len(), 3);
    assert!(!set.is_empty());
}

#[test]
fn absent_gram_counts_zero() {
    let set = NgramSet::from_str("a b c d", 2);
    assert_eq!(set.get("a c"), 0);
    assert_eq!(set.get(""), 0);
    assert_eq!(set.get("a"), 0);
}

#[test]
fn short_input_leaves_profile_unchanged() {
    let mut set = NgramSet::from_str("a b c", 2);
    assert_eq!(set.len(), 2);
    set.analyze("z");
    assert_eq!(set.len(), 2);
    assert_eq!(set.get("a b"), 1);
    let empty = NgramSet::from_str("only three words", 4);
    assert!(empty.is_empty());
}

#[test]
fn empty_text_yields_one_empty_token() {
    let set = NgramSet::from_str("", 1);
    assert_eq!(set.len(), 1);
    assert_eq!(set.get(""), 1);
    let set2 = NgramSet::from_str(" ", 2);
    assert_eq!(set2.len(), 1);
    assert_eq!(set2.get(" "), 1);
}

#[test]
fn analyze_accumulates_counts() {
    let mut twice = NgramSet::new(2);
    twice.analyze("a b c");
    twice.analyze("b c d");
    assert_eq!(twice.get("a b"), 1);
    assert_eq!(twice.get("b c"), 2);
    assert_eq!(twice.get("c d"), 1);
    assert_eq!(twice.len(), 4);
}

#[test]
fn similarity_is_symmetric() {
    let a = NgramSet::from_str("the quick brown fox jumps", 2);
    let b = NgramSet::from_str("the slow brown fox sleeps", 2);
    assert_eq!(a.match_count(&b), b.match_count(&a));
    assert_eq!(dice(&a, &b), dice(&b, &a));
    let small = NgramSet::from_str("brown fox", 2);
    let large = NgramSet::from_str("the quick brown fox jumps over the lazy dog", 2);
    assert_eq!(small.match_count(&large), 1);
    assert_eq!(large.match_count(&small), 1);
    assert_eq!(dice(&small, &large), dice(&large, &small));
}

#[test]
fn self_similarity_is_one() {
    let a = NgramSet::from_str("to be or not to be", 2);
    assert_eq!(dice(&a, &a), 1.0);
}

#[test]
fn mismatched_windows_score_zero() {
    let a = NgramSet::from_str("a b c", 2);
    let b = NgramSet::from_str("a b c", 3);
    assert_eq!(a.match_count(&b), 0);
    assert_eq!(dice(&a, &b), 0.0);
}

#[test]
fn disjoint_profiles_score_zero() {
    let a = NgramSet::from_str("a b", 2);
    let b = NgramSet::from_str("c d", 2);
    assert_eq!(a.match_count(&b), 0);
    assert_eq!(dice(&a, &b), 0.0);
}

#[test]
fn two_empty_profiles_score_zero() {
    let a = NgramSet::new(2);
    let b = NgramSet::new(2);
    assert_eq!(dice(&a, &b), 0.0);
}

#[test]
fn score_stays_within_bounds() {
    let texts = ["", "a", "a b", "a b a b", "x y z", "a b c d e"];
    for left in texts.iter() {
        for right in texts.iter() {
            let a = NgramSet::from_str(left, 2);
            let b = NgramSet::from_str(right, 2);
            let score = dice(&a, &b);
            assert!(0.0 <= score && score <= 1.0);
        }
    }
}

#[test]
fn repeated_phrases_match_by_minimum_count() {
    let a = NgramSet::from_str("a a a a", 1);
    let b = NgramSet::from_str("a a", 1);
    assert_eq!(a.get("a"), 4);
    assert_eq!(b.get("a"), 2);
    assert_eq!(a.match_count(&b), 2);
    let score = dice(&a, &b);
    assert!((score - 4.0 / 6.0).abs() < 1e-6);
}

#[test]
fn end_to_end_scenario() {
    let a = NgramSet::from_str("the quick brown fox", 2);
    let b = NgramSet::from_str("the quick brown dog", 2);
    assert_eq!(a.get("the quick"), 1);
    assert_eq!(a.get("quick brown"), 1);
    assert_eq!(a.get("brown fox"), 1);
    assert_eq!(a.len(), 3);
    assert_eq!(b.get("brown dog"), 1);
    assert_eq!(b.len(), 3);
    assert_eq!(a.match_count(&b), 2);
    let score = dice(&a, &b);
    assert!((score - 2.0 / 3.0).abs() < 1e-6);
}

#[test]
fn entries_lists_each_distinct_gram_once() {
    let set = NgramSet::from_str("a b a b a", 2);
    let mut pairs: Vec<(String, u32)> = set.entries().clone();
    pairs.sort();
    assert_eq!(pairs.len(), 2);
    assert_eq!(pairs[0].0, "a b");
    assert_eq!(pairs[0].1, 2);
    assert_eq!(pairs[1].0, "b a");
    assert_eq!(pairs[1].1, 2);
}
