use plagiarism_service::analysis::{analyze_plagiarism, ComparisonInput};
use plagiarism_service::similarity::Score;

fn percentage(s: &Score) -> f64 {
    if s.norm_a == 0 || s.norm_b == 0 {
        0.0
    } else {
        100.0 * s.dot as f64 / ((s.norm_a as f64 * s.norm_b as f64).sqrt())
    }
}

fn input(id: &str, text: &str) -> ComparisonInput {
    ComparisonInput { id: id.to_string(), text: text.to_string() }
}

#[test]
fn test_empty_comparison_list() {
    let result = analyze_plagiarism("sub-1", "any text at all", &vec![]).unwrap();
    assert_eq!(result.submission_id, "sub-1");
    assert_eq!(percentage(&result.overall), 0.0);
    assert!(!result.is_plagiarized);
    assert!(result.matches.is_empty());
    assert!(result.processing_time_ms < 5000);
}

#[test]
fn test_identical_text_scores_one_hundred() {
    let text = "the quick brown fox jumps over the lazy dog";
    let result = analyze_plagiarism("sub-2", text, &vec![input("cmp-1", text)]).unwrap();
    assert_eq!(percentage(&result.overall), 100.0);
    assert!(result.is_plagiarized);
    assert_eq!(result.matches.len(), 1);
    assert_eq!(result.matches[0].matched_id, "cmp-1");
    assert_eq!(percentage(&result.matches[0].score), 100.0);
    assert!(result.matches[0]
        .matched_phrases
        .contains(&"the quick brown fox jumps".to_string()));
}

#[test]
fn test_unrelated_text_is_dropped_entirely() {
    let result =
        analyze_plagiarism("sub-3", "hello world", &vec![input("cmp-1", "goodbye moon")]).unwrap();
    assert_eq!(percentage(&result.overall), 0.0);
    assert!(!result.is_plagiarized);
    assert!(result.matches.is_empty());
}

#[test]
fn test_two_comparisons_keep_order_and_take_maximum() {
    // Submission counts: a -> 2, b -> 1, so its squared norm is 5.
    // First comparison: dot 3, squared norm 80: exactly 15%.
    // Second comparison: dot 4, squared norm 5: exactly 80%.
    let submission = "a a b";
    let low = input("cmp-low", "a b c c c c c c c d d d d d e e");
    let high = input("cmp-high", "a b b");
    let result = analyze_plagiarism("sub-4", submission, &vec![low, high]).unwrap();
    assert_eq!(result.matches.len(), 2);
    assert_eq!(result.matches[0].matched_id, "cmp-low");
    assert_eq!(result.matches[1].matched_id, "cmp-high");
    assert_eq!(percentage(&result.matches[0].score), 15.0);
    assert_eq!(percentage(&result.matches[1].score), 80.0);
    assert_eq!(percentage(&result.overall), 80.0);
    assert!(result.is_plagiarized);
}

#[test]
fn test_at_threshold_is_not_significant() {
    // dot 4, norms 5 and 5: exactly 80%, which does not strictly
    // exceed 80 but does strictly exceed 70.
    let result =
        analyze_plagiarism("sub-5", "a a b", &vec![input("cmp-1", "a b b")]).unwrap();
    assert!(result.is_plagiarized);
    // Exactly 10% is dropped: submission "a b" against a comparison
    // built so the score is exactly 1/10.
    // dot = 2, na = 2, nb: need (2*2)/(2*nb) == 1/100, nb = 200.
    // counts: a 1, b 1, c 9, d 9, e 6: 1 + 1 + 81 + 81 + 36 = 200.
    let cmp_text = "a b c c c c c c c c c d d d d d d d d d e e e e e e";
    let result = analyze_plagiarism("sub-5b", "a b", &vec![input("cmp-2", cmp_text)]).unwrap();
    assert!(result.matches.is_empty());
    assert_eq!(percentage(&result.overall), 0.0);
    assert!(!result.is_plagiarized);
}

#[test]
fn test_oversized_submission_is_rejected() {
    let big = "a ".repeat(2_000_001);
    let result = analyze_plagiarism("sub-6", &big, &vec![input("cmp-1", "a b")]);
    assert!(result.is_none());
}

#[test]
fn test_oversized_comparison_is_rejected() {
    let big = "a ".repeat(2_000_001);
    let result = analyze_plagiarism("sub-7", "hello world", &vec![input("cmp-1", &big)]);
    assert!(result.is_none());
}

#[test]
fn test_oversized_text_accepted_without_comparisons() {
    let big = "a ".repeat(2_000_001);
    let result = analyze_plagiarism("sub-8", &big, &vec![]);
    assert!(result.is_some());
}
