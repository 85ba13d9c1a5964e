use plagiarism_service::similarity::{cosine_similarity, Score};
use plagiarism_service::tfidf::TfIdfCalculator;

fn percentage(s: &Score) -> f64 {
    if s.norm_a == 0 || s.norm_b == 0 {
        0.0
    } else {
        100.0 * s.dot as f64 / ((s.norm_a as f64 * s.norm_b as f64).sqrt())
    }
}

#[test]
fn test_cosine_similarity_identical() {
    let calculator = TfIdfCalculator::new();
    let vec1 = calculator.calculate("hello world");
    let similarity = percentage(&cosine_similarity(&vec1, &vec1)) / 100.0;
    assert!((similarity - 1.0).abs() < 0.0001);
}

#[test]
fn test_cosine_similarity_different() {
    let calculator = TfIdfCalculator::new();
    let vec1 = calculator.calculate("hello");
    let vec2 = calculator.calculate("world");
    let similarity = percentage(&cosine_similarity(&vec1, &vec2)) / 100.0;
    assert_eq!(similarity, 0.0);
}

#[test]
fn test_cosine_similarity_symmetric() {
    let calculator = TfIdfCalculator::new();
    let a = calculator.calculate("the quick brown fox jumps the fox");
    let b = calculator.calculate("a quick red fox naps");
    let ab = cosine_similarity(&a, &b);
    let ba = cosine_similarity(&b, &a);
    assert_eq!(ab.dot, ba.dot);
    assert_eq!(ab.norm_a, ba.norm_b);
    assert_eq!(ab.norm_b, ba.norm_a);
    assert_eq!(percentage(&ab), percentage(&ba));
}

#[test]
fn test_cosine_similarity_disjoint_terms_exactly_zero() {
    let calculator = TfIdfCalculator::new();
    let a = calculator.calculate("alpha beta gamma");
    let b = calculator.calculate("delta epsilon zeta");
    let score = cosine_similarity(&a, &b);
    assert_eq!(score.dot, 0);
    assert_eq!(percentage(&score), 0.0);
}

#[test]
fn test_cosine_similarity_empty_vector_is_zero_not_nan() {
    let calculator = TfIdfCalculator::new();
    let empty = calculator.calculate("");
    let other = calculator.calculate("hello world");
    let score = cosine_similarity(&empty, &other);
    assert_eq!(score.dot, 0);
    assert_eq!(score.norm_a, 0);
    let p = percentage(&score);
    assert!(!p.is_nan());
    assert_eq!(p, 0.0);
    let both_empty = cosine_similarity(&empty, &empty);
    let q = percentage(&both_empty);
    assert!(!q.is_nan());
    assert_eq!(q, 0.0);
}

#[test]
fn test_exceeds_percent_threshold_is_strict() {
    let calculator = TfIdfCalculator::new();
    let a = calculator.calculate("a a b");
    let b = calculator.calculate("a b b");
    // dot = 4, norms 5 and 5: the value is exactly 4/5, i.e. 80%.
    let score = cosine_similarity(&a, &b);
    assert_eq!(percentage(&score), 80.0);
    assert!(score.exceeds_percent(79));
    assert!(!score.exceeds_percent(80));
}
