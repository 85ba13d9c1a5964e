use plagiarism_service::text::tokenize;
use plagiarism_service::tfidf::TfIdfCalculator;

#[test]
fn test_tokenize_folds_and_segments() {
    assert_eq!(
        tokenize("Hello, WORLD! Don't stop."),
        vec!["hello".to_string(), "world".to_string(), "don't".to_string(), "stop".to_string()]
    );
    assert_eq!(tokenize(""), Vec::<String>::new());
}

#[test]
fn test_tfidf_calculation() {
    let calculator = TfIdfCalculator::new();
    let text = "hello world hello";
    let vector = calculator.calculate(text);

    assert!(vector.contains_term("hello"));
    assert!(vector.contains_term("world"));
    assert_eq!(vector.count_of("hello") as f64 / vector.total() as f64, 2.0 / 3.0);
    assert_eq!(vector.count_of("world") as f64 / vector.total() as f64, 1.0 / 3.0);
}

#[test]
fn test_weights_sum_to_one() {
    let calculator = TfIdfCalculator::new();
    let vector = calculator.calculate("a b a c a b");
    assert_eq!(vector.total(), 6);
    let sum =
        vector.count_of("a") as f64 / vector.total() as f64
        + vector.count_of("b") as f64 / vector.total() as f64
        + vector.count_of("c") as f64 / vector.total() as f64;
    assert!((sum - 1.0).abs() < 1e-12);
    assert_eq!(vector.count_of("a") + vector.count_of("b") + vector.count_of("c"), 6);
}

#[test]
fn test_empty_text_yields_empty_vector() {
    let calculator = TfIdfCalculator::new();
    let vector = calculator.calculate("");
    assert_eq!(vector.total(), 0);
    assert_eq!(vector.len(), 0);
    let punct = calculator.calculate("... !!! ???");
    assert_eq!(punct.total(), 0);
    assert_eq!(punct.len(), 0);
}

#[test]
fn test_tokenization_folds_case_and_drops_punctuation() {
    let calculator = TfIdfCalculator::new();
    let vector = calculator.calculate("Hello, world! HELLO?");
    assert_eq!(vector.total(), 3);
    assert_eq!(vector.count_of("hello"), 2);
    assert_eq!(vector.count_of("world"), 1);
    assert_eq!(vector.count_of("Hello"), 0);
    assert!(!vector.contains_term("absent"));
}

#[test]
fn test_unicode_word_segmentation() {
    let calculator = TfIdfCalculator::new();
    let vector = calculator.calculate("The quick (\"brown\") fox can't jump 32.3 feet, right?");
    assert_eq!(vector.total(), 9);
    assert_eq!(vector.count_of("can't"), 1);
    assert_eq!(vector.count_of("32.3"), 1);
}
