use plagiarism_service::phrases::find_matching_phrases;

#[test]
fn test_short_texts_yield_no_phrases() {
    let matches = find_matching_phrases("one two three four", "one two three four");
    assert!(matches.is_empty());
    let matches = find_matching_phrases("one two three four five", "one two three four");
    assert!(matches.is_empty());
    let matches = find_matching_phrases("one two three four", "one two three four five");
    assert!(matches.is_empty());
}

#[test]
fn test_exactly_five_tokens_match() {
    let matches = find_matching_phrases("one two three four five", "one two three four five");
    assert_eq!(matches, vec!["one two three four five".to_string()]);
}

#[test]
fn test_matching_is_case_insensitive_but_reports_original_casing() {
    let matches = find_matching_phrases("The Quick Brown Fox Jumps", "the quick brown fox jumps");
    assert_eq!(matches, vec!["The Quick Brown Fox Jumps".to_string()]);
    let matches = find_matching_phrases("the quick brown fox jumps", "THE QUICK BROWN FOX JUMPS");
    assert_eq!(matches, vec!["the quick brown fox jumps".to_string()]);
}

#[test]
fn test_no_overlap_yields_no_phrases() {
    let matches = find_matching_phrases(
        "one two three four five six seven",
        "eight nine ten eleven twelve thirteen",
    );
    assert!(matches.is_empty());
}

#[test]
fn test_match_list_truncates_at_ten() {
    let text = "a b c d e f g h i j k l m n o p q r s t";
    // Identical 20-token texts: every one of the 16 windows matches,
    // but only the first 10 phrases are reported.
    let matches = find_matching_phrases(text, text);
    assert_eq!(matches.len(), 10);
    assert_eq!(matches[0], "a b c d e");
    assert_eq!(matches[9], "j k l m n");
}

#[test]
fn test_phrases_in_order_of_appearance() {
    let sub = "alpha beta gamma delta epsilon zeta unrelated one two three four five";
    let cmp = "one two three four five padding alpha beta gamma delta epsilon zeta";
    let matches = find_matching_phrases(sub, cmp);
    assert_eq!(
        matches,
        vec![
            "alpha beta gamma delta epsilon".to_string(),
            "beta gamma delta epsilon zeta".to_string(),
            "one two three four five".to_string(),
        ]
    );
}
