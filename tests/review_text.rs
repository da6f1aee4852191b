use cargo_syntax::review::{deduplicate_suggestions, estimate_savings, select_distinct};

#[test]
fn review_estimates_are_summed_and_capped() {
    let review = "- inline format args in main (~12 tokens)\n- use ? instead of match ~30\nno estimate here\n- odd ~x\n";
    assert_eq!(estimate_savings(review, 1000), 42);
    assert_eq!(estimate_savings(review, 50), 25);
    assert_eq!(estimate_savings("~99999999999999999999999", 100), 0);
    assert_eq!(estimate_savings("", 100), 0);
}

#[test]
fn suggestions_are_deduplicated() {
    let analysis = "- Replace the manual loop in parse_args with an iterator chain to save tokens\n\n- Replace the manual loop in parse_args with an iterator chain, saving ~20 tokens\n- short\n- Remove redundant clone calls in build_manifest\n";
    let kept = deduplicate_suggestions(analysis);
    assert_eq!(
        kept,
        vec![
            "- Replace the manual loop in parse_args with an iterator chain to save tokens",
            "- Remove redundant clone calls in build_manifest",
        ]
    );
}

#[test]
fn select_distinct_uses_given_keys() {
    let lines = vec!["a".to_string(), "b".to_string(), "".to_string(), "d".to_string()];
    let keys = vec![
        "the same long key of many words here".to_string(),
        "the same long key of many words there".to_string(),
        "an empty line is skipped anyway".to_string(),
        "tiny".to_string(),
    ];
    assert_eq!(select_distinct(&lines, &keys), vec!["a"]);
}

#[test]
fn suggestion_keys_ignore_case_digits_and_punctuation() {
    let analysis = "- REPLACE THE MANUAL LOOP IN PARSE_ARGS WITH AN ITERATOR CHAIN\n- replace the manual loop in parse_args with an iterator chain (2x)\n";
    assert_eq!(deduplicate_suggestions(analysis), vec!["- REPLACE THE MANUAL LOOP IN PARSE_ARGS WITH AN ITERATOR CHAIN"]);
    let short = "- 1 2 3 4 5 6 7 8 a\n";
    assert!(deduplicate_suggestions(short).is_empty());
}
