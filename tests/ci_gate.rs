use cargo_syntax::ci::ci_verdict;

#[test]
fn ratio_above_limit_fails() {
    let v = ci_verdict(80, 10, None, Some(6000), None);
    assert!(v.ratio_too_high);
    assert!(!v.token_budget_exceeded);
    assert!(!v.grade_too_low);
    assert!(!v.pass());
}

#[test]
fn ratio_at_limit_passes() {
    let v = ci_verdict(60, 10, None, Some(6000), None);
    assert!(!v.ratio_too_high);
    assert!(v.pass());
}

#[test]
fn token_budget_and_grade() {
    let v = ci_verdict(1000, 100, Some(999), None, Some("A+"));
    assert!(v.token_budget_exceeded);
    assert!(v.grade_too_low);
    let v = ci_verdict(1000, 100, Some(1000), None, Some("C"));
    assert!(v.pass());
}

#[test]
fn empty_project_passes_any_grade() {
    let v = ci_verdict(0, 0, Some(0), Some(0), Some("A+"));
    assert!(v.pass());
}

#[test]
fn negative_limit_fails_even_an_empty_project() {
    assert!(ci_verdict(0, 0, None, Some(-1000), None).ratio_too_high);
    assert!(ci_verdict(5, 1, None, Some(-1), None).ratio_too_high);
}
