use cargo_syntax::tokens::{count_tokens, efficiency_grade, grade_of, grade_rank, pct, ratio, Grade, Ratio};

fn value(r: Ratio) -> f64 {
    if r.den == 0 {
        0.0
    } else {
        r.num as f64 / r.den as f64
    }
}

#[test]
fn test_grade_rank_values() {
    for (grade, expected) in [("A+", 5), ("A", 4), ("B", 3), ("C", 2), ("D", 1), ("X", 0), ("", 0)] {
        assert_eq!(grade_rank(grade), expected, "grade_rank({grade:?})");
    }
}

#[test]
fn test_grade_rank_ordering() {
    let grades = ["A+", "A", "B", "C", "D", "X"];
    for w in grades.windows(2) {
        assert!(grade_rank(w[0]) > grade_rank(w[1]), "{} should rank above {}", w[0], w[1]);
    }
}

#[test]
fn test_count_tokens_empty_content() {
    assert_eq!(count_tokens("").unwrap(), 0);
}

#[test]
fn test_count_tokens_valid_content() {
    assert!(count_tokens("fn main() {}").unwrap() > 0);
}

#[test]
fn test_count_tokens_multiline() {
    let code = "fn main() {\n    println!(\"hello\");\n}";
    let tokens = count_tokens(code).unwrap();
    assert!(tokens > 5);
}

#[test]
fn count_tokens_nonempty_inputs_give_at_least_one() {
    for s in [" ", "\n", "x", "}", "é", "<|endoftext|>", "12345678"] {
        assert!(count_tokens(s).unwrap() >= 1, "{s:?}");
    }
}

#[test]
fn test_efficiency_grade_a_plus() {
    assert_eq!(efficiency_grade(ratio(4, 1)), ("A%2B", "brightgreen", "A+"));
}

#[test]
fn test_efficiency_grade_a() {
    assert_eq!(efficiency_grade(ratio(6, 1)), ("A", "green", "A"));
}

#[test]
fn test_efficiency_grade_b() {
    assert_eq!(efficiency_grade(ratio(8, 1)), ("B", "blue", "B"));
}

#[test]
fn test_efficiency_grade_c() {
    assert_eq!(efficiency_grade(ratio(11, 1)), ("C", "orange", "C"));
}

#[test]
fn test_efficiency_grade_d() {
    assert_eq!(efficiency_grade(ratio(13, 1)), ("D", "red", "D"));
}

#[test]
fn test_efficiency_grade_boundary_5() {
    assert_eq!(efficiency_grade(ratio(5, 1)).2, "A+");
}

#[test]
fn test_efficiency_grade_boundary_7() {
    assert_eq!(efficiency_grade(ratio(7, 1)).2, "A");
}

#[test]
fn test_efficiency_grade_boundary_9() {
    assert_eq!(efficiency_grade(ratio(9, 1)).2, "B");
}

#[test]
fn test_efficiency_grade_boundary_12() {
    assert_eq!(efficiency_grade(ratio(12, 1)).2, "C");
}

#[test]
fn grade_just_above_bounds() {
    assert_eq!(grade_of(ratio(501, 100)), Grade::A);
    assert_eq!(grade_of(ratio(701, 100)), Grade::B);
    assert_eq!(grade_of(ratio(901, 100)), Grade::C);
    assert_eq!(grade_of(ratio(1201, 100)), Grade::D);
    assert_eq!(grade_of(ratio(500, 100)), Grade::APlus);
}

#[test]
fn grade_never_improves_as_ratio_grows() {
    let mut last = 6u8;
    for tenths in 0..200usize {
        let rank = grade_of(ratio(tenths, 10)).rank();
        assert!(rank <= last);
        last = rank;
    }
}

#[test]
fn grade_of_zero_ratio_is_a_plus() {
    assert_eq!(efficiency_grade(ratio(0, 0)).2, "A+");
    assert_eq!(grade_of(ratio(12345, 0)), Grade::APlus);
}

#[test]
fn test_ratio() {
    assert_eq!(value(ratio(100, 10)), 10.0);
    assert_eq!(value(ratio(0, 0)), 0.0);
    assert_eq!(value(ratio(50, 0)), 0.0);
}

#[test]
fn test_pct() {
    assert_eq!(value(pct(50, 100)), 50.0);
    assert_eq!(value(pct(0, 100)), 0.0);
    assert_eq!(value(pct(10, 0)), 0.0);
}

#[test]
fn grade_letters_and_colours() {
    assert_eq!(Grade::APlus.letter(), "A+");
    assert_eq!(Grade::APlus.url_letter(), "A%2B");
    assert_eq!(Grade::C.colour(), "orange");
    assert_eq!(Grade::D.rank(), 1);
}

#[test]
fn huge_whitespace_run_is_reported_not_fatal() {
    let text = format!("{}x", " ".repeat(1_000_000));
    let r = count_tokens(&text);
    if let Some(n) = r {
        assert!(n >= 1);
    }
}
