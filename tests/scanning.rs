use cargo_syntax::paths::is_rust_source;
use cargo_syntax::tokens::{count_line_types, count_tokens, file_stats, scan_project};

fn sources(files: &[(&str, &str)]) -> Vec<(String, String)> {
    files.iter().map(|(p, c)| (p.to_string(), c.to_string())).collect()
}

#[test]
fn scan_single_main_file() {
    let stats = scan_project(&sources(&[("src/main.rs", "fn main() {}")]));
    assert_eq!(stats.files.len(), 1);
    assert!(stats.total_tokens > 0);
    assert_eq!(stats.total_lines, 1);
    let r = stats.files[0].ratio;
    assert!(r.num <= 7 * r.den);
}

#[test]
fn scan_totals_are_sums() {
    let stats = scan_project(&sources(&[
        ("a.rs", "fn a() {}\n\n// note\n"),
        ("b.rs", "/* block\n still */\nlet x = 1;\n"),
    ]));
    assert_eq!(stats.files.len(), 2);
    assert_eq!(stats.total_lines, stats.files[0].lines + stats.files[1].lines);
    assert_eq!(stats.total_tokens, stats.files[0].tokens + stats.files[1].tokens);
    assert_eq!(stats.total_lines, 6);
    assert_eq!(stats.code_lines, 2);
    assert_eq!(stats.comment_lines, 3);
    assert_eq!(stats.blank_lines, 1);
    assert_eq!(stats.code_lines + stats.comment_lines + stats.blank_lines, stats.total_lines);
}

#[test]
fn scan_empty_project() {
    let stats = scan_project(&Vec::new());
    assert!(stats.files.is_empty());
    assert_eq!(stats.total_lines, 0);
    assert_eq!(stats.total_tokens, 0);
}

#[test]
fn scan_twice_gives_same_stats() {
    let src = sources(&[("x.rs", "fn x() {\n    1\n}\n"), ("y.rs", "// y\n")]);
    let a = scan_project(&src);
    let b = scan_project(&src);
    assert_eq!(a.total_tokens, b.total_tokens);
    assert_eq!(a.total_lines, b.total_lines);
    for (f, g) in a.files.iter().zip(b.files.iter()) {
        assert_eq!(f.path, g.path);
        assert_eq!(f.tokens, g.tokens);
        assert_eq!(f.ratio, g.ratio);
    }
}

#[test]
fn comment_only_file_has_no_code() {
    assert_eq!(count_line_types("// one\n\n/* two\nthree\n*/\n   // four"), (0, 5, 1));
    let f = file_stats("empty.rs".to_string(), String::new()).unwrap();
    assert_eq!(f.tokens, 0);
    assert_eq!(f.lines, 0);
    assert_eq!(f.ratio.num, 0);
}

#[test]
fn line_classifier_cases() {
    assert_eq!(count_line_types("let a = 1; /* x */\n/* a */ let b = 2;\n"), (1, 1, 0));
    assert_eq!(count_line_types("\r\n  \t \nx\r\n"), (1, 0, 2));
    assert_eq!(count_line_types(""), (0, 0, 0));
}

#[test]
fn file_stats_counts_lines_like_str_lines() {
    let f = file_stats("a.rs".to_string(), "a\r\nb\n\nc".to_string()).unwrap();
    assert_eq!(f.lines, 4);
    assert_eq!(f.tokens, count_tokens("a\r\nb\n\nc").unwrap());
    assert_eq!(f.path, "a.rs");
}

#[test]
fn walker_keeps_rust_sources_outside_target() {
    assert!(is_rust_source("src/main.rs"));
    assert!(is_rust_source("a.b.rs"));
    assert!(!is_rust_source("target/debug/build.rs"));
    assert!(!is_rust_source("crates/x/target/a.rs"));
    assert!(!is_rust_source("src/.rs"));
    assert!(!is_rust_source("Cargo.toml"));
    assert!(is_rust_source("targets/a.rs"));
}

fn tree() -> Vec<(String, String)> {
    let paths = ["src/main.rs", "src/lib.rs", "target/debug/build/out.rs", "README.md"];
    let kept: Vec<&str> = paths.iter().copied().filter(|p| is_rust_source(p)).collect();
    sources(&kept.iter().map(|p| (*p, "fn f() {\n    1\n}\n")).collect::<Vec<_>>())
}

#[test]
fn test_scan_project_finds_rs_files() {
    let stats = scan_project(&tree());
    assert!(!stats.files.is_empty());
    assert!(stats.total_tokens > 0);
    assert!(stats.total_lines > 0);
}

#[test]
fn test_scan_project_no_target_files() {
    let stats = scan_project(&tree());
    for f in &stats.files {
        assert!(!f.path.contains("target"), "found target file: {}", f.path);
    }
}

#[test]
fn test_scan_project_ratio_positive() {
    let stats = scan_project(&tree());
    for f in &stats.files {
        assert!(f.ratio.num > 0 && f.ratio.den > 0, "ratio should be positive for {}", f.path);
    }
}

#[test]
fn scan_keeps_only_countable_files_in_order() {
    let stats = scan_project(&sources(&[("a.rs", "fn a() {}"), ("b.rs", ""), ("c.rs", "x\n")]));
    let paths: Vec<&str> = stats.files.iter().map(|f| f.path.as_str()).collect();
    assert_eq!(paths, vec!["a.rs", "b.rs", "c.rs"]);
    assert_eq!(stats.files[1].tokens, 0);
    assert_eq!(stats.files[1].lines, 0);
}
