use cargo_syntax::revisions::{build_manifest, count_rev_tokens, decimal_chars, rs_files_in_listing};
use cargo_syntax::tokens::{count_tokens, scan_project};

fn sample() -> Vec<(String, String)> {
    vec![
        ("src/main.rs".to_string(), "fn main() {}\n".to_string()),
        ("src/lib.rs".to_string(), "pub mod a;\n// doc\n".to_string()),
    ]
}

#[test]
fn test_build_manifest_contains_files() {
    let stats = scan_project(&sample());
    let manifest = build_manifest(&stats);
    for f in &stats.files {
        assert!(manifest.contains(&f.path), "manifest missing {}", f.path);
    }
}

#[test]
fn test_build_manifest_format() {
    let stats = scan_project(&sample());
    let manifest = build_manifest(&stats);
    assert!(manifest.contains("==="), "manifest missing === delimiters");
    assert!(manifest.contains("tokens"), "manifest missing token counts");
    let t = count_tokens("fn main() {}\n").unwrap();
    assert!(manifest.starts_with(&format!("=== src/main.rs ({t} tokens) ===\nfn main() {{}}\n\n\n")));
}

#[test]
fn decimal_digits() {
    for n in [0usize, 7, 10, 305, 123456789, usize::MAX] {
        assert_eq!(decimal_chars(n).into_iter().collect::<String>(), n.to_string());
    }
}

#[test]
fn listing_keeps_rust_sources_outside_target() {
    let listing = "Cargo.toml\nsrc/main.rs\ntarget/debug/x.rs\nsrc/target/y.rs\nREADME.md\nbuild.rs";
    assert_eq!(rs_files_in_listing(listing), vec!["src/main.rs", "src/target/y.rs", "build.rs"]);
}

#[test]
fn revision_totals() {
    let contents = vec!["fn a() {}\n".to_string(), "x\ny\n".to_string()];
    let r = count_rev_tokens(3, &contents);
    assert_eq!(r.files, 3);
    assert_eq!(r.lines, 3);
    assert_eq!(r.tokens, count_tokens("fn a() {}\n").unwrap() + count_tokens("x\ny\n").unwrap());
}
