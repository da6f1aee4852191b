use cargo_syntax::fences::strip_markdown_fences;
use cargo_syntax::gitdiff::{build_diff_args, extract_file_diff, parse_changed_rs_files};
use cargo_syntax::paths::{default_test_path, file_to_module_path, normalize};
use cargo_syntax::rewrite::{strip_markdown_fences as strip_outer, RewriteResult};

#[test]
fn generate_tests_test_strip_markdown_fences_plain() {
    assert_eq!(strip_markdown_fences("fn main() {}"), "fn main() {}");
}

#[test]
fn test_strip_markdown_fences_rust_block() {
    let input = "```rust\nfn main() {}\n```";
    assert_eq!(strip_markdown_fences(input), "fn main() {}");
}

#[test]
fn test_strip_markdown_fences_with_preamble() {
    let input = "Here are the tests:\n```rust\nfn test() {}\n```\n";
    assert_eq!(strip_markdown_fences(input), "fn test() {}");
}

#[test]
fn test_strip_markdown_fences_generic_block() {
    let input = "```\nfn main() {}\n```";
    assert_eq!(strip_markdown_fences(input), "fn main() {}");
}

#[test]
fn test_strip_markdown_fences_rs_block() {
    let input = "```rs\nfn main() {}\n```";
    assert_eq!(strip_markdown_fences(input), "fn main() {}");
}

#[test]
fn test_tokens_test_strip_markdown_fences_plain() {
    assert_eq!(strip_markdown_fences("fn main() {}"), "fn main() {}");
}

#[test]
fn test_strip_markdown_fences_rust() {
    assert_eq!(strip_markdown_fences("```rust\nfn main() {}\n```"), "fn main() {}");
}

#[test]
fn test_strip_markdown_fences_bare() {
    assert_eq!(strip_markdown_fences("```\nfn main() {}\n```"), "fn main() {}");
}

#[test]
fn strip_markdown_fences_unclosed_and_one_line() {
    assert_eq!(strip_markdown_fences("```rust\nlet a = 1;\n"), "let a = 1;");
    assert_eq!(strip_markdown_fences("```rust"), "");
    assert_eq!(strip_markdown_fences("  text  "), "text");
}

#[test]
fn test_file_to_module_path_simple() {
    assert_eq!(file_to_module_path("src/tokens.rs"), "tokens");
}

#[test]
fn test_file_to_module_path_nested() {
    assert_eq!(file_to_module_path("src/commands/ci.rs"), "commands::ci");
}

#[test]
fn test_file_to_module_path_no_src_prefix() {
    assert_eq!(file_to_module_path("lib.rs"), "lib");
}

#[test]
fn file_to_module_path_mod_files() {
    assert_eq!(file_to_module_path("src/templates/mod.rs"), "templates");
    assert_eq!(file_to_module_path("src/models.rs"), "els");
    assert_eq!(file_to_module_path("src/a.txt"), "src::a.txt");
}

#[test]
fn test_default_test_path() {
    assert_eq!(default_test_path("src/tokens.rs", false), "tests/test_tokens.rs");
}

#[test]
fn test_default_test_path_nested() {
    assert_eq!(default_test_path("src/commands/ci.rs", false), "tests/test_ci.rs");
}

#[test]
fn default_test_path_outside_src() {
    assert_eq!(default_test_path("lib/x.rs", false), "test_x.rs");
    assert_eq!(default_test_path("lib/x.rs", true), "tests/test_x.rs");
    assert_eq!(default_test_path("a.b.rs", false), "test_a.b.rs");
}

#[test]
fn test_normalize_unix_path() {
    assert_eq!(normalize("src/main.rs"), "src/main.rs");
}

#[test]
fn test_normalize_windows_path() {
    assert_eq!(normalize("src\\commands\\audit.rs"), "src/commands/audit.rs");
}

#[test]
fn test_normalize_dotslash_prefix() {
    assert_eq!(normalize("./src/main.rs"), "src/main.rs");
}

#[test]
fn test_normalize_dotslash_windows() {
    assert_eq!(normalize(".\\src\\main.rs"), "src/main.rs");
}

#[test]
fn diff_args() {
    assert_eq!(build_diff_args(None, false), vec!["diff", "--", "*.rs"]);
    assert_eq!(build_diff_args(Some("main..HEAD"), true), vec!["diff", "--staged", "main..HEAD", "--", "*.rs"]);
}

const DIFF: &str = "diff --git a/src/a.rs b/src/a.rs\n--- a/src/a.rs\n+++ b/src/a.rs\n+x\ndiff --git a/README.md b/README.md\n+++ b/README.md\ndiff --git a/src/b.rs b/src/b.rs\nnew file mode 100644\n+++ b/src/b.rs\n+++ b/src/b.rs\n+y\n";

#[test]
fn changed_rust_files() {
    assert_eq!(parse_changed_rs_files(DIFF), vec!["src/a.rs", "src/b.rs"]);
    assert!(parse_changed_rs_files("").is_empty());
}

#[test]
fn file_diff_cut_out() {
    assert_eq!(
        extract_file_diff(DIFF, "src/a.rs"),
        "diff --git a/src/a.rs b/src/a.rs\n--- a/src/a.rs\n+++ b/src/a.rs\n+x\n"
    );
    assert!(extract_file_diff(DIFF, "src/b.rs").contains("new file mode"));
    assert_eq!(extract_file_diff(DIFF, "src/c.rs"), "");
}

#[test]
fn rewrite_saved_tokens() {
    let r = RewriteResult {
        original: String::new(),
        rewritten: String::new(),
        tokens_before: 10,
        tokens_after: 25,
        lines_before: 1,
        lines_after: 1,
    };
    assert_eq!(r.saved(), -15);
}

#[test]
fn rewrite_reply_fences_removed() {
    use_rewrite_strip();
}

fn use_rewrite_strip() {
    assert_eq!(strip_outer("```rust\nfn main() {}\n```"), "fn main() {}");
    assert_eq!(strip_outer("  ```rs\nlet x = 1;\n```  "), "let x = 1;");
    assert_eq!(strip_outer("```\nfn a() {}"), "fn a() {}");
    assert_eq!(strip_outer("fn b() {}\n"), "fn b() {}");
    assert_eq!(strip_outer("Here:\n```rust\nfn c() {}\n```"), "Here:\n```rust\nfn c() {}\n```");
}
