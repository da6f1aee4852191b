use cargo_syntax::deep::{
    estimate_savings, find_near_duplicates, hash_str, normalize_line, run, string_similarity,
    DuplicateCluster,
};
use cargo_syntax::functions::extract_functions;
use std::hash::{Hash, Hasher};
use cargo_syntax::tokens::{count_tokens, scan_project, ProjectStats};

fn project(files: &[(&str, &str)]) -> ProjectStats {
    let src: Vec<(String, String)> = files.iter().map(|(p, c)| (p.to_string(), c.to_string())).collect();
    scan_project(&src)
}

#[test]
fn test_normalize_line() {
    assert_eq!(normalize_line("  fn   main()  { }  "), "fn main() { }");
    assert_eq!(normalize_line(""), "");
    assert_eq!(normalize_line("  "), "");
}

#[test]
fn test_hash_str_consistency() {
    let h1 = hash_str("hello world");
    let h2 = hash_str("hello world");
    assert_eq!(h1, h2);
}

#[test]
fn test_hash_str_differs() {
    assert_ne!(hash_str("hello"), hash_str("world"));
}

#[test]
fn hash_str_matches_std_hash() {
    let mut h = std::collections::hash_map::DefaultHasher::new();
    "hello world".hash(&mut h);
    assert_eq!(hash_str("hello world"), h.finish());
}

#[test]
fn test_string_similarity_identical() {
    let r = string_similarity("fn main() {}", "fn main() {}");
    assert_eq!(r.num, r.den);
}

#[test]
fn test_string_similarity_empty() {
    let r = string_similarity("", "");
    assert_eq!((r.num, r.den), (1, 1));
    let r = string_similarity("hello", "");
    assert_eq!(r.num, 0);
}

#[test]
fn test_string_similarity_partial() {
    let sim = string_similarity("fn format_input cost price", "fn format_output cost price");
    assert_eq!((sim.num, sim.den), (3, 4));
    assert!(2 * sim.num > sim.den, "similar strings should score > 0.5, got {}/{}", sim.num, sim.den);
}

#[test]
fn similarity_counts_repeated_words() {
    let sim = string_similarity("a a a b", "a c d e");
    assert_eq!((sim.num, sim.den), (3, 4));
}

#[test]
fn test_extract_functions_basic() {
    let code = "fn foo() {\n    42\n}\n\npub fn bar(x: i32) -> i32 {\n    x + 1\n}\n";
    let fns = extract_functions(code);
    assert_eq!(fns.len(), 2);
    assert_eq!(fns[0].name, "foo");
    assert_eq!(fns[1].name, "bar");
}

#[test]
fn test_extract_functions_empty() {
    let fns = extract_functions("// no functions\nlet x = 1;\n");
    assert!(fns.is_empty());
}

#[test]
fn extract_functions_lines_and_bodies() {
    let code = "pub(crate) fn a(\n    x: u8,\n) {\n    if x > 0 { }\n}\nlet f = |x| fn_ptr(x);\nasync fn b() {}\n";
    let fns = extract_functions(code);
    assert_eq!(fns.len(), 2);
    assert_eq!(fns[0].name, "a");
    assert_eq!(fns[0].line, 0);
    assert_eq!(fns[0].body, "pub(crate) fn a(\n    x: u8,\n) {\n    if x > 0 { }\n}");
    assert_eq!(fns[1].name, "b");
    assert_eq!(fns[1].line, 6);
    assert_eq!(fns[1].body, "async fn b() {}");
}

#[test]
fn extract_functions_unclosed_brace_ends_at_brace_line() {
    let fns = extract_functions("fn open() {\n    let x = 1;\n");
    assert_eq!(fns.len(), 1);
    assert_eq!(fns[0].body, "fn open() {");
}

#[test]
fn test_estimate_savings_single() {
    let c = DuplicateCluster { occurrences: vec![(0, 0, 2)], preview: String::new(), tokens_per_instance: 10 };
    assert_eq!(estimate_savings(&c), 0);
}

#[test]
fn test_estimate_savings_multiple() {
    let c = DuplicateCluster {
        occurrences: vec![(0, 0, 2), (1, 5, 7), (2, 10, 12)],
        preview: String::new(),
        tokens_per_instance: 10,
    };
    assert_eq!(estimate_savings(&c), 16);
}

#[test]
fn estimate_savings_saturates() {
    let c = DuplicateCluster {
        occurrences: vec![(0, 0, 2), (1, 0, 2), (2, 0, 2)],
        preview: String::new(),
        tokens_per_instance: usize::MAX,
    };
    assert_eq!(estimate_savings(&c), usize::MAX);
}

const BLOCK: &str = "println!(\"x\");\nprintln!(\"y\");\nprintln!(\"z\");";

#[test]
fn duplicate_block_in_two_files() {
    let stats = project(&[("a.rs", BLOCK), ("b.rs", BLOCK)]);
    let r = run(&stats);
    assert_eq!(r.clusters.len(), 1);
    let c = &r.clusters[0];
    assert_eq!(c.occurrences, vec![(0, 0, 2), (1, 0, 2)]);
    assert_eq!(c.preview, BLOCK);
    assert_eq!(c.tokens_per_instance, count_tokens(BLOCK).unwrap());
    assert_eq!(estimate_savings(c), c.tokens_per_instance * 80 / 100);
    assert!(r.near_dupes.is_empty());
    assert_eq!(r.total_savings, estimate_savings(c));
}

#[test]
fn duplicate_block_preview_keeps_original_text() {
    let a = "  println!(\"x\");\n\n   println!(\"y\");\nprintln!(\"z\");\n";
    let b = "fn q() {}\nprintln!(\"x\");\nprintln!(\"y\");\n\t\tprintln!(\"z\");\n";
    let r = run(&project(&[("a.rs", a), ("b.rs", b)]));
    assert_eq!(r.clusters.len(), 1);
    assert_eq!(r.clusters[0].occurrences, vec![(0, 0, 3), (1, 1, 3)]);
    assert_eq!(r.clusters[0].preview, "  println!(\"x\");\n\n   println!(\"y\");\nprintln!(\"z\");");
}

#[test]
fn duplicate_in_one_file_only_is_not_reported() {
    let text = format!("{BLOCK}\n{BLOCK}\n");
    let r = run(&project(&[("a.rs", &text), ("b.rs", "fn other() {}\n")]));
    assert!(r.clusters.is_empty());
}

#[test]
fn short_windows_never_cluster() {
    let short = "}\n}\n}\n";
    let r = run(&project(&[("a.rs", short), ("b.rs", short)]));
    assert!(r.clusters.is_empty());
}

#[test]
fn larger_block_subsumes_its_sub_windows() {
    let block = "let alpha = compute(1);\nlet beta = compute(2);\nlet gamma = compute(3);\nlet delta = compute(4);\nlet eps = compute(5);\nlet zeta = compute(6);\n";
    let r = run(&project(&[("a.rs", block), ("b.rs", block)]));
    assert!(!r.clusters.is_empty() && r.clusters.len() < 4);
    for (j, c) in r.clusters.iter().enumerate() {
        assert_eq!(c.occurrences.len(), 2);
        assert_eq!(c.occurrences[1].1, c.occurrences[0].1);
        for e in &r.clusters[..j] {
            let inside = c.occurrences.iter().all(|(f, s, _)| {
                e.occurrences.iter().any(|(ef, es, ee)| ef == f && es <= s && s <= ee)
            });
            assert!(!inside);
        }
    }
}

#[test]
fn clusters_with_more_occurrences_come_first() {
    let common = "let one = make_one();\nlet two = make_two();\nlet three = make_three();\n";
    let pair = "let four = make_four();\nlet five = make_five();\nlet six = make_six();\n";
    let a = format!("{common}\nfn s() {{}}\n{pair}");
    let r = run(&project(&[("a.rs", &a), ("b.rs", common), ("c.rs", common), ("d.rs", pair)]));
    assert!(r.clusters.len() >= 2);
    assert_eq!(r.clusters[0].occurrences.len(), 3);
    for w in r.clusters.windows(2) {
        assert!(w[0].occurrences.len() >= w[1].occurrences.len());
    }
}

const NEAR: &str = "fn foo(a: u32) -> u32 {\n    let total = a + compute_value(a) + other_call(a) + 7;\n    total\n}\n\nfn bar(a: u32) -> u32 {\n    let total = a + compute_value(a) + other_call(a) + 9;\n    total\n}\n";

#[test]
fn near_duplicate_functions_in_one_file() {
    let stats = project(&[("n.rs", NEAR)]);
    let nd = find_near_duplicates(&stats.files);
    assert_eq!(nd.len(), 1);
    assert_eq!(nd[0].file_idx, 0);
    assert_eq!(nd[0].fn_a, ("foo".to_string(), 0));
    assert_eq!(nd[0].fn_b, ("bar".to_string(), 5));
    assert!(nd[0].savings >= 5);
    let fns = extract_functions(NEAR);
    let expected = count_tokens(&fns[0].body).unwrap().min(count_tokens(&fns[1].body).unwrap()) * 60 / 100;
    assert_eq!(nd[0].savings, expected);
    let r = run(&stats);
    assert_eq!(r.near_dupes.len(), 1);
    assert_eq!(r.total_savings, expected);
}

#[test]
fn identical_functions_are_not_near_duplicates() {
    let body = "fn same(a: u32) -> u32 {\n    let total = a + compute_value(a) + other_call(a);\n    total\n}\n";
    let text = format!("{body}{body}");
    assert_eq!(extract_functions(&text).len(), 2);
    let stats = project(&[("i.rs", &text)]);
    assert!(find_near_duplicates(&stats.files).is_empty());
}

#[test]
fn short_functions_are_not_compared() {
    let stats = project(&[("s.rs", "fn a() { x(1) }\nfn b() { x(2) }\n")]);
    assert!(find_near_duplicates(&stats.files).is_empty());
}

#[test]
fn empty_project_has_empty_deep_result() {
    let r = run(&project(&[]));
    assert!(r.clusters.is_empty());
    assert!(r.near_dupes.is_empty());
    assert_eq!(r.total_savings, 0);
}

#[test]
fn deep_analysis_twice_gives_same_result() {
    let block = "let alpha = compute(1);\nlet beta = compute(2);\nlet gamma = compute(3);\n";
    let stats = project(&[("a.rs", block), ("b.rs", block), ("n.rs", NEAR), ("c.rs", block)]);
    let x = run(&stats);
    let y = run(&stats);
    assert_eq!(x.total_savings, y.total_savings);
    assert_eq!(x.clusters.len(), y.clusters.len());
    for (c, d) in x.clusters.iter().zip(y.clusters.iter()) {
        assert_eq!(c.occurrences, d.occurrences);
        assert_eq!(c.preview, d.preview);
        assert_eq!(c.tokens_per_instance, d.tokens_per_instance);
    }
    assert_eq!(x.near_dupes.len(), y.near_dupes.len());
    for (a, b) in x.near_dupes.iter().zip(y.near_dupes.iter()) {
        assert_eq!(a.fn_a, b.fn_a);
        assert_eq!(a.fn_b, b.fn_b);
        assert_eq!(a.savings, b.savings);
    }
}

#[test]
fn last_line_keeps_carriage_return_without_newline() {
    let fns = extract_functions("fn a() {}\r");
    assert_eq!(fns[0].body, "fn a() {}\r");
    let fns = extract_functions("fn a() {}\r\n");
    assert_eq!(fns[0].body, "fn a() {}");
}

#[test]
fn equal_rank_clusters_come_in_order_of_first_window() {
    let a = "let value = compute(1);\nlet other = compute(1);\nlet third = compute(1);\n";
    let b = "let value = compute(2);\nlet other = compute(2);\nlet third = compute(2);\n";
    let r = run(&project(&[("a.rs", a), ("b.rs", a), ("c.rs", b), ("d.rs", b)]));
    assert_eq!(r.clusters.len(), 2);
    if estimate_savings(&r.clusters[0]) == estimate_savings(&r.clusters[1]) {
        assert_eq!(r.clusters[0].occurrences, vec![(0, 0, 2), (1, 0, 2)]);
        assert_eq!(r.clusters[1].occurrences, vec![(2, 0, 2), (3, 0, 2)]);
    }
}

#[test]
fn two_line_tail_is_not_a_cluster() {
    let r = run(&project(&[("a.rs", BLOCK), ("b.rs", BLOCK)]));
    for c in &r.clusters {
        assert_eq!(c.occurrences.len(), 2);
        assert_eq!((c.occurrences[0].1, c.occurrences[1].1), (0, 0));
    }
}
