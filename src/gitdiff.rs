use vstd::prelude::*;
use crate::text::{
    chars_of, concat_chars, contains, ends_with, ends_with_chars, find_first, first_at,
    lines_of, matches_at, slice_chars, split_lines, starts_with, string_of, views,
};
use crate::deep::same_chars;

verus! {

broadcast use vstd::string::group_string_axioms;

/// The character sequences held by a list of strings.
pub open spec fn string_views(v: Seq<String>) -> Seq<Seq<char>> {
    v.map_values(|s: String| s@)
}

/// The arguments of the `git diff` call: `--staged` when asked, the range when given, and a
/// path filter for Rust sources.
pub open spec fn diff_args_spec(range: Option<Seq<char>>, staged: bool) -> Seq<Seq<char>> {
    seq!["diff"@] + (if staged {
        seq!["--staged"@]
    } else {
        seq![]
    }) + (match range {
        Some(r) => seq![r],
        None => seq![],
    }) + seq!["--"@, "*.rs"@]
}

/// Builds the arguments of the `git diff` call, as `diff_args_spec` describes.
pub fn build_diff_args(range: Option<&str>, staged: bool) -> (r: Vec<String>)
    ensures
        string_views(r@) == diff_args_spec(
            match range {
                Some(s) => Some(s@),
                None => None,
            },
            staged,
        ),
{
    let mut args: Vec<String> = Vec::new();
    args.push("diff".to_owned());
    if staged {
        args.push("--staged".to_owned());
    }
    match range {
        Some(r) => {
            args.push(r.to_owned());
        },
        None => {},
    }
    args.push("--".to_owned());
    args.push("*.rs".to_owned());
    proof {
        let rv = match range {
            Some(s) => Some(s@),
            None => None,
        };
        assert(string_views(args@) =~= diff_args_spec(rv, staged));
    }
    args
}

/// The prefix of a new-file line in a unified diff.
pub open spec fn new_file_prefix() -> Seq<char> {
    seq!['+', '+', '+', ' ', 'b', '/']
}

/// The Rust source paths named by the `+++ b/` lines of a diff, in order.
pub open spec fn changed_paths(ls: Seq<Seq<char>>) -> Seq<Seq<char>>
    decreases ls.len(),
{
    if ls.len() == 0 {
        seq![]
    } else {
        let l = ls.last();
        let path = l.skip(6);
        changed_paths(ls.drop_last()) + (if starts_with(l, new_file_prefix()) && ends_with(
            path,
            seq!['.', 'r', 's'],
        ) {
            seq![path]
        } else {
            seq![]
        })
    }
}

/// A list with each run of equal neighbours reduced to one.
pub open spec fn dedup(xs: Seq<Seq<char>>) -> Seq<Seq<char>>
    decreases xs.len(),
{
    if xs.len() == 0 {
        seq![]
    } else {
        let d = dedup(xs.drop_last());
        if d.len() > 0 && d.last() == xs.last() {
            d
        } else {
            d.push(xs.last())
        }
    }
}

/// The Rust files that a unified diff changes.
pub fn parse_changed_rs_files(diff: &str) -> (r: Vec<String>)
    ensures
        string_views(r@) == dedup(changed_paths(lines_of(diff@))),
{
    let cs = chars_of(diff);
    let lines = split_lines(&cs);
    let ghost ls = views(lines@);
    let prefix: Vec<char> = vec!['+', '+', '+', ' ', 'b', '/'];
    let ext: Vec<char> = vec!['.', 'r', 's'];
    assert(prefix@ == new_file_prefix());
    assert(ext@ == seq!['.', 'r', 's']);
    let mut out: Vec<String> = Vec::new();
    let mut last: Vec<char> = Vec::new();
    let mut i: usize = 0;
    while i < lines.len()
        invariant
            i <= lines@.len(),
            ls == views(lines@),
            prefix@ == new_file_prefix(),
            ext@ == seq!['.', 'r', 's'],
            string_views(out@) == dedup(changed_paths(ls.take(i as int))),
            out@.len() > 0 ==> last@ == string_views(out@).last(),
            string_views(out@).len() == out@.len(),
        decreases lines@.len() - i,
    {
        let l = &lines[i];
        assert(ls.take(i + 1).drop_last() =~= ls.take(i as int));
        assert(ls.take(i + 1).last() == l@);
        if matches_at(l, &prefix, 0) {
            let path = slice_chars(l, 6, l.len());
            assert(path@ =~= l@.skip(6));
            if ends_with_chars(&path, &ext) {
                assert(changed_paths(ls.take(i + 1)) =~= changed_paths(ls.take(i as int)).push(
                    path@,
                ));
                let ghost xs = changed_paths(ls.take(i as int));
                assert(xs.push(path@).drop_last() =~= xs);
                assert(xs.push(path@).last() == path@);
                if !(out.len() > 0 && same_chars(&last, &path)) {
                    let s = string_of(&path);
                    let ghost before = string_views(out@);
                    out.push(s);
                    assert(string_views(out@) =~= before.push(path@));
                    last = path;
                }
            } else {
                assert(changed_paths(ls.take(i + 1)) =~= changed_paths(ls.take(i as int)));
            }
        } else {
            assert(changed_paths(ls.take(i + 1)) =~= changed_paths(ls.take(i as int)));
        }
        i = i + 1;
    }
    assert(ls.take(lines@.len() as int) =~= ls);
    out
}

/// The header that opens the diff of one file.
pub open spec fn diff_header() -> Seq<char> {
    "diff --git "@
}

/// The part of a diff that concerns `file`: from its `diff --git a/<file>` header up to the next
/// `diff --git ` header (or the end); empty when there is no such header.
pub open spec fn file_diff_spec(full: Seq<char>, file: Seq<char>) -> Seq<char> {
    let marker = "diff --git a/"@ + file;
    if !contains(full, marker) {
        seq![]
    } else {
        let rest = full.skip(first_at(full, marker));
        let tail = rest.skip(1);
        let end = if contains(tail, diff_header()) {
            first_at(tail, diff_header()) + 1
        } else {
            rest.len() as int
        };
        rest.take(end)
    }
}

/// Cuts the diff of one file out of a whole diff.
pub fn extract_file_diff(full_diff: &str, file: &str) -> (r: String)
    ensures
        r@ == file_diff_spec(full_diff@, file@),
{
    let full = chars_of(full_diff);
    let head = chars_of("diff --git a/");
    let marker = concat_chars(&head, &chars_of(file));
    let header = chars_of("diff --git ");
    let start = match find_first(&full, &marker) {
        Some(s) => s,
        None => {
            return String::new();
        },
    };
    proof {
        reveal_strlit("diff --git a/");
        assert(marker@.len() > 0);
    }
    let rest = slice_chars(&full, start, full.len());
    assert(rest@ =~= full@.skip(start as int));
    let tail = slice_chars(&rest, 1, rest.len());
    assert(tail@ =~= rest@.skip(1));
    let n = rest.len();
    let end = match find_first(&tail, &header) {
        Some(p) => p + 1,
        None => n,
    };
    let part = slice_chars(&rest, 0, end);
    assert(part@ =~= rest@.take(end as int));
    string_of(&part)
}

} // verus!
