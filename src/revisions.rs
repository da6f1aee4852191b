use vstd::prelude::*;
use crate::text::{
    chars_of, concat_chars, ends_with, ends_with_chars, lines_of, matches_at, split_lines,
    starts_with, string_of, views,
};
use crate::gitdiff::string_views;
use crate::tokens::{clamp, count_tokens, tokens_or_zero};

verus! {

broadcast use vstd::string::group_string_axioms;

/// Totals of the Rust sources at one revision.
pub struct RevStats {
    pub files: usize,
    pub tokens: usize,
    pub lines: usize,
}

/// The paths of a `git ls-tree --name-only` listing that are Rust sources outside `target/`.
pub open spec fn listed_sources(ls: Seq<Seq<char>>) -> Seq<Seq<char>>
    decreases ls.len(),
{
    if ls.len() == 0 {
        seq![]
    } else {
        let l = ls.last();
        listed_sources(ls.drop_last()) + (if ends_with(l, ".rs"@) && !starts_with(l, "target/"@) {
            seq![l]
        } else {
            seq![]
        })
    }
}

/// The Rust sources named in a `git ls-tree --name-only` listing, in order.
pub fn rs_files_in_listing(listing: &str) -> (r: Vec<String>)
    ensures
        string_views(r@) == listed_sources(lines_of(listing@)),
{
    let cs = chars_of(listing);
    let lines = split_lines(&cs);
    let ghost ls = views(lines@);
    let ext = chars_of(".rs");
    let target = chars_of("target/");
    let mut out: Vec<String> = Vec::new();
    let mut i: usize = 0;
    while i < lines.len()
        invariant
            i <= lines@.len(),
            ls == views(lines@),
            ext@ == ".rs"@,
            target@ == "target/"@,
            string_views(out@) == listed_sources(ls.take(i as int)),
        decreases lines@.len() - i,
    {
        let l = &lines[i];
        assert(ls.take(i + 1).drop_last() =~= ls.take(i as int));
        assert(ls.take(i + 1).last() == l@);
        if ends_with_chars(l, &ext) && !matches_at(l, &target, 0) {
            let ghost before = string_views(out@);
            out.push(string_of(l));
            assert(string_views(out@) =~= before.push(l@));
        }
        i = i + 1;
    }
    assert(ls.take(lines@.len() as int) =~= ls);
    out
}

/// The summed tokens of a list of texts, a text the tokenizer gives up on counting zero.
pub open spec fn sum_tokens(cs: Seq<Seq<char>>) -> int
    decreases cs.len(),
{
    if cs.len() == 0 {
        0
    } else {
        sum_tokens(cs.drop_last()) + tokens_or_zero(cs.last())
    }
}

/// The summed line counts of a list of texts.
pub open spec fn sum_lines(cs: Seq<Seq<char>>) -> int
    decreases cs.len(),
{
    if cs.len() == 0 {
        0
    } else {
        sum_lines(cs.drop_last()) + lines_of(cs.last()).len()
    }
}

proof fn lemma_sums_nonneg(cs: Seq<Seq<char>>)
    ensures
        sum_tokens(cs) >= 0,
        sum_lines(cs) >= 0,
    decreases cs.len(),
{
    if cs.len() > 0 {
        lemma_sums_nonneg(cs.drop_last());
    }
}

/// Totals at a revision: `listed` source files, and the tokens and lines of the `contents` that
/// could be read (each sum stops at the largest `usize`; a text the tokenizer gives up on adds
/// no tokens).
pub fn count_rev_tokens(listed: usize, contents: &Vec<String>) -> (r: RevStats)
    ensures
        r.files == listed,
        r.tokens == clamp(sum_tokens(string_views(contents@))),
        r.lines == clamp(sum_lines(string_views(contents@))),
{
    let ghost cs = string_views(contents@);
    let mut tokens: usize = 0;
    let mut lines: usize = 0;
    let mut i: usize = 0;
    while i < contents.len()
        invariant
            i <= contents@.len(),
            cs == string_views(contents@),
            tokens == clamp(sum_tokens(cs.take(i as int))),
            lines == clamp(sum_lines(cs.take(i as int))),
        decreases contents@.len() - i,
    {
        proof {
            assert(cs.take(i + 1).drop_last() =~= cs.take(i as int));
            assert(cs.take(i + 1).last() == contents@[i as int]@);
            lemma_sums_nonneg(cs.take(i as int));
        }
        let t = match count_tokens(contents[i].as_str()) {
            Some(t) => t,
            None => 0,
        };
        let n = split_lines(&chars_of(contents[i].as_str())).len();
        tokens = tokens.saturating_add(t);
        lines = lines.saturating_add(n);
        i = i + 1;
    }
    assert(cs.take(contents@.len() as int) =~= cs);
    RevStats { files: listed, tokens, lines }
}

/// The decimal digits of `n`.
pub open spec fn decimal(n: nat) -> Seq<char>
    decreases n,
{
    if n < 10 {
        seq![(('0' as u32) + n) as char]
    } else {
        decimal(n / 10).push((('0' as u32) + (n % 10)) as char)
    }
}

/// The decimal digits of `n`.
pub fn decimal_chars(n: usize) -> (r: Vec<char>)
    ensures
        r@ == decimal(n as nat),
    decreases n,
{
    let d = n % 10;
    let c = char_of_digit(d);
    if n < 10 {
        let mut v: Vec<char> = Vec::new();
        v.push(c);
        v
    } else {
        let mut v = decimal_chars(n / 10);
        v.push(c);
        v
    }
}

fn char_of_digit(d: usize) -> (c: char)
    requires
        d < 10,
    ensures
        c == (('0' as u32) + d) as char,
{
    if d == 0 {
        '0'
    } else if d == 1 {
        '1'
    } else if d == 2 {
        '2'
    } else if d == 3 {
        '3'
    } else if d == 4 {
        '4'
    } else if d == 5 {
        '5'
    } else if d == 6 {
        '6'
    } else if d == 7 {
        '7'
    } else if d == 8 {
        '8'
    } else {
        '9'
    }
}

/// The entry of one file in a project manifest: a header with its path and token count, its
/// text, and a blank line.
pub open spec fn manifest_entry(path: Seq<char>, tokens: nat, content: Seq<char>) -> Seq<char> {
    "=== "@ + path + " ("@ + decimal(tokens) + " tokens) ===\n"@ + content + "\n\n"@
}

/// The manifest of a list of files.
pub open spec fn manifest_spec(fs: Seq<crate::tokens::FileStats>) -> Seq<char>
    decreases fs.len(),
{
    if fs.len() == 0 {
        seq![]
    } else {
        manifest_spec(fs.drop_last()) + manifest_entry(
            fs.last().path@,
            fs.last().tokens as nat,
            fs.last().content@,
        )
    }
}

/// All files of a project, each under a header with its path and token count.
pub fn build_manifest(stats: &crate::tokens::ProjectStats) -> (r: String)
    ensures
        r@ == manifest_spec(stats.files@),
{
    let mut out: Vec<char> = Vec::new();
    let mut i: usize = 0;
    while i < stats.files.len()
        invariant
            i <= stats.files@.len(),
            out@ == manifest_spec(stats.files@.take(i as int)),
        decreases stats.files@.len() - i,
    {
        let f = &stats.files[i];
        let mut entry = chars_of("=== ");
        entry = concat_chars(&entry, &chars_of(f.path.as_str()));
        entry = concat_chars(&entry, &chars_of(" ("));
        entry = concat_chars(&entry, &decimal_chars(f.tokens));
        entry = concat_chars(&entry, &chars_of(" tokens) ===\n"));
        entry = concat_chars(&entry, &chars_of(f.content.as_str()));
        entry = concat_chars(&entry, &chars_of("\n\n"));
        proof {
            assert(stats.files@.take(i + 1).drop_last() =~= stats.files@.take(i as int));
            assert(stats.files@.take(i + 1).last() == *f);
            assert(entry@ =~= manifest_entry(f.path@, f.tokens as nat, f.content@));
        }
        out = concat_chars(&out, &entry);
        i = i + 1;
    }
    assert(stats.files@.take(stats.files@.len() as int) =~= stats.files@);
    string_of(&out)
}

} // verus!
