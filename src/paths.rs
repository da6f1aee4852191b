use vstd::prelude::*;
use crate::text::{
    chars_of, concat_chars, copy_chars, ends_with, ends_with_chars, matches_at,
    slice_chars, starts_with, string_of,
};

verus! {

broadcast use vstd::string::group_string_axioms;

/// `s` with every `from` replaced by `to`.
pub open spec fn replace_char(s: Seq<char>, from: char, to: Seq<char>) -> Seq<char>
    decreases s.len(),
{
    if s.len() == 0 {
        seq![]
    } else {
        replace_char(s.drop_last(), from, to) + (if s.last() == from {
            to
        } else {
            seq![s.last()]
        })
    }
}

/// `s` with the occurrences of `p` found from left to right, none overlapping, removed.
pub open spec fn remove_all(s: Seq<char>, p: Seq<char>) -> Seq<char>
    decreases s.len(),
{
    if p.len() == 0 || s.len() < p.len() {
        s
    } else if s.take(p.len() as int) == p {
        remove_all(s.skip(p.len() as int), p)
    } else {
        seq![s[0]] + remove_all(s.skip(1), p)
    }
}

/// `s` with `p` stripped from its end as many times as it ends with it.
pub open spec fn trim_end_matches(s: Seq<char>, p: Seq<char>) -> Seq<char>
    decreases s.len(),
{
    if p.len() > 0 && ends_with(s, p) {
        trim_end_matches(s.take(s.len() - p.len()), p)
    } else {
        s
    }
}

/// `s` with `p` stripped from its start as many times as it starts with it.
pub open spec fn trim_start_matches(s: Seq<char>, p: Seq<char>) -> Seq<char>
    decreases s.len(),
{
    if p.len() > 0 && starts_with(s, p) {
        trim_start_matches(s.skip(p.len() as int), p)
    } else {
        s
    }
}

/// Replaces every `from` in `s` with `to`.
pub fn replace_chars(s: &Vec<char>, from: char, to: &Vec<char>) -> (r: Vec<char>)
    ensures
        r@ == replace_char(s@, from, to@),
{
    let mut out: Vec<char> = Vec::new();
    let mut i: usize = 0;
    assert(s@.take(0) =~= seq![]);
    while i < s.len()
        invariant
            i <= s@.len(),
            out@ == replace_char(s@.take(i as int), from, to@),
        decreases s@.len() - i,
    {
        assert(s@.take(i + 1).drop_last() =~= s@.take(i as int));
        if s[i] == from {
            out = concat_chars(&out, to);
        } else {
            out.push(s[i]);
        }
        assert(s@.take(i + 1).last() == s@[i as int]);
        assert(out@ =~= replace_char(s@.take(i + 1), from, to@));
        i = i + 1;
    }
    assert(s@.take(s@.len() as int) =~= s@);
    out
}

/// Removes the occurrences of `p` in `s`, as `remove_all` describes.
pub fn remove_matches(s: &Vec<char>, p: &Vec<char>) -> (r: Vec<char>)
    requires
        p@.len() > 0,
    ensures
        r@ == remove_all(s@, p@),
{
    let n = s.len();
    let mut out: Vec<char> = Vec::new();
    let mut i: usize = 0;
    assert(s@.skip(0) =~= s@);
    while i < n && p.len() <= n - i
        invariant
            i <= n,
            n == s@.len(),
            p@.len() > 0,
            remove_all(s@, p@) == out@ + remove_all(s@.skip(i as int), p@),
        decreases n - i,
    {
        let ghost t = s@.skip(i as int);
        if matches_at(s, p, i) {
            assert(t.take(p@.len() as int) =~= s@.subrange(i as int, i + p@.len()));
            assert(t.skip(p@.len() as int) =~= s@.skip(i + p@.len()));
            i = i + p.len();
        } else {
            assert(t.take(p@.len() as int) =~= s@.subrange(i as int, i + p@.len()));
            assert(t.skip(1) =~= s@.skip(i + 1));
            assert(t[0] == s@[i as int]);
            let ghost before = out@;
            out.push(s[i]);
            assert(out@ + remove_all(s@.skip(i + 1), p@) =~= before + (seq![t[0]] + remove_all(
                t.skip(1),
                p@,
            )));
            i = i + 1;
        }
    }
    let rest = slice_chars(s, i, n);
    assert(rest@ =~= s@.skip(i as int));
    concat_chars(&out, &rest)
}

/// Strips `p` from the end of `s` as long as `s` ends with it.
pub fn trim_end_all(s: &Vec<char>, p: &Vec<char>) -> (r: Vec<char>)
    requires
        p@.len() > 0,
    ensures
        r@ == trim_end_matches(s@, p@),
{
    let mut e: usize = s.len();
    assert(s@.take(e as int) =~= s@);
    while p.len() <= e && matches_at(s, p, e - p.len())
        invariant
            e <= s@.len(),
            p@.len() > 0,
            trim_end_matches(s@, p@) == trim_end_matches(s@.take(e as int), p@),
        decreases e,
    {
        let ghost t = s@.take(e as int);
        assert(t.subrange(e - p@.len(), e as int) =~= s@.subrange(e - p@.len(), e as int));
        assert(t.take(e - p@.len()) =~= s@.take(e - p@.len()));
        e = e - p.len();
    }
    proof {
        let ghost t = s@.take(e as int);
        if p@.len() <= e {
            assert(t.subrange(e - p@.len(), e as int) =~= s@.subrange(e - p@.len(), e as int));
        }
    }
    slice_chars(s, 0, e)
}

/// Strips `p` from the start of `s` as long as `s` starts with it.
pub fn trim_start_all(s: &Vec<char>, p: &Vec<char>) -> (r: Vec<char>)
    requires
        p@.len() > 0,
    ensures
        r@ == trim_start_matches(s@, p@),
{
    let n = s.len();
    let mut b: usize = 0;
    assert(s@.skip(0) =~= s@);
    while p.len() <= n - b && matches_at(s, p, b)
        invariant
            b <= n,
            n == s@.len(),
            p@.len() > 0,
            trim_start_matches(s@, p@) == trim_start_matches(s@.skip(b as int), p@),
        decreases n - b,
    {
        let ghost t = s@.skip(b as int);
        assert(t.subrange(0, p@.len() as int) =~= s@.subrange(b as int, b + p@.len()));
        assert(t.skip(p@.len() as int) =~= s@.skip(b + p@.len()));
        b = b + p.len();
    }
    proof {
        let ghost t = s@.skip(b as int);
        if p@.len() <= n - b {
            assert(t.subrange(0, p@.len() as int) =~= s@.subrange(b as int, b + p@.len()));
        }
    }
    slice_chars(s, b, n)
}

/// The module path of a source file: `src/` and `.rs` taken off (the whole name kept when it
/// does not end in `.rs`), `/` written `::`, every `mod` removed, trailing `::` dropped.
pub open spec fn module_path_spec(file: Seq<char>) -> Seq<char> {
    let a = if starts_with(file, seq!['s', 'r', 'c', '/']) {
        file.skip(4)
    } else {
        file
    };
    let b = if ends_with(a, seq!['.', 'r', 's']) {
        a.take(a.len() - 3)
    } else {
        file
    };
    trim_end_matches(
        remove_all(replace_char(b, '/', seq![':', ':']), seq!['m', 'o', 'd']),
        seq![':', ':'],
    )
}

/// The module path of a source file, as `module_path_spec` describes.
pub fn file_to_module_path(file: &str) -> (r: String)
    ensures
        r@ == module_path_spec(file@),
{
    let cs = chars_of(file);
    let src: Vec<char> = vec!['s', 'r', 'c', '/'];
    let ext: Vec<char> = vec!['.', 'r', 's'];
    let sep: Vec<char> = vec![':', ':'];
    let m: Vec<char> = vec!['m', 'o', 'd'];
    assert(src@ == seq!['s', 'r', 'c', '/']);
    assert(ext@ == seq!['.', 'r', 's']);
    assert(sep@ == seq![':', ':']);
    assert(m@ == seq!['m', 'o', 'd']);
    let a = if matches_at(&cs, &src, 0) {
        slice_chars(&cs, 4, cs.len())
    } else {
        copy_chars(&cs)
    };
    assert(starts_with(cs@, src@) ==> a@ =~= cs@.skip(4));
    let b = if ends_with_chars(&a, &ext) {
        slice_chars(&a, 0, a.len() - 3)
    } else {
        copy_chars(&cs)
    };
    assert(ends_with(a@, ext@) ==> b@ =~= a@.take(a@.len() - 3));
    let c = replace_chars(&b, '/', &sep);
    let d = remove_matches(&c, &m);
    string_of(&trim_end_all(&d, &sep))
}

/// Index of the last `c` in `s`, or -1.
pub open spec fn last_index_of(s: Seq<char>, c: char) -> int
    decreases s.len(),
{
    if s.len() == 0 {
        -1
    } else if s.last() == c {
        s.len() - 1
    } else {
        last_index_of(s.drop_last(), c)
    }
}

proof fn lemma_last_index_range(s: Seq<char>, c: char)
    ensures
        -1 <= last_index_of(s, c) < s.len(),
    decreases s.len(),
{
    if s.len() > 0 && s.last() != c {
        lemma_last_index_range(s.drop_last(), c);
    }
}

/// The file stem of a forward-slash path: the part after the last `/`, without the part from
/// its last `.` on when that dot is not its first character.
pub open spec fn stem_spec(path: Seq<char>) -> Seq<char> {
    let name = path.skip(last_index_of(path, '/') + 1);
    let dot = last_index_of(name, '.');
    if dot > 0 {
        name.take(dot)
    } else {
        name
    }
}

/// The index of the last `c` in `s`, if any.
fn last_index(s: &Vec<char>, c: char) -> (r: Option<usize>)
    ensures
        r is None ==> last_index_of(s@, c) == -1,
        r matches Some(i) ==> last_index_of(s@, c) == i && i < s@.len(),
{
    let mut e: usize = s.len();
    assert(s@.take(e as int) =~= s@);
    while e > 0
        invariant
            e <= s@.len(),
            last_index_of(s@, c) == last_index_of(s@.take(e as int), c),
        decreases e,
    {
        assert(s@.take(e as int).last() == s@[e - 1]);
        if s[e - 1] == c {
            return Some(e - 1);
        }
        assert(s@.take(e as int).drop_last() =~= s@.take(e - 1));
        e = e - 1;
    }
    None
}

/// The file stem of a forward-slash path, as `stem_spec` describes.
pub fn file_stem(path: &Vec<char>) -> (r: Vec<char>)
    ensures
        r@ == stem_spec(path@),
{
    let n = path.len();
    let start = match last_index(path, '/') {
        Some(i) => i + 1,
        None => 0,
    };
    let name = slice_chars(path, start, path.len());
    assert(name@ =~= path@.skip(last_index_of(path@, '/') + 1));
    match last_index(&name, '.') {
        Some(d) => {
            if d > 0 {
                slice_chars(&name, 0, d)
            } else {
                name
            }
        },
        None => name,
    }
}

/// Where generated tests for a source file go: `tests/test_<stem>.rs` when a `tests` directory
/// exists or the path starts with `src`, `test_<stem>.rs` otherwise.
pub open spec fn test_path_spec(source: Seq<char>, tests_dir_exists: bool) -> Seq<char> {
    let file = seq!['t', 'e', 's', 't', '_'] + stem_spec(source) + seq!['.', 'r', 's'];
    if tests_dir_exists || starts_with(source, seq!['s', 'r', 'c']) {
        seq!['t', 'e', 's', 't', 's', '/'] + file
    } else {
        file
    }
}

/// The default test file for a source file, as `test_path_spec` describes; whether a `tests`
/// directory exists is the caller's to find out.
pub fn default_test_path(source: &str, tests_dir_exists: bool) -> (r: String)
    ensures
        r@ == test_path_spec(source@, tests_dir_exists),
{
    let cs = chars_of(source);
    let stem = file_stem(&cs);
    let prefix: Vec<char> = vec!['t', 'e', 's', 't', '_'];
    let ext: Vec<char> = vec!['.', 'r', 's'];
    let dir: Vec<char> = vec!['t', 'e', 's', 't', 's', '/'];
    let src: Vec<char> = vec!['s', 'r', 'c'];
    assert(prefix@ == seq!['t', 'e', 's', 't', '_']);
    assert(ext@ == seq!['.', 'r', 's']);
    assert(dir@ == seq!['t', 'e', 's', 't', 's', '/']);
    assert(src@ == seq!['s', 'r', 'c']);
    let file = concat_chars(&concat_chars(&prefix, &stem), &ext);
    if tests_dir_exists || matches_at(&cs, &src, 0) {
        string_of(&concat_chars(&dir, &file))
    } else {
        string_of(&file)
    }
}

/// A path with backslashes turned into slashes and leading `./` removed.
pub open spec fn normalize_path_spec(path: Seq<char>) -> Seq<char> {
    trim_start_matches(replace_char(path, '\\', seq!['/']), seq!['.', '/'])
}

/// Normalizes a path as `normalize_path_spec` describes.
pub fn normalize(path: &str) -> (r: String)
    ensures
        r@ == normalize_path_spec(path@),
{
    let cs = chars_of(path);
    let slash: Vec<char> = vec!['/'];
    let dot_slash: Vec<char> = vec!['.', '/'];
    assert(slash@ == seq!['/']);
    assert(dot_slash@ == seq!['.', '/']);
    let r = replace_chars(&cs, '\\', &slash);
    string_of(&trim_start_all(&r, &dot_slash))
}

} // verus!

verus! {

/// Whether a forward-slash path names a Rust source outside the build output: no component is
/// `target`, and the last component has the extension `rs` (a dot that is not its first
/// character, followed by `rs`).
pub open spec fn is_rust_source_spec(path: Seq<char>) -> bool {
    let comps = crate::text::pieces(path, '/');
    let name = path.skip(last_index_of(path, '/') + 1);
    let dot = last_index_of(name, '.');
    &&& forall|i: int| 0 <= i < comps.len() ==> #[trigger] comps[i] != "target"@
    &&& dot > 0
    &&& name.skip(dot + 1) == seq!['r', 's']
}

/// Whether the file walker keeps a path, as `is_rust_source_spec` describes.
pub fn is_rust_source(path: &str) -> (r: bool)
    ensures
        r == is_rust_source_spec(path@),
{
    let cs = chars_of(path);
    let n = cs.len();
    let comps = crate::text::split_on(&cs, '/');
    let target = chars_of("target");
    let mut i: usize = 0;
    while i < comps.len()
        invariant
            i <= comps@.len(),
            target@ == "target"@,
            crate::text::views(comps@) == crate::text::pieces(path@, '/'),
            forall|k: int| 0 <= k < i ==> #[trigger] crate::text::views(comps@)[k] != "target"@,
        decreases comps@.len() - i,
    {
        if crate::deep::same_chars(&comps[i], &target) {
            assert(crate::text::views(comps@)[i as int] == "target"@);
            assert(crate::text::pieces(path@, '/')[i as int] == "target"@);
            return false;
        }
        i = i + 1;
    }
    let start = match last_index(&cs, '/') {
        Some(k) => k + 1,
        None => 0,
    };
    let name = slice_chars(&cs, start, n);
    assert(name@ =~= cs@.skip(last_index_of(cs@, '/') + 1));
    let ext: Vec<char> = vec!['r', 's'];
    assert(ext@ == seq!['r', 's']);
    match last_index(&name, '.') {
        Some(d) => {
            if d == 0 {
                return false;
            }
            let tail = slice_chars(&name, d + 1, name.len());
            assert(tail@ =~= name@.skip(d + 1));
            crate::deep::same_chars(&tail, &ext)
        },
        None => false,
    }
}

} // verus!
