use vstd::prelude::*;
use crate::text::{
    chars_of, contains, contains_chars, copy_chars, ends_with, ends_with_chars, find_from,
    join, join_with, lines_of, occurs_at, split_lines, string_of, total_len, trim, trim_chars,
    trim_end, trim_end_chars, views, lemma_total_len_prefix,
};

verus! {

broadcast use vstd::string::group_string_axioms;

/// A function found in a source file.
pub struct FnInfo {
    pub name: String,
    /// Index of the line that holds `fn`.
    pub line: usize,
    /// The lines from the header to the closing brace, joined by newlines.
    pub body: String,
}

/// `[A-Za-z0-9_]`.
pub open spec fn is_ident_char(c: char) -> bool {
    ('a' <= c && c <= 'z') || ('A' <= c && c <= 'Z') || ('0' <= c && c <= '9') || c == '_'
}

/// Length of the run of identifier characters that begins at `from`.
pub open spec fn ident_len(s: Seq<char>, from: int) -> int
    decreases s.len() - from,
{
    if from < 0 || from >= s.len() || !is_ident_char(s[from]) {
        0
    } else {
        1 + ident_len(s, from + 1)
    }
}

/// Opening minus closing braces in a line.
pub open spec fn brace_delta(l: Seq<char>) -> int
    decreases l.len(),
{
    if l.len() == 0 {
        0
    } else {
        brace_delta(l.drop_last()) + (if l.last() == '{' {
            1int
        } else if l.last() == '}' {
            -1int
        } else {
            0int
        })
    }
}

/// The first line at or after `li` where the brace depth, starting from `depth`, is back to
/// zero after the whole line.
pub open spec fn close_search(ls: Seq<Seq<char>>, li: int, depth: int) -> Option<int>
    decreases ls.len() - li,
{
    if li < 0 || li >= ls.len() {
        None
    } else if depth + brace_delta(ls[li]) == 0 {
        Some(li)
    } else {
        close_search(ls, li + 1, depth + brace_delta(ls[li]))
    }
}

/// The first line at or after `i` that holds `{`.
pub open spec fn brace_search(ls: Seq<Seq<char>>, i: int) -> Option<int>
    decreases ls.len() - i,
{
    if i < 0 || i >= ls.len() {
        None
    } else if contains(ls[i], seq!['{']) {
        Some(i)
    } else {
        brace_search(ls, i + 1)
    }
}

/// The keyword that opens a function header.
pub open spec fn fn_kw() -> Seq<char> {
    seq!['f', 'n', ' ']
}

/// Index of the first `fn ` in `t`.
pub open spec fn fn_pos(t: Seq<char>) -> int {
    choose|p: int|
        occurs_at(t, fn_kw(), p) && forall|q: int| 0 <= q < p ==> !occurs_at(t, fn_kw(), q)
}

#[verifier::opaque]
/// Whether a trimmed line is a function header: it holds `fn `, and before the first one there
/// is nothing, or text ending in `pub`, `async` or `unsafe`, or text holding `pub(`.
pub open spec fn header_ok(t: Seq<char>) -> bool {
    contains(t, fn_kw()) && {
        let before = t.take(fn_pos(t));
        let bt = trim_end(before);
        before.len() == 0 || ends_with(bt, seq!['p', 'u', 'b']) || contains(
            before,
            seq!['p', 'u', 'b', '('],
        ) || ends_with(bt, seq!['a', 's', 'y', 'n', 'c']) || ends_with(
            bt,
            seq!['u', 'n', 's', 'a', 'f', 'e'],
        )
    }
}

/// The identifier after the first `fn ` of a header.
#[verifier::opaque]
pub open spec fn header_name(t: Seq<char>) -> Seq<char> {
    let s = fn_pos(t) + 3;
    t.subrange(s, s + ident_len(t, s))
}

/// Where the function that begins at line `i` ends, if one does.
#[verifier::opaque]
pub open spec fn fn_end(ls: Seq<Seq<char>>, i: int) -> Option<int> {
    let t = trim(ls[i]);
    if header_ok(t) && header_name(t).len() > 0 {
        match brace_search(ls, i) {
            Some(b) => Some(
                match close_search(ls, b, 0) {
                    Some(e) => e,
                    None => b,
                },
            ),
            None => None,
        }
    } else {
        None
    }
}

proof fn lemma_brace_search(ls: Seq<Seq<char>>, i: int)
    requires
        0 <= i,
    ensures
        brace_search(ls, i) matches Some(b) ==> i <= b < ls.len() && contains(ls[b], seq!['{'])
            && forall|k: int| i <= k < b ==> !contains(#[trigger] ls[k], seq!['{']),
        brace_search(ls, i) is None ==> forall|k: int|
            i <= k < ls.len() ==> !contains(#[trigger] ls[k], seq!['{']),
    decreases ls.len() - i,
{
    if 0 <= i < ls.len() && !contains(ls[i], seq!['{']) {
        lemma_brace_search(ls, i + 1);
    }
}

proof fn lemma_close_search(ls: Seq<Seq<char>>, li: int, depth: int)
    ensures
        close_search(ls, li, depth) matches Some(e) ==> li <= e < ls.len(),
    decreases ls.len() - li,
{
    if 0 <= li < ls.len() && depth + brace_delta(ls[li]) != 0 {
        lemma_close_search(ls, li + 1, depth + brace_delta(ls[li]));
    }
}

proof fn lemma_fn_end(ls: Seq<Seq<char>>, i: int)
    requires
        0 <= i < ls.len(),
    ensures
        fn_end(ls, i) matches Some(e) ==> i <= e < ls.len(),
{
    reveal(fn_end);
    lemma_brace_search(ls, i);
    if let Some(b) = brace_search(ls, i) {
        lemma_close_search(ls, b, 0);
    }
}

/// The functions found from line `i` on: (name, line, body) of each.
pub open spec fn fns_from(ls: Seq<Seq<char>>, i: int) -> Seq<(Seq<char>, int, Seq<char>)>
    decreases ls.len() - i,
    via fns_from_decreases
{
    if i < 0 || i >= ls.len() {
        seq![]
    } else {
        match fn_end(ls, i) {
            Some(e) => seq![(header_name(trim(ls[i])), i, join(ls.subrange(i, e + 1), '\n'))].add(
                fns_from(ls, e + 1),
            ),
            None => fns_from(ls, i + 1),
        }
    }
}

#[via_fn]
proof fn fns_from_decreases(ls: Seq<Seq<char>>, i: int) {
    if 0 <= i < ls.len() {
        lemma_fn_end(ls, i);
    }
}

/// The functions of a source text.
pub open spec fn functions_spec(content: Seq<char>) -> Seq<(Seq<char>, int, Seq<char>)> {
    fns_from(lines_of(content), 0)
}

} // verus!

verus! {

/// Lines `lo` through `hi` of `ls`, joined by `sep`.
pub fn join_range(ls: &Vec<Vec<char>>, lo: usize, hi: usize, sep: char) -> (r: Vec<char>)
    requires
        lo <= hi < ls@.len(),
    ensures
        r@ == join(views(ls@).subrange(lo as int, hi + 1), sep),
{
    let n = ls.len();
    let mut sel: Vec<Vec<char>> = Vec::new();
    let mut i: usize = lo;
    while i <= hi
        invariant
            lo <= i <= hi + 1,
            hi < ls@.len(),
            n == ls@.len(),
            views(sel@) == views(ls@).subrange(lo as int, i as int),
        decreases hi + 1 - i,
    {
        let l = copy_chars(&ls[i]);
        let ghost before = views(sel@);
        sel.push(l);
        assert(views(sel@) =~= before.push(views(ls@)[i as int]));
        assert(views(sel@) =~= views(ls@).subrange(lo as int, i + 1));
        i = i + 1;
    }
    join_with(&sel, sep)
}

/// The name declared by a trimmed line, if it is a function header.
fn header_of(t: &Vec<char>) -> (r: Option<Vec<char>>)
    ensures
        r is Some <==> header_ok(t@) && header_name(t@).len() > 0,
        r matches Some(n) ==> n@ == header_name(t@),
{
    reveal(header_ok);
    reveal(header_name);
    let tn = t.len();
    let kw: Vec<char> = vec!['f', 'n', ' '];
    assert(kw@ == fn_kw());
    let p = match find_from(t, &kw, 0) {
        Some(p) => p,
        None => {
            assert(!contains(t@, fn_kw()));
            return None;
        },
    };
    proof {
        let c = fn_pos(t@);
        assert(occurs_at(t@, fn_kw(), p as int) && forall|q: int|
            0 <= q < p ==> !occurs_at(t@, fn_kw(), q));
        if c < p {
            assert(occurs_at(t@, fn_kw(), c));
        }
        if c > p {
            assert(!occurs_at(t@, fn_kw(), p as int));
        }
        assert(c == p);
    }
    let mut before: Vec<char> = Vec::new();
    let mut i: usize = 0;
    while i < p
        invariant
            i <= p,
            p + 3 <= t@.len(),
            before@ == t@.take(i as int),
        decreases p - i,
    {
        before.push(t[i]);
        assert(before@ =~= t@.take(i + 1));
        i = i + 1;
    }
    let bt = trim_end_chars(&before);
    let k_pub: Vec<char> = vec!['p', 'u', 'b'];
    let k_pub_paren: Vec<char> = vec!['p', 'u', 'b', '('];
    let k_async: Vec<char> = vec!['a', 's', 'y', 'n', 'c'];
    let k_unsafe: Vec<char> = vec!['u', 'n', 's', 'a', 'f', 'e'];
    assert(k_pub@ == seq!['p', 'u', 'b']);
    assert(k_pub_paren@ == seq!['p', 'u', 'b', '(']);
    assert(k_async@ == seq!['a', 's', 'y', 'n', 'c']);
    assert(k_unsafe@ == seq!['u', 'n', 's', 'a', 'f', 'e']);
    let ok = before.len() == 0 || ends_with_chars(&bt, &k_pub) || contains_chars(
        &before,
        &k_pub_paren,
    ) || ends_with_chars(&bt, &k_async) || ends_with_chars(&bt, &k_unsafe);
    if !ok {
        return None;
    }
    let s = p + 3;
    let mut j: usize = s;
    while j < t.len() && (('a' <= t[j] && t[j] <= 'z') || ('A' <= t[j] && t[j] <= 'Z') || ('0'
        <= t[j] && t[j] <= '9') || t[j] == '_')
        invariant
            s <= j <= t@.len(),
            ident_len(t@, s as int) == (j - s) + ident_len(t@, j as int),
        decreases t@.len() - j,
    {
        j = j + 1;
    }
    if j == s {
        return None;
    }
    let mut name: Vec<char> = Vec::new();
    let mut k: usize = s;
    while k < j
        invariant
            s <= k <= j <= t@.len(),
            name@ == t@.subrange(s as int, k as int),
        decreases j - k,
    {
        name.push(t[k]);
        assert(name@ =~= t@.subrange(s as int, k + 1));
        k = k + 1;
    }
    Some(name)
}

/// The first line at or after `i` that holds `{`.
fn find_brace_line(ls: &Vec<Vec<char>>, i: usize) -> (r: Option<usize>)
    ensures
        r matches Some(b) ==> brace_search(views(ls@), i as int) == Some(b as int),
        r is None ==> brace_search(views(ls@), i as int) is None,
{
    let open: Vec<char> = vec!['{'];
    assert(open@ == seq!['{']);
    let mut k: usize = i;
    while k < ls.len()
        invariant
            i <= k,
            open@ == seq!['{'],
            brace_search(views(ls@), i as int) == brace_search(views(ls@), k as int),
        decreases ls@.len() - k,
    {
        if contains_chars(&ls[k], &open) {
            return Some(k);
        }
        k = k + 1;
    }
    None
}

/// The line where the brace depth, counted from the start of line `b`, is back to zero; `b`
/// itself where it never is.
fn find_close(ls: &Vec<Vec<char>>, b: usize) -> (r: usize)
    requires
        b < ls@.len(),
        total_len(views(ls@)) <= usize::MAX,
    ensures
        r == (match close_search(views(ls@), b as int, 0) {
            Some(e) => e,
            None => b as int,
        }),
{
    let ghost vs = views(ls@);
    proof {
        crate::text::lemma_total_len_nonneg(vs.take(b as int));
    }
    let mut depth: i128 = 0;
    let ghost mut processed: int = 0;
    let mut li: usize = b;
    while li < ls.len()
        invariant
            b <= li,
            vs == views(ls@),
            total_len(vs) <= usize::MAX,
            close_search(vs, b as int, 0) == close_search(vs, li as int, depth as int),
            -processed <= depth <= processed,
            li <= vs.len() ==> processed <= total_len(vs.take(li as int)),
        decreases ls@.len() - li,
    {
        let line = &ls[li];
        assert(line@ == vs[li as int]);
        let ghost start = depth as int;
        proof {
            assert(vs.take(li + 1).drop_last() =~= vs.take(li as int));
            lemma_total_len_prefix(vs, li + 1);
            assert(total_len(vs.take(li + 1)) == total_len(vs.take(li as int)) + line@.len());
        }
        let mut j: usize = 0;
        while j < line.len()
            invariant
                j <= line@.len(),
                line@ == vs[li as int],
                depth as int == start + brace_delta(line@.take(j as int)),
                -processed <= depth <= processed,
                processed <= total_len(vs.take(li as int)) + j,
                total_len(vs.take(li as int)) + line@.len() <= usize::MAX,
            decreases line@.len() - j,
        {
            let c = line[j];
            assert(line@.take(j + 1).drop_last() =~= line@.take(j as int));
            if c == '{' {
                depth = depth + 1;
            } else if c == '}' {
                depth = depth - 1;
            }
            proof {
                processed = processed + 1;
            }
            j = j + 1;
        }
        assert(line@.take(j as int) =~= line@);
        if depth == 0 {
            return li;
        }
        li = li + 1;
    }
    b
}

/// The function that begins at line `i`, with its last line, if one does.
#[verifier::rlimit(40)]
fn function_at(lines: &Vec<Vec<char>>, i: usize) -> (r: Option<(FnInfo, usize)>)
    requires
        i < lines@.len(),
        total_len(views(lines@)) <= usize::MAX,
    ensures
        r is None ==> fn_end(views(lines@), i as int) is None,
        r matches Some((f, e)) ==> fn_end(views(lines@), i as int) == Some(e as int) && i <= e
            < lines@.len() && fn_view(f) == (
            header_name(trim(views(lines@)[i as int])),
            i as int,
            join(views(lines@).subrange(i as int, e + 1), '\n'),
        ),
{
    let ghost vs = views(lines@);
    reveal(fn_end);
    let t = trim_chars(&lines[i]);
    assert(t@ == trim(vs[i as int]));
    match header_of(&t) {
        Some(name) => {
            match find_brace_line(lines, i) {
                Some(b) => {
                    proof {
                        lemma_brace_search(vs, i as int);
                        assert(brace_search(vs, i as int) == Some(b as int));
                        assert(i <= b < lines@.len());
                    }
                    let e = find_close(lines, b);
                    proof {
                        lemma_close_search(vs, b as int, 0);
                        assert(b <= e < lines@.len());
                    }
                    let body = join_range(lines, i, e, '\n');
                    let f = FnInfo { name: string_of(&name), line: i, body: string_of(&body) };
                    assert(fn_end(vs, i as int) == Some(e as int));
                    Some((f, e))
                },
                None => {
                    assert(fn_end(vs, i as int) is None);
                    None
                },
            }
        },
        None => {
            assert(fn_end(vs, i as int) is None);
            None
        },
    }
}

/// The specification of a found function as (name, line, body).
pub open spec fn fn_view(f: FnInfo) -> (Seq<char>, int, Seq<char>) {
    (f.name@, f.line as int, f.body@)
}

/// Finds the functions of a source text: a header line, the first line from there that holds
/// `{`, and the line where the braces balance again; the search goes on after that line.
pub fn extract_functions(content: &str) -> (r: Vec<FnInfo>)
    ensures
        r@.map_values(|f: FnInfo| fn_view(f)) == functions_spec(content@),
{
    let cs = chars_of(content);
    let n = cs.len();
    let lines = split_lines(&cs);
    let ghost vs = views(lines@);
    let mut fns: Vec<FnInfo> = Vec::new();
    let mut i: usize = 0;
    while i < lines.len()
        invariant
            vs == views(lines@),
            vs == lines_of(content@),
            total_len(vs) <= usize::MAX,
            fns_from(vs, 0) == fns@.map_values(|f: FnInfo| fn_view(f)) + fns_from(vs, i as int),
        decreases lines@.len() - i,
    {
        let mut next = i + 1;
        let mut found: Option<FnInfo> = None;
        match function_at(&lines, i) {
            Some((f, e)) => {
                found = Some(f);
                next = e + 1;
            },
            None => {},
        }
        let ghost before = fns@.map_values(|f: FnInfo| fn_view(f));
        match found {
            Some(f) => {
                fns.push(f);
                assert(fns@.map_values(|f: FnInfo| fn_view(f)) =~= before.push(fn_view(f)));
            },
            None => {},
        }
        assert(fns_from(vs, 0) == fns@.map_values(|f: FnInfo| fn_view(f)) + fns_from(vs, next as int));
        i = next;
    }
    assert(fns_from(vs, i as int) =~= seq![]);
    assert(fns@.map_values(|f: FnInfo| fn_view(f)) + fns_from(vs, i as int) =~= fns@.map_values(|f: FnInfo| fn_view(f)));
    fns
}

} // verus!

verus! {

/// The functions found from line `i` on start at line `i` or later, each on a later line than
/// the one before.
pub proof fn lemma_fn_lines_increase(ls: Seq<Seq<char>>, i: int)
    requires
        0 <= i,
    ensures
        forall|a: int| 0 <= a < fns_from(ls, i).len() ==> #[trigger] fns_from(ls, i)[a].1 >= i,
        forall|a: int, b: int|
            0 <= a < b < fns_from(ls, i).len() ==> fns_from(ls, i)[a].1 < fns_from(ls, i)[b].1,
    decreases ls.len() - i,
{
    if i < ls.len() {
        lemma_fn_end(ls, i);
        match fn_end(ls, i) {
            Some(e) => {
                lemma_fn_lines_increase(ls, e + 1);
                let rest = fns_from(ls, e + 1);
                let fs = fns_from(ls, i);
                assert(fs == seq![(header_name(trim(ls[i])), i, join(ls.subrange(i, e + 1), '\n'))].add(rest));
                assert(fs[0].1 == i);
                assert forall|a: int| 0 <= a < fs.len() implies #[trigger] fs[a].1 >= i by {
                    if a > 0 {
                        assert(fs[a] == rest[a - 1]);
                    }
                }
                assert forall|a: int, b: int| 0 <= a < b < fs.len() implies fs[a].1 < fs[b].1 by {
                    assert(fs[b] == rest[b - 1]);
                    if a > 0 {
                        assert(fs[a] == rest[a - 1]);
                    }
                }
            },
            None => {
                lemma_fn_lines_increase(ls, i + 1);
                assert(fns_from(ls, i) == fns_from(ls, i + 1));
            },
        }
    }
}

} // verus!
