use vstd::prelude::*;
use std::collections::hash_map::DefaultHasher;
use std::collections::HashMap;
use std::hash::Hasher;
use vstd::std_specs::hash::DefaultHasherAdditionalSpecFns;
use vstd::string::StringSliceAdditionalSpecFns;
use crate::text::{
    chars_of, collapse_whitespace, collapse_ws, join, join_with, lines_of, split_lines,
    string_of, views,
};
use crate::tokens::{count_tokens, tokens_or_zero, clamp};

verus! {

broadcast use {vstd::string::group_string_axioms, vstd::std_specs::hash::group_hash_axioms};

/// Number of non-blank lines in a window.
pub const WINDOW_SIZE: usize = 3;

/// Windows with fewer characters than this are too trivial to report.
pub const MIN_WINDOW_CHARS: usize = 20;

/// A block of lines found in at least two files.
pub struct DuplicateCluster {
    /// (file index, first line, last line) of each occurrence.
    pub occurrences: Vec<(usize, usize, usize)>,
    /// The source text of the first occurrence, as written (not normalized).
    pub preview: String,
    pub tokens_per_instance: usize,
}

/// Two similar functions of one file.
pub struct NearDuplicate {
    pub file_idx: usize,
    /// (name, line) of each function.
    pub fn_a: (String, usize),
    pub fn_b: (String, usize),
    pub savings: usize,
}

/// Everything the deep analysis finds.
pub struct DeepResult {
    pub clusters: Vec<DuplicateCluster>,
    pub near_dupes: Vec<NearDuplicate>,
    pub total_savings: usize,
}

/// A line with its whitespace collapsed.
pub open spec fn normalize_spec(line: Seq<char>) -> Seq<char> {
    collapse_ws(line)
}

/// Collapses each run of whitespace to one space and trims both ends.
pub fn normalize_line(line: &str) -> (r: String)
    ensures
        r@ == normalize_spec(line@),
{
    let cs = chars_of(line);
    let n = collapse_whitespace(&cs);
    string_of(&n)
}

/// The normalized lines of a text.
pub open spec fn norm_lines(content: Seq<char>) -> Seq<Seq<char>> {
    lines_of(content).map_values(|l: Seq<char>| collapse_ws(l))
}

/// What `hash_str` computes for a text: the hasher fed its UTF-8 bytes and then the byte 0xff,
/// as `Hash for str` does.
pub open spec fn text_hash(t: Seq<char>) -> u64 {
    DefaultHasher::spec_finish(seq![vstd::utf8::encode_utf8(t), seq![0xffu8]])
}

/// A 64-bit hash of a string, the value `Hash::hash` gives with a fresh `DefaultHasher`.
pub fn hash_str(s: &str) -> (r: u64)
    ensures
        r == text_hash(s@),
{
    let mut hasher = DefaultHasher::new();
    hasher.write(s.as_bytes());
    let mut end: Vec<u8> = Vec::new();
    end.push(0xffu8);
    assert(end@ =~= seq![0xffu8]);
    hasher.write(end.as_slice());
    assert(hasher@ =~= seq![s.spec_bytes(), seq![0xffu8]]);
    hasher.finish()
}

/// The indices of the non-empty lines at or after `from`, in order.
pub open spec fn nonblank_from(ls: Seq<Seq<char>>, from: int) -> Seq<int>
    decreases ls.len() - from,
{
    if from < 0 || from >= ls.len() {
        seq![]
    } else if ls[from].len() > 0 {
        seq![from].add(nonblank_from(ls, from + 1))
    } else {
        nonblank_from(ls, from + 1)
    }
}

/// The (up to three) non-empty lines that begin at `start`.
pub open spec fn window_lines(ls: Seq<Seq<char>>, start: int) -> Seq<Seq<char>> {
    let idx = nonblank_from(ls, start);
    let k = if idx.len() < 3 {
        idx.len()
    } else {
        3
    };
    Seq::new(k, |j: int| ls[idx[j]])
}

/// The text of the window that begins at `start`: its lines joined by newlines.
pub open spec fn window_text(ls: Seq<Seq<char>>, start: int) -> Seq<char> {
    join(window_lines(ls, start), '\n')
}

/// The index of the last line of the window that begins at `start`: the third non-empty line,
/// or the last line where fewer follow.
pub open spec fn window_end(ls: Seq<Seq<char>>, start: int) -> int {
    let idx = nonblank_from(ls, start);
    if idx.len() >= 3 {
        idx[2]
    } else if start < ls.len() {
        ls.len() - 1
    } else {
        start
    }
}

proof fn lemma_nonblank_bounds(ls: Seq<Seq<char>>, from: int)
    ensures
        forall|j: int|
            0 <= j < nonblank_from(ls, from).len() ==> from <= #[trigger] nonblank_from(
                ls,
                from,
            )[j] < ls.len() && ls[nonblank_from(ls, from)[j]].len() > 0,
    decreases ls.len() - from,
{
    if from >= 0 && from < ls.len() {
        lemma_nonblank_bounds(ls, from + 1);
        let rest = nonblank_from(ls, from + 1);
        if ls[from].len() > 0 {
            assert forall|j: int| 0 <= j < nonblank_from(ls, from).len() implies from
                <= #[trigger] nonblank_from(ls, from)[j] < ls.len() && ls[nonblank_from(
                ls,
                from,
            )[j]].len() > 0 by {
                if j > 0 {
                    assert(nonblank_from(ls, from)[j] == rest[j - 1]);
                }
            }
        }
    }
}

/// The window text that begins at line `start` of `ls`.
pub fn get_window_text(ls: &Vec<Vec<char>>, start: usize) -> (r: Vec<char>)
    ensures
        r@ == window_text(views(ls@), start as int),
{
    window_at(ls, start).0
}

/// The index of the last line of the window that begins at `start`.
pub fn find_window_end(ls: &Vec<Vec<char>>, start: usize) -> (r: usize)
    ensures
        r == window_end(views(ls@), start as int),
{
    let ghost v = views(ls@);
    let mut collected: usize = 0;
    let ghost mut got: Seq<int> = seq![];
    let mut end: usize = start;
    let mut i: usize = start;
    while i < ls.len()
        invariant
            v == views(ls@),
            start <= i,
            collected == got.len() < 3,
            nonblank_from(v, start as int) == got + nonblank_from(v, i as int),
            i > start ==> end == i - 1 && i <= ls@.len(),
            i == start ==> end == start,
        decreases ls@.len() - i,
    {
        end = i;
        if ls[i].len() > 0 {
            proof {
                assert(got.push(i as int) + nonblank_from(v, i + 1) =~= got + nonblank_from(
                    v,
                    i as int,
                ));
                got = got.push(i as int);
            }
            collected = collected + 1;
            if collected >= WINDOW_SIZE {
                assert(nonblank_from(v, start as int)[2] == got[2]);
                return end;
            }
        } else {
            assert(nonblank_from(v, i as int) == nonblank_from(v, i + 1));
        }
        i = i + 1;
    }
    proof {
        assert(nonblank_from(v, i as int) =~= seq![]);
        assert(nonblank_from(v, start as int) =~= got);
    }
    end
}

} // verus!

verus! {

/// The lines of each file.
pub open spec fn file_views(v: Seq<Vec<Vec<char>>>) -> Seq<Seq<Seq<char>>> {
    v.map_values(|f: Vec<Vec<char>>| views(f@))
}

/// `tokens × (n − 1) × 80 %`, rounded down, for a block that occurs `n` times.
pub open spec fn savings_spec(tokens: int, n: int) -> int {
    if n <= 1 {
        0
    } else {
        clamp(tokens * (n - 1) * 80 / 100)
    }
}

/// The tokens that factoring out a cluster would save.
pub open spec fn cluster_savings(c: DuplicateCluster) -> int {
    savings_spec(c.tokens_per_instance as int, c.occurrences@.len() as int)
}

/// Estimated tokens saved by replacing all but one occurrence of a cluster with a call.
pub fn estimate_savings(cluster: &DuplicateCluster) -> (r: usize)
    ensures
        r == cluster_savings(*cluster),
{
    let n = cluster.occurrences.len();
    if n <= 1 {
        return 0;
    }
    let t = cluster.tokens_per_instance;
    let a = t as u128;
    let b = (n - 1) as u128;
    assert(a * b <= 0xffff_ffff_ffff_ffffu128 * 0xffff_ffff_ffff_ffffu128) by (nonlinear_arith)
        requires
            a <= 0xffff_ffff_ffff_ffffu128,
            b <= 0xffff_ffff_ffff_ffffu128,
    ;
    let p: u128 = a * b;
    let lim: u128 = 0xffff_ffff_ffff_ffff_ffff_ffff_ffff_ffffu128 / 80;
    if p > lim {
        assert(p * 80 / 100 > 0xffff_ffff_ffff_ffffu128) by (nonlinear_arith)
            requires
                p > lim,
                lim == 0xffff_ffff_ffff_ffff_ffff_ffff_ffff_ffffu128 / 80,
        ;
        return usize::MAX;
    }
    assert(p * 80 <= 0xffff_ffff_ffff_ffff_ffff_ffff_ffff_ffffu128) by (nonlinear_arith)
        requires
            p <= lim,
            lim == 0xffff_ffff_ffff_ffff_ffff_ffff_ffff_ffffu128 / 80,
    ;
    let q = p * 80 / 100;
    if q > usize::MAX as u128 {
        usize::MAX
    } else {
        q as usize
    }
}

/// The lines of a file with their surrounding whitespace trimmed.
pub open spec fn trimmed_lines(ls: Seq<Seq<char>>) -> Seq<Seq<char>> {
    ls.map_values(|l: Seq<char>| crate::text::trim(l))
}

/// The source text of the window that begins at line `start`: the lines from there through the
/// third line that is not blank (or the last line), joined by newlines, as written.
pub open spec fn source_window(ls: Seq<Seq<char>>, start: int) -> Seq<char> {
    join(ls.subrange(start, window_end(trimmed_lines(ls), start) + 1), '\n')
}

/// Whether a line is blank once trimmed.
fn is_blank_line(l: &Vec<char>) -> (r: bool)
    ensures
        r == (crate::text::trim(l@).len() == 0),
{
    crate::text::trim_chars(l).len() == 0
}

/// The source text of the window that begins at line `start_line`, as `source_window`
/// describes.
pub fn get_original_window(lines: &Vec<Vec<char>>, start_line: usize) -> (r: Vec<char>)
    requires
        start_line < lines@.len(),
    ensures
        r@ == source_window(views(lines@), start_line as int),
{
    let ghost t = trimmed_lines(views(lines@));
    let mut collected: usize = 0;
    let ghost mut got: Seq<int> = seq![];
    let mut end: usize = start_line;
    let mut i: usize = start_line;
    let n = lines.len();
    proof {
        lemma_nonblank_bounds(t, start_line as int);
    }
    while i < n
        invariant_except_break
            collected == got.len() < 3,
            nonblank_from(t, start_line as int) == got + nonblank_from(t, i as int),
            i > start_line ==> end == i - 1,
            i == start_line ==> end == start_line,
        invariant
            t == trimmed_lines(views(lines@)),
            n == lines@.len(),
            t.len() == n,
            start_line <= i <= n,
            start_line < n,
        ensures
            end == window_end(t, start_line as int),
        decreases n - i,
    {
        end = i;
        assert(t[i as int] == crate::text::trim(lines@[i as int]@));
        if !is_blank_line(&lines[i]) {
            proof {
                assert(got.push(i as int) + nonblank_from(t, i + 1) =~= got + nonblank_from(
                    t,
                    i as int,
                ));
                got = got.push(i as int);
            }
            collected = collected + 1;
            if collected >= WINDOW_SIZE {
                assert(nonblank_from(t, start_line as int)[2] == got[2]);
                assert(end == window_end(t, start_line as int));
                break;
            }
        } else {
            assert(nonblank_from(t, i as int) == nonblank_from(t, i + 1));
        }
        i = i + 1;
        if i >= n {
            assert(nonblank_from(t, i as int) =~= seq![]);
            assert(nonblank_from(t, start_line as int) =~= got);
        }
    }
    proof {
        lemma_window_end_bound(t, start_line as int);
    }
    crate::functions::join_range(lines, start_line, end, '\n')
}

/// Whether an occurrence names a line of a file and ends where its window ends.
pub open spec fn occurrence_ok(ns: Seq<Seq<Seq<char>>>, o: (usize, usize, usize)) -> bool {
    &&& o.0 < ns.len()
    &&& o.1 < ns[o.0 as int].len()
    &&& o.2 == window_end(ns[o.0 as int], o.1 as int)
}

/// The window text of an occurrence.
pub open spec fn occurrence_text(ns: Seq<Seq<Seq<char>>>, o: (usize, usize, usize)) -> Seq<char> {
    window_text(ns[o.0 as int], o.1 as int)
}

/// What every reported cluster satisfies, over the normalized lines `ns` and the source lines
/// `os` of the files: at least two occurrences, in two files, each a candidate window, in
/// increasing order of (file, line) with none twice, all with the same window text, and every
/// candidate window with the hash of the first among them.
pub open spec fn cluster_ok(
    ns: Seq<Seq<Seq<char>>>,
    os: Seq<Seq<Seq<char>>>,
    c: DuplicateCluster,
) -> bool {
    let occ = c.occurrences@;
    &&& occ.len() >= 2
    &&& exists|i: int| 0 <= i < occ.len() && (#[trigger] occ[i]).0 != occ[0].0
    &&& forall|i: int|
        0 <= i < occ.len() ==> occurrence_ok(ns, #[trigger] occ[i]) && occurrence_text(ns, occ[i])
            == occurrence_text(ns, occ[0])
    &&& occurrence_text(ns, occ[0]).len() >= MIN_WINDOW_CHARS
    &&& c.preview@ == source_window(os[occ[0].0 as int], occ[0].1 as int)
    &&& c.tokens_per_instance == tokens_or_zero(c.preview@)
    &&& forall|i: int| 0 <= i < occ.len() ==> candidate(ns, (#[trigger] occ[i]).0 as int, occ[i].1 as int)
    &&& forall|i: int, j: int|
        0 <= i < j < occ.len() ==> start_lt((occ[i].0, occ[i].1), (occ[j].0, occ[j].1))
    &&& forall|g: int, t: int|
        #[trigger] candidate(ns, g, t) && window_hash(ns, g, t) == window_hash(
            ns,
            occ[0].0 as int,
            occ[0].1 as int,
        ) ==> exists|i: int| 0 <= i < occ.len() && (#[trigger] occ[i]).0 == g && occ[i].1 == t
}

/// Whether a bucket holds every candidate window with the hash of its first start.
pub open spec fn bucket_full(ns: Seq<Seq<Seq<char>>>, fps: Seq<(usize, usize)>) -> bool {
    forall|g: int, t: int|
        #[trigger] candidate(ns, g, t) && window_hash(ns, g, t) == window_hash(
            ns,
            fps[0].0 as int,
            fps[0].1 as int,
        ) ==> exists|i: int| 0 <= i < fps.len() && (#[trigger] fps[i]).0 == g && fps[i].1 == t
}

/// Whether window start `a` comes before `b`: an earlier file, or an earlier line of the same
/// file.
pub open spec fn start_lt(a: (usize, usize), b: (usize, usize)) -> bool {
    a.0 < b.0 || (a.0 == b.0 && a.1 < b.1)
}

/// Whether a list of window starts is in increasing order, with no start twice.
pub open spec fn starts_sorted(fps: Seq<(usize, usize)>) -> bool {
    forall|i: int, j: int| 0 <= i < j < fps.len() ==> start_lt(fps[i], fps[j])
}

/// Whether occurrence `i` of `c` starts inside an occurrence of `e` in the same file.
pub open spec fn starts_inside(c: DuplicateCluster, e: DuplicateCluster, i: int) -> bool {
    exists|j: int|
        0 <= j < e.occurrences@.len() && (#[trigger] e.occurrences@[j]).0 == c.occurrences@[i].0
            && e.occurrences@[j].1 <= c.occurrences@[i].1 <= e.occurrences@[j].2
}

/// Whether every occurrence of `c` starts inside an occurrence of `e` in the same file.
pub open spec fn dominated(c: DuplicateCluster, e: DuplicateCluster) -> bool {
    forall|i: int| 0 <= i < c.occurrences@.len() ==> #[trigger] starts_inside(c, e, i)
}

/// The report order: more occurrences first, then larger savings, then the earlier first
/// window.
pub open spec fn ranks_before(a: DuplicateCluster, b: DuplicateCluster) -> bool {
    a.occurrences@.len() > b.occurrences@.len() || (a.occurrences@.len()
        == b.occurrences@.len() && (cluster_savings(a) > cluster_savings(b) || (cluster_savings(a)
        == cluster_savings(b) && !start_lt(
        (b.occurrences@[0].0, b.occurrences@[0].1),
        (a.occurrences@[0].0, a.occurrences@[0].1),
    ))))
}

/// Whether two character vectors are equal.
pub fn same_chars(a: &Vec<char>, b: &Vec<char>) -> (r: bool)
    ensures
        r == (a@ == b@),
{
    if a.len() != b.len() {
        return false;
    }
    let r = crate::text::matches_at(a, b, 0);
    proof {
        assert(a@.subrange(0, b@.len() as int) =~= a@);
    }
    r
}

proof fn lemma_window_end_bound(ls: Seq<Seq<char>>, start: int)
    requires
        0 <= start < ls.len(),
    ensures
        start <= window_end(ls, start) < ls.len(),
{
    lemma_nonblank_bounds(ls, start);
    if nonblank_from(ls, start).len() >= 3 {
        assert(start <= nonblank_from(ls, start)[2]);
    }
}

/// Every start in a bucket names a line of a file and a window of at least the minimum size.
pub open spec fn starts_ok(norm: Seq<Vec<Vec<char>>>, fps: Seq<(usize, usize)>) -> bool {
    forall|k: int|
        0 <= k < fps.len() ==> (#[trigger] fps[k]).0 < norm.len() && fps[k].1 < norm[fps[k].0 as int]@.len()
            && window_text(views(norm[fps[k].0 as int]@), fps[k].1 as int).len()
            >= MIN_WINDOW_CHARS
}

/// Whether a bucket of window starts makes a cluster: it spans two files and all its windows
/// have the same text.
pub open spec fn clusterable(ns: Seq<Seq<Seq<char>>>, fps: Seq<(usize, usize)>) -> bool {
    &&& fps.len() > 0
    &&& exists|k: int| 0 <= k < fps.len() && (#[trigger] fps[k]).0 != fps[0].0
    &&& forall|k: int|
        0 <= k < fps.len() ==> window_text(ns[(#[trigger] fps[k]).0 as int], fps[k].1 as int)
            == window_text(ns[fps[0].0 as int], fps[0].1 as int)
}

/// Builds the cluster of a bucket of window starts, if the bucket spans two files and all its
/// windows have the same text.
fn cluster_of(
    norm: &Vec<Vec<Vec<char>>>,
    orig: &Vec<Vec<Vec<char>>>,
    fps: &Vec<(usize, usize)>,
) -> (r: Option<DuplicateCluster>)
    requires
        norm@.len() == orig@.len(),
        forall|f: int| 0 <= f < norm@.len() ==> (#[trigger] norm@[f])@.len() == orig@[f]@.len(),
        starts_ok(norm@, fps@),
        forall|k: int| 0 <= k < fps@.len() ==> candidate(file_views(norm@), (#[trigger] fps@[k]).0 as int, fps@[k].1 as int),
        starts_sorted(fps@),
        fps@.len() > 0 ==> bucket_full(file_views(norm@), fps@),
    ensures
        r matches Some(c) ==> cluster_ok(file_views(norm@), file_views(orig@), c)
            && c.occurrences@.len() == fps@.len() && forall|k: int|
            0 <= k < fps@.len() ==> (#[trigger] c.occurrences@[k]).0 == fps@[k].0
                && c.occurrences@[k].1 == fps@[k].1,
        r is None ==> !clusterable(file_views(norm@), fps@),
{
    let ghost ns = file_views(norm@);
    let ghost os = file_views(orig@);
    if fps.len() == 0 {
        return None;
    }
    let (f0, s0) = fps[0];
    let mut other = false;
    let mut k: usize = 0;
    while k < fps.len()
        invariant
            k <= fps@.len(),
            fps@.len() > 0,
            f0 == fps@[0].0,
            other ==> exists|i: int| 0 <= i < k && (#[trigger] fps@[i]).0 != f0,
            !other ==> forall|i: int| 0 <= i < k ==> (#[trigger] fps@[i]).0 == f0,
        decreases fps@.len() - k,
    {
        if fps[k].0 != f0 {
            other = true;
        }
        k = k + 1;
    }
    if !other {
        return None;
    }
    let first = get_window_text(&norm[f0], s0);
    let mut k: usize = 0;
    while k < fps.len()
        invariant
            k <= fps@.len(),
            forall|i: int|
                0 <= i < k ==> window_text(
                    ns[(#[trigger] fps@[i]).0 as int],
                    fps@[i].1 as int,
                ) == first@,
            ns == file_views(norm@),
            starts_ok(norm@, fps@),
            fps@.len() > 0,
            f0 == fps@[0].0,
            s0 == fps@[0].1,
            first@ == window_text(ns[f0 as int], s0 as int),
        decreases fps@.len() - k,
    {
        let (f, s) = fps[k];
        let t = get_window_text(&norm[f], s);
        if !same_chars(&t, &first) {
            assert(window_text(ns[fps@[k as int].0 as int], fps@[k as int].1 as int) != window_text(
                ns[fps@[0].0 as int],
                fps@[0].1 as int,
            ));
            return None;
        }
        k = k + 1;
    }
    proof {
        assert(orig@[f0 as int]@.len() == norm@[f0 as int]@.len());
    }
    let preview_chars = get_original_window(&orig[f0], s0);
    let preview = string_of(&preview_chars);
    let tokens_per_instance = match count_tokens(preview.as_str()) {
        Some(t) => t,
        None => 0,
    };
    let mut occurrences: Vec<(usize, usize, usize)> = Vec::new();
    let mut k: usize = 0;
    while k < fps.len()
        invariant
            k <= fps@.len(),
            occurrences@.len() == k,
            ns == file_views(norm@),
            starts_ok(norm@, fps@),
            forall|i: int|
                0 <= i < k ==> (#[trigger] occurrences@[i]).0 == fps@[i].0 && occurrences@[i].1
                    == fps@[i].1 && occurrences@[i].2 == window_end(
                    ns[fps@[i].0 as int],
                    fps@[i].1 as int,
                ),
        decreases fps@.len() - k,
    {
        let (f, s) = fps[k];
        let e = find_window_end(&norm[f], s);
        occurrences.push((f, s, e));
        k = k + 1;
    }
    let c = DuplicateCluster { occurrences, preview, tokens_per_instance };
    proof {
        let occ = c.occurrences@;
        assert(occ[0].0 == f0 && occ[0].1 == s0);
        assert forall|i: int| 0 <= i < occ.len() implies occurrence_ok(ns, #[trigger] occ[i])
            && occurrence_text(ns, occ[i]) == occurrence_text(ns, occ[0]) by {
            assert(fps@[i].0 == occ[i].0);
        }
        let w = choose|i: int| 0 <= i < fps@.len() && (#[trigger] fps@[i]).0 != f0;
        assert(occ[w].0 != occ[0].0);
        assert(views(orig@[f0 as int]@) == os[f0 as int]);
        assert forall|i: int| 0 <= i < occ.len() implies candidate(ns, (#[trigger] occ[i]).0 as int, occ[i].1 as int) by {
            assert(fps@[i].0 == occ[i].0 && fps@[i].1 == occ[i].1);
        }
        assert forall|g: int, t: int|
            #[trigger] candidate(ns, g, t) && window_hash(ns, g, t) == window_hash(
                ns,
                occ[0].0 as int,
                occ[0].1 as int,
            ) implies exists|i: int| 0 <= i < occ.len() && (#[trigger] occ[i]).0 == g && occ[i].1 == t by {
            let i = choose|i: int| 0 <= i < fps@.len() && (#[trigger] fps@[i]).0 == g && fps@[i].1 == t;
            assert(occ[i].0 == fps@[i].0 && occ[i].1 == fps@[i].1);
        }
        assert forall|i: int, j: int| 0 <= i < j < occ.len() implies start_lt((occ[i].0, occ[i].1), (occ[j].0, occ[j].1)) by {
            assert(fps@[i].0 == occ[i].0 && fps@[i].1 == occ[i].1);
            assert(fps@[j].0 == occ[j].0 && fps@[j].1 == occ[j].1);
            assert(start_lt(fps@[i], fps@[j]));
        }
    }
    Some(c)
}

} // verus!

verus! {

/// Whether line `s` of file `f` starts a window that takes part in the search: the line is
/// non-empty, two more non-empty lines follow, and the window text has the minimum size.
pub open spec fn candidate(ns: Seq<Seq<Seq<char>>>, f: int, s: int) -> bool {
    &&& 0 <= f < ns.len()
    &&& 0 <= s < ns[f].len()
    &&& ns[f][s].len() > 0
    &&& nonblank_from(ns[f], s).len() >= 3
    &&& window_text(ns[f], s).len() >= MIN_WINDOW_CHARS
}

/// The hash of the window that begins at line `s` of file `f`.
pub open spec fn window_hash(ns: Seq<Seq<Seq<char>>>, f: int, s: int) -> u64 {
    text_hash(window_text(ns[f], s))
}

/// The window text that begins at line `start` of `ls`, and how many lines it joins.
fn window_at(ls: &Vec<Vec<char>>, start: usize) -> (r: (Vec<char>, usize))
    ensures
        r.0@ == window_text(views(ls@), start as int),
        r.1 == (if nonblank_from(views(ls@), start as int).len() < 3 {
            nonblank_from(views(ls@), start as int).len() as int
        } else {
            3
        }),
{
    let ghost v = views(ls@);
    let mut sel: Vec<Vec<char>> = Vec::new();
    let ghost mut got: Seq<int> = seq![];
    let mut i: usize = start;
    while i < ls.len() && sel.len() < WINDOW_SIZE
        invariant
            v == views(ls@),
            start <= i,
            sel@.len() == got.len() <= 3,
            nonblank_from(v, start as int) == got + nonblank_from(v, i as int),
            forall|j: int| 0 <= j < got.len() ==> views(sel@)[j] == v[#[trigger] got[j]],
        decreases ls@.len() - i,
    {
        if ls[i].len() > 0 {
            let l = crate::text::copy_chars(&ls[i]);
            sel.push(l);
            proof {
                assert(got.push(i as int) + nonblank_from(v, i + 1) =~= got + nonblank_from(
                    v,
                    i as int,
                ));
                got = got.push(i as int);
            }
        } else {
            assert(nonblank_from(v, i as int) == nonblank_from(v, i + 1));
        }
        i = i + 1;
    }
    proof {
        let idx = nonblank_from(v, start as int);
        if i >= ls@.len() {
            assert(nonblank_from(v, i as int) =~= seq![]);
            assert(idx =~= got);
        }
        assert(views(sel@) =~= window_lines(v, start as int));
    }
    let n = sel.len();
    (join_with(&sel, '\n'), n)
}

/// The buckets, each with the hash its starts share: every start is a candidate with that
/// hash, and no two buckets share a hash.
pub open spec fn buckets_ok(
    ns: Seq<Seq<Seq<char>>>,
    bs: Seq<Seq<(usize, usize)>>,
    keys: Seq<u64>,
) -> bool {
    &&& bs.len() == keys.len()
    &&& forall|b: int, k: int|
        0 <= b < bs.len() && 0 <= k < bs[b].len() ==> candidate(ns, (#[trigger] bs[b][k]).0 as int, bs[b][k].1 as int)
            && window_hash(ns, bs[b][k].0 as int, bs[b][k].1 as int) == keys[b]
    &&& forall|b1: int, b2: int| 0 <= b1 < b2 < keys.len() ==> keys[b1] != keys[b2]
    &&& forall|b: int| 0 <= b < bs.len() ==> starts_sorted(#[trigger] bs[b])
}

/// What the map from hash to starts holds while it is filled.
pub open spec fn index_ok(ns: Seq<Seq<Seq<char>>>, m: Map<u64, Vec<(usize, usize)>>, order: Seq<u64>) -> bool {
    &&& forall|h: u64, k: int|
        m.contains_key(h) && 0 <= k < m[h]@.len() ==> candidate(ns, (#[trigger] m[h]@[k]).0 as int, m[h]@[k].1 as int)
            && window_hash(ns, m[h]@[k].0 as int, m[h]@[k].1 as int) == h
    &&& forall|h: u64| #[trigger] m.contains_key(h) <==> order.contains(h)
    &&& forall|a: int, b: int| 0 <= a < b < order.len() ==> order[a] != order[b]
    &&& forall|h: u64| #[trigger] m.contains_key(h) ==> starts_sorted(m[h]@)
}

/// Whether every start in the map comes before `pos`.
pub open spec fn all_before(m: Map<u64, Vec<(usize, usize)>>, pos: (usize, usize)) -> bool {
    forall|h: u64, k: int|
        m.contains_key(h) && 0 <= k < m[h]@.len() ==> start_lt(#[trigger] m[h]@[k], pos)
}

/// Whether start `(f, s)` is in some bucket.
pub open spec fn in_some_bucket(bs: Seq<Seq<(usize, usize)>>, f: int, s: int) -> bool {
    exists|b: int, k: int|
        0 <= b < bs.len() && 0 <= k < bs[b].len() && (#[trigger] bs[b][k]).0 == f && bs[b][k].1 == s
}

/// The starts of all candidate windows, grouped by the hash of the window text; groups come in
/// the order of their first window.
fn collect_buckets(norm: &Vec<Vec<Vec<char>>>) -> (r: (Vec<Vec<(usize, usize)>>, Ghost<Seq<u64>>))
    ensures
        buckets_ok(file_views(norm@), r.0@.map_values(|v: Vec<(usize, usize)>| v@), r.1@),
        forall|f: int, s: int|
            #[trigger] candidate(file_views(norm@), f, s) ==> in_some_bucket(
                r.0@.map_values(|v: Vec<(usize, usize)>| v@),
                f,
                s,
            ),
{
    let ghost ns = file_views(norm@);
    let mut index: HashMap<u64, Vec<(usize, usize)>> = HashMap::new();
    let mut order: Vec<u64> = Vec::new();
    let mut fi: usize = 0;
    while fi < norm.len()
        invariant
            fi <= norm@.len(),
            ns == file_views(norm@),
            index_ok(ns, index@, order@),
            all_before(index@, (fi, 0)),
            forall|f: int, s: int|
                #[trigger] candidate(ns, f, s) && f < fi ==> index@.contains_key(window_hash(ns, f, s))
                    && index@[window_hash(ns, f, s)]@.contains((f as usize, s as usize)),
        decreases norm@.len() - fi,
    {
        let ls = &norm[fi];
        assert(views(ls@) == ns[fi as int]);
        let mut s: usize = 0;
        while s < ls.len()
            invariant
                fi < norm@.len(),
                ls == &norm@[fi as int],
                ns == file_views(norm@),
                views(ls@) == ns[fi as int],
                index_ok(ns, index@, order@),
                all_before(index@, (fi, s)),
                forall|f: int, t: int|
                    #[trigger] candidate(ns, f, t) && (f < fi || (f == fi && t < s)) ==> index@.contains_key(
                        window_hash(ns, f, t),
                    ) && index@[window_hash(ns, f, t)]@.contains((f as usize, t as usize)),
            decreases ls@.len() - s,
        {
            if ls[s].len() > 0 {
                let (text, count) = window_at(ls, s);
                if count == WINDOW_SIZE && text.len() >= MIN_WINDOW_CHARS {
                    let st = string_of(&text);
                    let h = hash_str(st.as_str());
                    assert(h == window_hash(ns, fi as int, s as int));
                    assert(candidate(ns, fi as int, s as int));
                    let ghost old_m = index@;
                    let ghost old_order = order@;
                    let mut v = match index.remove(&h) {
                        Some(v) => v,
                        None => {
                            order.push(h);
                            Vec::new()
                        },
                    };
                    let ghost before = v@;
                    v.push((fi, s));
                    index.insert(h, v);
                    proof {
                        assert(index@ == old_m.insert(h, v));
                        assert(old_m.contains_key(h) ==> before == old_m[h]@);
                        assert(!old_m.contains_key(h) ==> order@ == old_order.push(h) && before.len() == 0);
                        assert(old_m.contains_key(h) ==> order@ == old_order);
                        assert forall|h2: u64, k: int|
                            index@.contains_key(h2) && 0 <= k < index@[h2]@.len() implies candidate(
                                ns,
                                (#[trigger] index@[h2]@[k]).0 as int,
                                index@[h2]@[k].1 as int,
                            ) && window_hash(ns, index@[h2]@[k].0 as int, index@[h2]@[k].1 as int) == h2 by {
                            if h2 == h {
                                if k < before.len() {
                                    assert(index@[h2]@[k] == old_m[h]@[k]);
                                }
                            }
                        }
                        assert forall|h2: u64| #[trigger] index@.contains_key(h2) <==> order@.contains(h2) by {
                            if !old_m.contains_key(h) {
                                if order@.contains(h2) && h2 != h {
                                    let j = choose|j: int| 0 <= j < order@.len() && order@[j] == h2;
                                    assert(old_order[j] == h2);
                                }
                                if old_order.contains(h2) {
                                    let j = choose|j: int| 0 <= j < old_order.len() && old_order[j] == h2;
                                    assert(order@[j] == h2);
                                }
                                assert(order@[old_order.len() as int] == h);
                            }
                        }
                        assert forall|a: int, b: int| 0 <= a < b < order@.len() implies order@[a] != order@[b] by {
                            if !old_m.contains_key(h) && b == old_order.len() {
                                assert(order@[a] == old_order[a]);
                                assert(old_order.contains(order@[a]));
                            }
                        }
                        assert forall|h2: u64| #[trigger] index@.contains_key(h2) implies starts_sorted(index@[h2]@) by {
                            if h2 == h {
                                assert forall|a: int, b: int| 0 <= a < b < index@[h]@.len() implies start_lt(
                                    index@[h]@[a],
                                    index@[h]@[b],
                                ) by {
                                    if b < before.len() {
                                        assert(index@[h]@[a] == old_m[h]@[a]);
                                        assert(index@[h]@[b] == old_m[h]@[b]);
                                    } else {
                                        assert(index@[h]@[a] == old_m[h]@[a]);
                                        assert(start_lt(old_m[h]@[a], (fi, s)));
                                    }
                                }
                            }
                        }
                        assert forall|h2: u64, k: int|
                            index@.contains_key(h2) && 0 <= k < index@[h2]@.len() implies start_lt(
                            #[trigger] index@[h2]@[k],
                            (fi, (s + 1) as usize),
                        ) by {
                            if h2 == h && k < before.len() {
                                assert(index@[h]@[k] == old_m[h]@[k]);
                            } else if h2 != h {
                                assert(start_lt(old_m[h2]@[k], (fi, s)));
                            }
                        }
                        assert forall|f: int, t: int|
                            #[trigger] candidate(ns, f, t) && (f < fi || (f == fi && t < s + 1)) implies index@.contains_key(
                                window_hash(ns, f, t),
                            ) && index@[window_hash(ns, f, t)]@.contains((f as usize, t as usize)) by {
                            let wh = window_hash(ns, f, t);
                            if f == fi && t == s {
                                assert(index@[h]@[before.len() as int] == (fi, s));
                            } else if wh == h {
                                let j = choose|j: int| 0 <= j < old_m[h]@.len() && old_m[h]@[j] == (f as usize, t as usize);
                                assert(index@[h]@[j] == (f as usize, t as usize));
                            }
                        }
                    }
                } else {
                    proof {
                        assert(!candidate(ns, fi as int, s as int));
                    }
                }
            } else {
                assert(!candidate(ns, fi as int, s as int));
            }
            s = s + 1;
        }
        proof {
            assert forall|h2: u64, k: int|
                index@.contains_key(h2) && 0 <= k < index@[h2]@.len() implies start_lt(
                #[trigger] index@[h2]@[k],
                ((fi + 1) as usize, 0usize),
            ) by {
                assert(start_lt(index@[h2]@[k], (fi, s)));
            }
            assert forall|f: int, t: int| #[trigger] candidate(ns, f, t) && f < fi + 1 implies index@.contains_key(
                window_hash(ns, f, t),
            ) && index@[window_hash(ns, f, t)]@.contains((f as usize, t as usize)) by {
                if f == fi {
                    assert(t < s);
                }
            }
        }
        fi = fi + 1;
    }
    let ghost m0 = index@;
    let mut out: Vec<Vec<(usize, usize)>> = Vec::new();
    let mut k: usize = 0;
    while k < order.len()
        invariant
            k <= order@.len(),
            ns == file_views(norm@),
            index_ok(ns, m0, order@),
            out@.len() == k,
            forall|j: int| 0 <= j < k ==> (#[trigger] out@[j])@ == m0[order@[j]]@,
            forall|j: int| k <= j < order@.len() ==> index@.contains_key(#[trigger] order@[j])
                && index@[order@[j]] == m0[order@[j]],
        decreases order@.len() - k,
    {
        let h = order[k];
        assert(index@.contains_key(order@[k as int]));
        let ghost old_m = index@;
        match index.remove(&h) {
            Some(v) => {
                out.push(v);
                proof {
                    assert forall|j: int| k + 1 <= j < order@.len() implies index@.contains_key(
                        #[trigger] order@[j],
                    ) && index@[order@[j]] == m0[order@[j]] by {
                        assert(order@[j] != order@[k as int]);
                        assert(old_m.contains_key(order@[j]));
                    }
                }
            },
            None => {
                assert(false);
            },
        }
        k = k + 1;
    }
    let ghost bs = out@.map_values(|v: Vec<(usize, usize)>| v@);
    proof {
        assert forall|b: int, j: int|
            0 <= b < bs.len() && 0 <= j < bs[b].len() implies candidate(ns, (#[trigger] bs[b][j]).0 as int, bs[b][j].1 as int)
                && window_hash(ns, bs[b][j].0 as int, bs[b][j].1 as int) == order@[b] by {
            assert(out@[b]@ == m0[order@[b]]@);
            assert(order@.contains(order@[b]));
            assert(m0.contains_key(order@[b]));
        }
        assert forall|f: int, s: int| #[trigger] candidate(ns, f, s) implies in_some_bucket(bs, f, s) by {
            let wh = window_hash(ns, f, s);
            assert(m0.contains_key(wh));
            assert(order@.contains(wh));
            let b = choose|b: int| 0 <= b < order@.len() && order@[b] == wh;
            let j = choose|j: int| 0 <= j < m0[wh]@.len() && m0[wh]@[j] == (f as usize, s as usize);
            assert(out@[b]@ == m0[wh]@);
            assert(bs[b] == out@[b]@);
            assert(bs[b][j] == (f as usize, s as usize));
            vstd::std_specs::vec::axiom_spec_len(norm);
            vstd::std_specs::vec::axiom_spec_len(&norm@[f]);
            assert(bs[b][j].0 == f && bs[b][j].1 == s);
        }
    }
    (out, Ghost(order@))
}

/// Whether every occurrence of `c` starts inside an occurrence of `e` in the same file.
fn dominated_by(c: &DuplicateCluster, e: &DuplicateCluster) -> (r: bool)
    ensures
        r == dominated(*c, *e),
{
    let mut i: usize = 0;
    while i < c.occurrences.len()
        invariant
            i <= c.occurrences@.len(),
            forall|a: int| 0 <= a < i ==> #[trigger] starts_inside(*c, *e, a),
        decreases c.occurrences@.len() - i,
    {
        let (fi, s, _) = c.occurrences[i];
        let mut found = false;
        let mut j: usize = 0;
        while j < e.occurrences.len()
            invariant
                j <= e.occurrences@.len(),
                i < c.occurrences@.len(),
                c.occurrences@[i as int].0 == fi && c.occurrences@[i as int].1 == s,
                !found ==> forall|b: int|
                    0 <= b < j ==> !((#[trigger] e.occurrences@[b]).0 == fi
                        && e.occurrences@[b].1 <= s <= e.occurrences@[b].2),
                found ==> exists|b: int|
                    0 <= b < e.occurrences@.len() && (#[trigger] e.occurrences@[b]).0 == fi
                        && e.occurrences@[b].1 <= s <= e.occurrences@[b].2,
            decreases e.occurrences@.len() - j,
        {
            let (efi, es, ee) = e.occurrences[j];
            if efi == fi && es <= s && s <= ee {
                found = true;
            }
            j = j + 1;
        }
        if !found {
            assert(!starts_inside(*c, *e, i as int));
            return false;
        }
        assert(starts_inside(*c, *e, i as int));
        i = i + 1;
    }
    true
}

/// Whether some cluster of `kept` dominates `c`.
fn dominated_by_any(c: &DuplicateCluster, kept: &Vec<DuplicateCluster>) -> (r: bool)
    ensures
        r == exists|k: int| 0 <= k < kept@.len() && dominated(*c, #[trigger] kept@[k]),
{
    let mut k: usize = 0;
    while k < kept.len()
        invariant
            k <= kept@.len(),
            forall|a: int| 0 <= a < k ==> !dominated(*c, #[trigger] kept@[a]),
        decreases kept@.len() - k,
    {
        if dominated_by(c, &kept[k]) {
            return true;
        }
        k = k + 1;
    }
    false
}

/// Orders clusters so that each ranks before the ones after it.
fn sort_clusters(v: Vec<DuplicateCluster>, ns: Ghost<Seq<Seq<Seq<char>>>>, os: Ghost<
    Seq<Seq<Seq<char>>>,
>) -> (r: Vec<DuplicateCluster>)
    requires
        forall|i: int| 0 <= i < v@.len() ==> cluster_ok(ns@, os@, #[trigger] v@[i]),
    ensures
        forall|i: int| 0 <= i < r@.len() ==> cluster_ok(ns@, os@, #[trigger] r@[i]),
        forall|i: int, j: int| 0 <= i < j < r@.len() ==> ranks_before(r@[i], r@[j]),
        forall|i: int| 0 <= i < v@.len() ==> r@.contains(#[trigger] v@[i]),
{
    let ghost all = v@;
    let mut v = v;
    let mut out: Vec<DuplicateCluster> = Vec::new();
    while v.len() > 0
        invariant
            forall|i: int| 0 <= i < v@.len() ==> cluster_ok(ns@, os@, #[trigger] v@[i]),
            forall|i: int| 0 <= i < out@.len() ==> cluster_ok(ns@, os@, #[trigger] out@[i]),
            forall|i: int, j: int| 0 <= i < j < out@.len() ==> ranks_before(out@[i], out@[j]),
            v@ == all.take(v@.len() as int),
            v@.len() <= all.len(),
            forall|k: int| v@.len() <= k < all.len() ==> out@.contains(#[trigger] all[k]),
        decreases v@.len(),
    {
        let x = v.pop().unwrap();
        assert(x == all[v@.len() as int]);
        assert(v@ =~= all.take(v@.len() as int));
        assert(cluster_ok(ns@, os@, x));
        let xn = x.occurrences.len();
        let xs = estimate_savings(&x);
        let mut p: usize = 0;
        while p < out.len()
            invariant
                p <= out@.len(),
                xn == x.occurrences@.len(),
                xs == cluster_savings(x),
                xn >= 2,
                forall|i: int| 0 <= i < out@.len() ==> cluster_ok(ns@, os@, #[trigger] out@[i]),
                forall|i: int| 0 <= i < p ==> !ranks_before(x, #[trigger] out@[i]),
            ensures
                p <= out@.len(),
                forall|i: int| 0 <= i < p ==> !ranks_before(x, #[trigger] out@[i]),
                p < out@.len() ==> ranks_before(x, out@[p as int]),
            decreases out@.len() - p,
        {
            let yn = out[p].occurrences.len();
            let ys = estimate_savings(&out[p]);
            assert(cluster_ok(ns@, os@, out@[p as int]));
            let (xf, xl, _) = x.occurrences[0];
            let (yf, yl, _) = out[p].occurrences[0];
            if xn > yn || (xn == yn && (xs > ys || (xs == ys && !(yf < xf || (yf == xf && yl
                < xl))))) {
                break;
            }
            p = p + 1;
        }
        let ghost before = out@;
        out.insert(p, x);
        proof {
            assert forall|i: int, j: int| 0 <= i < j < out@.len() implies ranks_before(
                out@[i],
                out@[j],
            ) by {
                if j < p {
                    assert(out@[i] == before[i] && out@[j] == before[j]);
                } else if j == p {
                    assert(out@[i] == before[i]);
                } else if i > p {
                    assert(out@[i] == before[i - 1] && out@[j] == before[j - 1]);
                } else if i == p {
                    assert(out@[j] == before[j - 1]);
                    assert(ranks_before(before[p as int], before[j - 1]));
                } else {
                    assert(out@[i] == before[i] && out@[j] == before[j - 1]);
                }
            }
            assert forall|i: int| 0 <= i < out@.len() implies cluster_ok(
                ns@,
                os@,
                #[trigger] out@[i],
            ) by {
                if i < p {
                    assert(out@[i] == before[i]);
                } else if i > p {
                    assert(out@[i] == before[i - 1]);
                }
            }
            assert forall|k: int| v@.len() <= k < all.len() implies out@.contains(
                #[trigger] all[k],
            ) by {
                if k == v@.len() {
                    assert(out@[p as int] == x);
                } else {
                    let j = choose|j: int| 0 <= j < before.len() && before[j] == all[k];
                    if j < p {
                        assert(out@[j] == before[j]);
                    } else {
                        assert(out@[j + 1] == before[j]);
                    }
                }
            }
        }
    }
    out
}

/// Keeps each cluster, in order, unless a cluster kept before it dominates it.
fn drop_subsumed(sorted: Vec<DuplicateCluster>, ns: Ghost<Seq<Seq<Seq<char>>>>, os: Ghost<
    Seq<Seq<Seq<char>>>,
>) -> (r: Vec<DuplicateCluster>)
    requires
        forall|i: int| 0 <= i < sorted@.len() ==> cluster_ok(ns@, os@, #[trigger] sorted@[i]),
        forall|i: int, j: int|
            0 <= i < j < sorted@.len() ==> ranks_before(sorted@[i], sorted@[j]),
    ensures
        forall|i: int| 0 <= i < r@.len() ==> cluster_ok(ns@, os@, #[trigger] r@[i]),
        forall|i: int, j: int| 0 <= i < j < r@.len() ==> ranks_before(r@[i], r@[j]),
        forall|i: int, j: int| 0 <= i < j < r@.len() ==> !dominated(r@[j], r@[i]),
        forall|i: int|
            0 <= i < sorted@.len() ==> r@.contains(#[trigger] sorted@[i]) || exists|k: int|
                0 <= k < r@.len() && dominated(sorted@[i], #[trigger] r@[k]) && ranks_before(
                    r@[k],
                    sorted@[i],
                ),
{
    let n = sorted.len();
    let ghost all = sorted@;
    let mut rest = sorted;
    let mut rev: Vec<DuplicateCluster> = Vec::new();
    while rest.len() > 0
        invariant
            rest@.len() + rev@.len() == n,
            n == all.len(),
            forall|j: int| 0 <= j < rest@.len() ==> #[trigger] rest@[j] == all[j],
            forall|j: int| 0 <= j < rev@.len() ==> #[trigger] rev@[j] == all[n - 1 - j],
        decreases rest@.len(),
    {
        let x = rest.pop().unwrap();
        rev.push(x);
    }
    let mut kept: Vec<DuplicateCluster> = Vec::new();
    while rev.len() > 0
        invariant
            rev@.len() <= n,
            n == all.len(),
            forall|j: int| 0 <= j < rev@.len() ==> #[trigger] rev@[j] == all[n - 1 - j],
            forall|i: int| 0 <= i < all.len() ==> cluster_ok(ns@, os@, #[trigger] all[i]),
            forall|i: int, j: int| 0 <= i < j < all.len() ==> ranks_before(all[i], all[j]),
            forall|i: int| 0 <= i < kept@.len() ==> cluster_ok(ns@, os@, #[trigger] kept@[i]),
            forall|i: int, j: int| 0 <= i < j < kept@.len() ==> ranks_before(kept@[i], kept@[j]),
            forall|i: int, j: int| 0 <= i < j < kept@.len() ==> !dominated(kept@[j], kept@[i]),
            forall|i: int, j: int|
                0 <= i < kept@.len() && n - rev@.len() <= j < n ==> ranks_before(
                    #[trigger] kept@[i],
                    #[trigger] all[j],
                ),
            forall|j: int|
                0 <= j < n - rev@.len() ==> kept@.contains(#[trigger] all[j]) || exists|k: int|
                    0 <= k < kept@.len() && dominated(all[j], #[trigger] kept@[k]) && ranks_before(
                        kept@[k],
                        all[j],
                    ),
        decreases rev@.len(),
    {
        let x = rev.pop().unwrap();
        let ghost pos = n - 1 - rev@.len();
        assert(x == all[pos]);
        let ghost before = kept@;
        if !dominated_by_any(&x, &kept) {
            kept.push(x);
            proof {
                assert forall|i: int, j: int|
                    0 <= i < kept@.len() && n - rev@.len() <= j < n implies ranks_before(
                    #[trigger] kept@[i],
                    #[trigger] all[j],
                ) by {
                    if i < before.len() {
                        assert(kept@[i] == before[i]);
                        assert(ranks_before(before[i], all[pos]));
                        assert(ranks_before(all[pos], all[j]));
                    }
                }
                assert forall|i: int, j: int| 0 <= i < j < kept@.len() implies !dominated(
                    kept@[j],
                    kept@[i],
                ) by {
                    assert(kept@[i] == before[i]);
                    if j < before.len() {
                        assert(kept@[j] == before[j]);
                    }
                }
                assert(kept@[before.len() as int] == x);
            }
        }
        proof {
            assert forall|j: int| 0 <= j < n - rev@.len() implies kept@.contains(#[trigger] all[j])
                || exists|k: int| 0 <= k < kept@.len() && dominated(all[j], #[trigger] kept@[k])
                && ranks_before(kept@[k], all[j]) by {
                if j < pos {
                    if before.contains(all[j]) {
                        let w = choose|w: int| 0 <= w < before.len() && before[w] == all[j];
                        assert(kept@[w] == before[w]);
                    } else {
                        let w = choose|w: int| 0 <= w < before.len() && dominated(all[j], #[trigger] before[w])
                            && ranks_before(before[w], all[j]);
                        assert(kept@[w] == before[w]);
                    }
                } else if kept@.len() > before.len() {
                    assert(kept@[before.len() as int] == x);
                } else {
                    let w = choose|w: int| 0 <= w < before.len() && dominated(x, #[trigger] before[w]);
                    assert(ranks_before(before[w], all[pos]));
                    assert(kept@[w] == before[w]);
                }
            }
        }
    }
    kept
}

} // verus!

verus! {

/// Whether the window at line `s` of file `f` also occurs, with the same text, as a candidate
/// window of another file.
pub open spec fn shared_window(ns: Seq<Seq<Seq<char>>>, f: int, s: int) -> bool {
    exists|g: int, t: int|
        #[trigger] candidate(ns, g, t) && g != f && window_text(ns[g], t) == window_text(ns[f], s)
}

/// Whether no candidate window with a different text has the same hash as the window at line
/// `s` of file `f`.
pub open spec fn hash_clean(ns: Seq<Seq<Seq<char>>>, f: int, s: int) -> bool {
    forall|g: int, t: int|
        #[trigger] candidate(ns, g, t) && window_hash(ns, g, t) == window_hash(ns, f, s)
            ==> window_text(ns[g], t) == window_text(ns[f], s)
}

/// Whether line `s` of file `f` lies in an occurrence of one of the clusters.
pub open spec fn covered(cs: Seq<DuplicateCluster>, f: int, s: int) -> bool {
    exists|i: int, j: int|
        0 <= i < cs.len() && 0 <= j < cs[i].occurrences@.len() && (#[trigger] cs[i].occurrences@[j]).0
            == f && cs[i].occurrences@[j].1 <= s <= cs[i].occurrences@[j].2
}

/// Whether cluster `c` was built from the window starts `fps`, in order.
pub open spec fn built_from(c: DuplicateCluster, fps: Seq<(usize, usize)>) -> bool {
    &&& c.occurrences@.len() == fps.len()
    &&& forall|k: int|
        0 <= k < fps.len() ==> (#[trigger] c.occurrences@[k]).0 == fps[k].0 && c.occurrences@[k].1
            == fps[k].1
}

/// The blocks of three non-empty normalized lines that recur in at least two files, from the
/// normalized lines `norm` and the source lines `orig` of each file: every window start with
/// the same hash forms a candidate, kept only when all its windows have the same text; then the
/// clusters are put in report order and a cluster inside one kept earlier is dropped. Every
/// candidate window whose text recurs in another file lies in a reported occurrence, unless a
/// window with another text has the same hash.
pub fn find_duplicate_blocks(norm: &Vec<Vec<Vec<char>>>, orig: &Vec<Vec<Vec<char>>>) -> (r: Vec<
    DuplicateCluster,
>)
    requires
        norm@.len() == orig@.len(),
        forall|f: int| 0 <= f < norm@.len() ==> (#[trigger] norm@[f])@.len() == orig@[f]@.len(),
    ensures
        forall|i: int|
            0 <= i < r@.len() ==> cluster_ok(file_views(norm@), file_views(orig@), #[trigger] r@[i]),
        forall|i: int, j: int| 0 <= i < j < r@.len() ==> ranks_before(r@[i], r@[j]),
        forall|i: int, j: int| 0 <= i < j < r@.len() ==> !dominated(r@[j], r@[i]),
        forall|f: int, s: int|
            #[trigger] candidate(file_views(norm@), f, s) && shared_window(file_views(norm@), f, s)
                && hash_clean(file_views(norm@), f, s) ==> covered(r@, f, s),
        none_missing(file_views(norm@), file_views(orig@), r@),
{
    let ghost ns = file_views(norm@);
    let ghost os = file_views(orig@);
    let (buckets, keys) = collect_buckets(norm);
    let ghost bs = buckets@.map_values(|v: Vec<(usize, usize)>| v@);
    proof {
        assert forall|k: int| 0 <= k < buckets@.len() implies starts_ok(norm@, (#[trigger] buckets@[k])@) by {
            assert(bs[k] == buckets@[k]@);
            assert forall|j: int| 0 <= j < buckets@[k]@.len() implies (#[trigger] buckets@[k]@[j]).0
                < norm@.len() && buckets@[k]@[j].1 < norm@[buckets@[k]@[j].0 as int]@.len() && window_text(
                views(norm@[buckets@[k]@[j].0 as int]@),
                buckets@[k]@[j].1 as int,
            ).len() >= MIN_WINDOW_CHARS by {
                assert(bs[k][j] == buckets@[k]@[j]);
                assert(candidate(ns, bs[k][j].0 as int, bs[k][j].1 as int));
            }
        }
    }
    let mut clusters: Vec<DuplicateCluster> = Vec::new();
    let mut b: usize = 0;
    while b < buckets.len()
        invariant
            b <= buckets@.len(),
            norm@.len() == orig@.len(),
            forall|f: int| 0 <= f < norm@.len() ==> (#[trigger] norm@[f])@.len() == orig@[f]@.len(),
            forall|k: int| 0 <= k < buckets@.len() ==> starts_ok(norm@, (#[trigger] buckets@[k])@),
            forall|i: int| 0 <= i < clusters@.len() ==> cluster_ok(ns, os, #[trigger] clusters@[i]),
            ns == file_views(norm@),
            os == file_views(orig@),
            bs == buckets@.map_values(|v: Vec<(usize, usize)>| v@),
            buckets_ok(ns, bs, keys@),
            forall|f: int, s: int| #[trigger] candidate(ns, f, s) ==> in_some_bucket(bs, f, s),
            forall|k: int|
                0 <= k < b && clusterable(ns, #[trigger] bs[k]) ==> exists|i: int|
                    0 <= i < clusters@.len() && built_from(#[trigger] clusters@[i], bs[k]),
        decreases buckets@.len() - b,
    {
        let ghost before = clusters@;
        proof {
            assert(bs[b as int] == buckets@[b as int]@);
            assert(starts_sorted(bs[b as int]));
            assert forall|k: int| 0 <= k < buckets@[b as int]@.len() implies candidate(ns, (#[trigger] buckets@[b as int]@[k]).0 as int, buckets@[b as int]@[k].1 as int) by {
                assert(bs[b as int][k] == buckets@[b as int]@[k]);
            }
            let fb = bs[b as int];
            if fb.len() > 0 {
                assert forall|g: int, t: int|
                    #[trigger] candidate(ns, g, t) && window_hash(ns, g, t) == window_hash(
                        ns,
                        fb[0].0 as int,
                        fb[0].1 as int,
                    ) implies exists|i: int| 0 <= i < fb.len() && (#[trigger] fb[i]).0 == g && fb[i].1 == t by {
                    assert(in_some_bucket(bs, g, t));
                    let (b2, k2) = choose|b2: int, k2: int|
                        0 <= b2 < bs.len() && 0 <= k2 < bs[b2].len() && (#[trigger] bs[b2][k2]).0 == g && bs[b2][k2].1 == t;
                    assert(keys@[b2] == window_hash(ns, g, t));
                    assert(keys@[b as int] == window_hash(ns, fb[0].0 as int, fb[0].1 as int));
                    if b2 < b {
                        assert(keys@[b2] != keys@[b as int]);
                    }
                    if b2 > b {
                        assert(keys@[b as int] != keys@[b2]);
                    }
                    assert(fb[k2].0 == g && fb[k2].1 == t);
                }
            }
        }
        match cluster_of(norm, orig, &buckets[b]) {
            Some(c) => {
                clusters.push(c);
                proof {
                    assert(bs[b as int] == buckets@[b as int]@);
                    assert(built_from(clusters@[before.len() as int], bs[b as int]));
                    assert forall|k: int|
                        0 <= k < b + 1 && clusterable(ns, #[trigger] bs[k]) implies exists|i: int|
                        0 <= i < clusters@.len() && built_from(#[trigger] clusters@[i], bs[k]) by {
                        if k < b {
                            let i = choose|i: int| 0 <= i < before.len() && built_from(#[trigger] before[i], bs[k]);
                            assert(clusters@[i] == before[i]);
                        }
                    }
                }
            },
            None => {
                assert(bs[b as int] == buckets@[b as int]@);
            },
        }
        b = b + 1;
    }
    let ghost pre = clusters@;
    let sorted = sort_clusters(clusters, Ghost(ns), Ghost(os));
    let ghost mid = sorted@;
    let r = drop_subsumed(sorted, Ghost(ns), Ghost(os));
    proof {
        assert forall|f: int, s: int|
            #[trigger] candidate(ns, f, s) && shared_window(ns, f, s) && hash_clean(ns, f, s)
                implies covered(r@, f, s) by {
            lemma_covered(ns, os, bs, keys@, pre, mid, r@, f, s);
        }
        lemma_none_missing(ns, os, bs, keys@, pre, mid, r@);
    }
    r
}

proof fn lemma_covered(
    ns: Seq<Seq<Seq<char>>>,
    os: Seq<Seq<Seq<char>>>,
    bs: Seq<Seq<(usize, usize)>>,
    keys: Seq<u64>,
    pre: Seq<DuplicateCluster>,
    mid: Seq<DuplicateCluster>,
    r: Seq<DuplicateCluster>,
    f: int,
    s: int,
)
    requires
        buckets_ok(ns, bs, keys),
        forall|f: int, s: int| #[trigger] candidate(ns, f, s) ==> in_some_bucket(bs, f, s),
        forall|k: int|
            0 <= k < bs.len() && clusterable(ns, #[trigger] bs[k]) ==> exists|i: int|
                0 <= i < pre.len() && built_from(#[trigger] pre[i], bs[k]),
        forall|i: int| 0 <= i < pre.len() ==> cluster_ok(ns, os, #[trigger] pre[i]),
        forall|i: int| 0 <= i < pre.len() ==> mid.contains(#[trigger] pre[i]),
        forall|i: int|
            0 <= i < mid.len() ==> r.contains(#[trigger] mid[i]) || exists|k: int|
                0 <= k < r.len() && dominated(mid[i], #[trigger] r[k]),
        candidate(ns, f, s),
        shared_window(ns, f, s),
        hash_clean(ns, f, s),
    ensures
        covered(r, f, s),
{
    let (b, k) = choose|b: int, k: int|
        0 <= b < bs.len() && 0 <= k < bs[b].len() && (#[trigger] bs[b][k]).0 == f && bs[b][k].1 == s;
    let (g, t) = choose|g: int, t: int|
        #[trigger] candidate(ns, g, t) && g != f && window_text(ns[g], t) == window_text(ns[f], s);
    assert(in_some_bucket(bs, g, t));
    let (b2, k2) = choose|b2: int, k2: int|
        0 <= b2 < bs.len() && 0 <= k2 < bs[b2].len() && (#[trigger] bs[b2][k2]).0 == g && bs[b2][k2].1 == t;
    assert(window_hash(ns, g, t) == window_hash(ns, f, s));
    assert(keys[b2] == window_hash(ns, g, t));
    assert(keys[b] == window_hash(ns, f, s));
    if b2 != b {
        if b < b2 {
            assert(keys[b] != keys[b2]);
        } else {
            assert(keys[b2] != keys[b]);
        }
    }
    assert(b2 == b);
    let fps = bs[b];
    assert forall|j: int| 0 <= j < fps.len() implies window_text(ns[(#[trigger] fps[j]).0 as int], fps[j].1 as int)
        == window_text(ns[fps[0].0 as int], fps[0].1 as int) by {
        assert(candidate(ns, fps[j].0 as int, fps[j].1 as int));
        assert(candidate(ns, fps[0].0 as int, fps[0].1 as int));
        assert(window_hash(ns, fps[j].0 as int, fps[j].1 as int) == keys[b]);
        assert(window_hash(ns, fps[0].0 as int, fps[0].1 as int) == keys[b]);
    }
    if fps[0].0 == f {
        assert(fps[k2].0 != fps[0].0);
    } else {
        assert(fps[k].0 != fps[0].0);
    }
    assert(clusterable(ns, fps));
    let i = choose|i: int| 0 <= i < pre.len() && built_from(#[trigger] pre[i], bs[b]);
    let c = pre[i];
    assert(cluster_ok(ns, os, c));
    assert(c.occurrences@[k].0 == f && c.occurrences@[k].1 == s);
    assert(occurrence_ok(ns, c.occurrences@[k]));
    lemma_window_end_bound(ns[f], s);
    assert(mid.contains(c));
    let m = choose|m: int| 0 <= m < mid.len() && mid[m] == c;
    if r.contains(mid[m]) {
        let q = choose|q: int| 0 <= q < r.len() && r[q] == c;
        assert(r[q].occurrences@[k].0 == f);
    } else {
        let q = choose|q: int| 0 <= q < r.len() && dominated(mid[m], #[trigger] r[q]);
        assert(starts_inside(c, r[q], k));
        let j = choose|j: int|
            0 <= j < r[q].occurrences@.len() && (#[trigger] r[q].occurrences@[j]).0 == c.occurrences@[k].0
                && r[q].occurrences@[j].1 <= c.occurrences@[k].1 <= r[q].occurrences@[j].2;
        assert(r[q].occurrences@[j].0 == f);
    }
}

} // verus!

verus! {

/// The words of a text: its whitespace-separated parts.
pub open spec fn words_of(s: Seq<char>) -> Seq<Seq<char>> {
    crate::text::pieces(collapse_ws(s), ' ')
}

/// How many words of `wa` occur in `wb`, each word of `wa` counted on its own.
pub open spec fn shared_words(wa: Seq<Seq<char>>, wb: Seq<Seq<char>>) -> int
    decreases wa.len(),
{
    if wa.len() == 0 {
        0
    } else {
        shared_words(wa.drop_last(), wb) + (if wb.contains(wa.last()) {
            1int
        } else {
            0int
        })
    }
}

/// Word-overlap similarity of two texts as (numerator, denominator): 1 for two empty texts, 0
/// when just one is empty, otherwise the words of `a` found among those of `b` over the larger
/// word count.
pub open spec fn similarity_spec(a: Seq<char>, b: Seq<char>) -> (int, int) {
    let wa = words_of(a);
    let wb = words_of(b);
    let total = if wa.len() >= wb.len() {
        wa.len()
    } else {
        wb.len()
    };
    if a.len() == 0 && b.len() == 0 {
        (1, 1)
    } else if a.len() == 0 || b.len() == 0 || total == 0 {
        (0, 1)
    } else {
        (shared_words(wa, wb), total as int)
    }
}

proof fn lemma_shared_words_bound(wa: Seq<Seq<char>>, wb: Seq<Seq<char>>)
    ensures
        0 <= shared_words(wa, wb) <= wa.len(),
    decreases wa.len(),
{
    if wa.len() > 0 {
        lemma_shared_words_bound(wa.drop_last(), wb);
    }
}

/// Whether `w` is one of the words in `ws`.
fn has_word(ws: &Vec<Vec<char>>, w: &Vec<char>) -> (r: bool)
    ensures
        r == views(ws@).contains(w@),
{
    let mut k: usize = 0;
    while k < ws.len()
        invariant
            k <= ws@.len(),
            forall|j: int| 0 <= j < k ==> views(ws@)[j] != w@,
        decreases ws@.len() - k,
    {
        if same_chars(&ws[k], w) {
            assert(views(ws@)[k as int] == w@);
            return true;
        }
        k = k + 1;
    }
    false
}

/// Word-overlap similarity of two texts, as `similarity_spec` describes.
pub fn string_similarity(a: &str, b: &str) -> (r: crate::tokens::Ratio)
    ensures
        r.num == similarity_spec(a@, b@).0,
        r.den == similarity_spec(a@, b@).1,
        r.num <= r.den <= usize::MAX,
{
    let ca = chars_of(a);
    let cb = chars_of(b);
    if ca.len() == 0 && cb.len() == 0 {
        return crate::tokens::Ratio { num: 1, den: 1 };
    }
    if ca.len() == 0 || cb.len() == 0 {
        return crate::tokens::Ratio { num: 0, den: 1 };
    }
    let wa = crate::text::split_on(&collapse_whitespace(&ca), ' ');
    let wb = crate::text::split_on(&collapse_whitespace(&cb), ' ');
    let total = if wa.len() >= wb.len() {
        wa.len()
    } else {
        wb.len()
    };
    if total == 0 {
        return crate::tokens::Ratio { num: 0, den: 1 };
    }
    let ghost va = views(wa@);
    let mut m: usize = 0;
    let mut k: usize = 0;
    while k < wa.len()
        invariant
            k <= wa@.len(),
            va == views(wa@),
            m == shared_words(va.take(k as int), views(wb@)),
            m <= k,
            wa@.len() <= total,
        decreases wa@.len() - k,
    {
        assert(va.take(k + 1).drop_last() =~= va.take(k as int));
        if has_word(&wb, &wa[k]) {
            m = m + 1;
        }
        k = k + 1;
    }
    assert(va.take(k as int) =~= va);
    crate::tokens::Ratio { num: m as u128, den: total as u128 }
}

/// Bodies shorter than this, once normalized, are not compared.
pub const MIN_BODY_CHARS: usize = 30;

/// Pairs saving fewer tokens than this are not reported.
pub const MIN_PAIR_SAVINGS: usize = 5;

/// Whether a similarity lies strictly between three quarters and one.
pub open spec fn near_enough(s: (int, int)) -> bool {
    4 * s.0 > 3 * s.1 && s.0 < s.1
}

/// 60 % of the smaller token count, rounded down (the product stops at the largest `usize`).
pub open spec fn pair_savings(ta: int, tb: int) -> int {
    let m = if ta <= tb {
        ta
    } else {
        tb
    };
    clamp(m * 60) / 100
}

/// Whether two function bodies of a file form a reported pair, and the savings it carries.
pub open spec fn pair_reported(body_a: Seq<char>, body_b: Seq<char>) -> bool {
    let na = collapse_ws(body_a);
    let nb = collapse_ws(body_b);
    na.len() >= MIN_BODY_CHARS && nb.len() >= MIN_BODY_CHARS && near_enough(similarity_spec(na, nb))
        && pair_savings(tokens_or_zero(body_a) as int, tokens_or_zero(body_b) as int) >= MIN_PAIR_SAVINGS
}

/// What every reported near-duplicate satisfies, over the texts of the files.
pub open spec fn near_ok(contents: Seq<Seq<char>>, d: NearDuplicate) -> bool {
    d.file_idx < contents.len() && {
        let fs = crate::functions::functions_spec(contents[d.file_idx as int]);
        exists|a: int, b: int|
            0 <= a < b < fs.len() && d.fn_a.0@ == (#[trigger] fs[a]).0 && d.fn_a.1 == fs[a].1
                && d.fn_b.0@ == (#[trigger] fs[b]).0 && d.fn_b.1 == fs[b].1 && pair_reported(
                fs[a].2,
                fs[b].2,
            ) && d.savings == pair_savings(tokens_or_zero(fs[a].2) as int, tokens_or_zero(fs[b].2) as int)
    }
}

} // verus!

verus! {

/// Whether functions `a` and `b` of file `f` form a pair that must be reported.
pub open spec fn reported_pair(cs: Seq<Seq<char>>, f: int, a: int, b: int) -> bool {
    let fs = crate::functions::functions_spec(cs[f]);
    0 <= f < cs.len() && 0 <= a < b < fs.len() && pair_reported(fs[a].2, fs[b].2)
}

/// Whether a list of near-duplicates holds the pair of the functions at lines `la` and `lb` of
/// file `f`.
pub open spec fn pair_listed(ds: Seq<NearDuplicate>, f: int, la: int, lb: int) -> bool {
    exists|k: int|
        0 <= k < ds.len() && (#[trigger] ds[k]).file_idx == f && ds[k].fn_a.1 == la && ds[k].fn_b.1
            == lb
}

/// Every pair that must be reported is listed.
pub open spec fn all_pairs_listed(cs: Seq<Seq<char>>, ds: Seq<NearDuplicate>) -> bool {
    forall|f: int, a: int, b: int|
        #[trigger] reported_pair(cs, f, a, b) ==> {
            let fs = crate::functions::functions_spec(cs[f]);
            pair_listed(ds, f, fs[a].1, fs[b].1)
        }
}

/// The texts of a project's files.
pub open spec fn contents_of(files: Seq<crate::tokens::FileStats>) -> Seq<Seq<char>> {
    files.map_values(|f: crate::tokens::FileStats| f.content@)
}

/// Tokens saved by merging two functions with these token counts.
fn savings_of_pair(ta: usize, tb: usize) -> (r: usize)
    ensures
        r == pair_savings(ta as int, tb as int),
{
    let m = if ta <= tb {
        ta
    } else {
        tb
    };
    match m.checked_mul(60) {
        Some(p) => p / 100,
        None => usize::MAX / 100,
    }
}

/// The reported pair among functions `i` and `j` of file `fi`, if they form one.
fn compare_pair(fi: usize, fns: &Vec<crate::functions::FnInfo>, i: usize, j: usize) -> (r: Option<
    NearDuplicate,
>)
    requires
        i < j < fns@.len(),
    ensures
        r matches Some(d) ==> d.file_idx == fi && d.fn_a.0@ == fns@[i as int].name@ && d.fn_a.1
            == fns@[i as int].line && d.fn_b.0@ == fns@[j as int].name@ && d.fn_b.1
            == fns@[j as int].line && pair_reported(fns@[i as int].body@, fns@[j as int].body@)
            && d.savings == pair_savings(
            tokens_or_zero(fns@[i as int].body@) as int,
            tokens_or_zero(fns@[j as int].body@) as int,
        ),
        r is None ==> !pair_reported(fns@[i as int].body@, fns@[j as int].body@),
{
    let a = &fns[i];
    let b = &fns[j];
    let na = collapse_whitespace(&chars_of(a.body.as_str()));
    let nb = collapse_whitespace(&chars_of(b.body.as_str()));
    if na.len() < MIN_BODY_CHARS || nb.len() < MIN_BODY_CHARS {
        return None;
    }
    let sa = string_of(&na);
    let sb = string_of(&nb);
    let sim = string_similarity(sa.as_str(), sb.as_str());
    proof {
        let (wa, wb) = (words_of(na@), words_of(nb@));
        lemma_shared_words_bound(wa, wb);
    }
    if !(4 * sim.num > 3 * sim.den && sim.num < sim.den) {
        return None;
    }
    let ta = match count_tokens(a.body.as_str()) {
        Some(t) => t,
        None => 0,
    };
    let tb = match count_tokens(b.body.as_str()) {
        Some(t) => t,
        None => 0,
    };
    let savings = savings_of_pair(ta, tb);
    if savings < MIN_PAIR_SAVINGS {
        return None;
    }
    let name_a = string_of(&chars_of(a.name.as_str()));
    let name_b = string_of(&chars_of(b.name.as_str()));
    Some(NearDuplicate { file_idx: fi, fn_a: (name_a, a.line), fn_b: (name_b, b.line), savings })
}

/// Whether near-duplicate `a` was found before `b`: an earlier file, or in the same file an
/// earlier first function, or the same first function and an earlier second one.
pub open spec fn found_before(a: NearDuplicate, b: NearDuplicate) -> bool {
    a.file_idx < b.file_idx || (a.file_idx == b.file_idx && (a.fn_a.1 < b.fn_a.1 || (a.fn_a.1
        == b.fn_a.1 && a.fn_b.1 < b.fn_b.1)))
}

/// The report order of near-duplicates: larger savings first, and equal savings in the order
/// they were found.
pub open spec fn near_before(a: NearDuplicate, b: NearDuplicate) -> bool {
    a.savings > b.savings || (a.savings == b.savings && found_before(a, b))
}

/// Pairs of functions of one file whose bodies are similar but not equal, largest savings
/// first, ties in the order found; each pair once.
pub fn find_near_duplicates(files: &Vec<crate::tokens::FileStats>) -> (r: Vec<NearDuplicate>)
    ensures
        forall|k: int| 0 <= k < r@.len() ==> near_ok(contents_of(files@), #[trigger] r@[k]),
        forall|k: int, l: int| 0 <= k < l < r@.len() ==> near_before(r@[k], r@[l]),
        all_pairs_listed(contents_of(files@), r@),
{
    let ghost cs = contents_of(files@);
    let mut found: Vec<NearDuplicate> = Vec::new();
    let mut fi: usize = 0;
    while fi < files.len()
        invariant
            fi <= files@.len(),
            cs == contents_of(files@),
            forall|k: int| 0 <= k < found@.len() ==> near_ok(cs, #[trigger] found@[k]),
            forall|k: int, l: int| 0 <= k < l < found@.len() ==> found_before(found@[k], found@[l]),
            forall|k: int| 0 <= k < found@.len() ==> (#[trigger] found@[k]).file_idx < fi,
            forall|f: int, a: int, b: int|
                #[trigger] reported_pair(cs, f, a, b) && f < fi ==> pair_listed(
                    found@,
                    f,
                    crate::functions::functions_spec(cs[f])[a].1,
                    crate::functions::functions_spec(cs[f])[b].1,
                ),
        decreases files@.len() - fi,
    {
        let fns = crate::functions::extract_functions(files[fi].content.as_str());
        let ghost fs = crate::functions::functions_spec(cs[fi as int]);
        assert(fns@.map_values(|f: crate::functions::FnInfo| crate::functions::fn_view(f)) == fs);
        assert(fs.len() == fns@.len());
        assert forall|k: int| 0 <= k < fns@.len() implies #[trigger] fs[k] == crate::functions::fn_view(fns@[k]) by {
            assert(fns@.map_values(|f: crate::functions::FnInfo| crate::functions::fn_view(f))[k] == crate::functions::fn_view(fns@[k]));
        }
        proof {
            crate::functions::lemma_fn_lines_increase(lines_of(cs[fi as int]), 0);
        }
        let mut i: usize = 0;
        while i < fns.len()
            invariant
                fi < files@.len(),
                cs == contents_of(files@),
                fs == crate::functions::functions_spec(cs[fi as int]),
                fs.len() == fns@.len(),
                forall|k: int| 0 <= k < fns@.len() ==> #[trigger] fs[k] == crate::functions::fn_view(fns@[k]),
                forall|a: int, b: int| 0 <= a < b < fs.len() ==> fs[a].1 < fs[b].1,
                forall|k: int| 0 <= k < found@.len() ==> near_ok(cs, #[trigger] found@[k]),
                forall|k: int, l: int| 0 <= k < l < found@.len() ==> found_before(found@[k], found@[l]),
                forall|k: int|
                    0 <= k < found@.len() ==> (#[trigger] found@[k]).file_idx < fi || (
                    found@[k].file_idx == fi && (i >= fns@.len() || found@[k].fn_a.1
                        < fns@[i as int].line)),
                forall|f: int, a: int, b: int|
                    #[trigger] reported_pair(cs, f, a, b) && (f < fi || (f == fi && a < i))
                        ==> pair_listed(
                        found@,
                        f,
                        crate::functions::functions_spec(cs[f])[a].1,
                        crate::functions::functions_spec(cs[f])[b].1,
                    ),
            decreases fns@.len() - i,
        {
            let mut j: usize = i + 1;
            while j < fns.len()
                invariant
                    i < j <= fns@.len(),
                    fi < files@.len(),
                    cs == contents_of(files@),
                    fs == crate::functions::functions_spec(cs[fi as int]),
                    fs.len() == fns@.len(),
                    forall|k: int| 0 <= k < fns@.len() ==> #[trigger] fs[k] == crate::functions::fn_view(fns@[k]),
                    forall|a: int, b: int| 0 <= a < b < fs.len() ==> fs[a].1 < fs[b].1,
                    forall|k: int| 0 <= k < found@.len() ==> near_ok(cs, #[trigger] found@[k]),
                    forall|k: int, l: int| 0 <= k < l < found@.len() ==> found_before(found@[k], found@[l]),
                    forall|k: int|
                        0 <= k < found@.len() ==> (#[trigger] found@[k]).file_idx < fi || (
                        found@[k].file_idx == fi && (found@[k].fn_a.1 < fns@[i as int].line || (
                        found@[k].fn_a.1 == fns@[i as int].line && (j >= fns@.len() || found@[k].fn_b.1
                            < fns@[j as int].line)))),
                    forall|f: int, a: int, b: int|
                        #[trigger] reported_pair(cs, f, a, b) && (f < fi || (f == fi && (a < i || (
                        a == i && b < j)))) ==> pair_listed(
                            found@,
                            f,
                            crate::functions::functions_spec(cs[f])[a].1,
                            crate::functions::functions_spec(cs[f])[b].1,
                        ),
                decreases fns@.len() - j,
            {
                let ghost before = found@;
                proof {
                    assert(fs[i as int] == crate::functions::fn_view(fns@[i as int]));
                    assert(fs[j as int] == crate::functions::fn_view(fns@[j as int]));
                }
                match compare_pair(fi, &fns, i, j) {
                    Some(d) => {
                        proof {
                            assert(near_ok(cs, d));
                        }
                        found.push(d);
                        proof {
                            assert(found@[before.len() as int] == d);
                            assert(pair_listed(found@, fi as int, fs[i as int].1, fs[j as int].1));
                            assert forall|f: int, la: int, lb: int|
                                pair_listed(before, f, la, lb) implies pair_listed(found@, f, la, lb) by {
                                let k = choose|k: int|
                                    0 <= k < before.len() && (#[trigger] before[k]).file_idx == f
                                        && before[k].fn_a.1 == la && before[k].fn_b.1 == lb;
                                assert(found@[k] == before[k]);
                            }
                        }
                    },
                    None => {},
                }
                proof {
                    if j + 1 < fns@.len() {
                        assert(fs[j as int].1 < fs[j + 1].1);
                    }
                }
                j = j + 1;
            }
            proof {
                if i + 1 < fns@.len() {
                    assert(fs[i as int].1 < fs[i + 1].1);
                }
            }
            i = i + 1;
        }
        fi = fi + 1;
    }
    let ghost all = found@;
    let mut rest = found;
    let mut out: Vec<NearDuplicate> = Vec::new();
    while rest.len() > 0
        invariant
            forall|k: int| 0 <= k < rest@.len() ==> near_ok(cs, #[trigger] rest@[k]),
            forall|k: int| 0 <= k < out@.len() ==> near_ok(cs, #[trigger] out@[k]),
            forall|k: int, l: int| 0 <= k < l < out@.len() ==> near_before(out@[k], out@[l]),
            forall|k: int, l: int| 0 <= k < l < all.len() ==> found_before(all[k], all[l]),
            forall|k: int|
                0 <= k < out@.len() ==> exists|m: int|
                    rest@.len() <= m < all.len() && #[trigger] out@[k] == all[m],
            rest@ == all.take(rest@.len() as int),
            rest@.len() <= all.len(),
            forall|k: int| rest@.len() <= k < all.len() ==> out@.contains(#[trigger] all[k]),
        decreases rest@.len(),
    {
        let ghost old_rest = rest@;
        let x = rest.pop().unwrap();
        assert(x == all[rest@.len() as int]);
        assert(rest@ =~= all.take(rest@.len() as int));
        let ghost xi = rest@.len() as int;
        proof {
            assert forall|k: int| 0 <= k < out@.len() implies found_before(x, #[trigger] out@[k]) by {
                let m = choose|m: int| xi + 1 <= m < all.len() && out@[k] == all[m];
            }
        }
        let mut p: usize = 0;
        while p < out.len()
            invariant
                p <= out@.len(),
                forall|k: int| 0 <= k < p ==> !near_before(x, #[trigger] out@[k]),
            ensures
                p <= out@.len(),
                forall|k: int| 0 <= k < p ==> !near_before(x, #[trigger] out@[k]),
                p < out@.len() ==> near_before(x, out@[p as int]),
            decreases out@.len() - p,
        {
            let y = &out[p];
            if x.savings > y.savings || (x.savings == y.savings && (x.file_idx < y.file_idx || (
            x.file_idx == y.file_idx && (x.fn_a.1 < y.fn_a.1 || (x.fn_a.1 == y.fn_a.1 && x.fn_b.1
                < y.fn_b.1))))) {
                break;
            }
            p = p + 1;
        }
        let ghost before = out@;
        out.insert(p, x);
        proof {
            assert forall|k: int, l: int| 0 <= k < l < out@.len() implies near_before(
                out@[k],
                out@[l],
            ) by {
                if l < p {
                    assert(out@[k] == before[k] && out@[l] == before[l]);
                } else if l == p {
                    assert(out@[k] == before[k]);
                    assert(found_before(x, before[k]));
                } else if k > p {
                    assert(out@[k] == before[k - 1] && out@[l] == before[l - 1]);
                } else if k == p {
                    assert(out@[l] == before[l - 1]);
                    assert(near_before(x, before[p as int]));
                    if l - 1 > p {
                        assert(near_before(before[p as int], before[l - 1]));
                    }
                } else {
                    assert(out@[k] == before[k] && out@[l] == before[l - 1]);
                }
            }
            assert forall|k: int| 0 <= k < out@.len() implies exists|m: int|
                rest@.len() <= m < all.len() && #[trigger] out@[k] == all[m] by {
                if k < p {
                    assert(out@[k] == before[k]);
                } else if k > p {
                    assert(out@[k] == before[k - 1]);
                } else {
                    assert(out@[k] == all[xi]);
                }
            }
            assert forall|k: int| 0 <= k < out@.len() implies near_ok(cs, #[trigger] out@[k]) by {
                if k < p {
                    assert(out@[k] == before[k]);
                } else if k > p {
                    assert(out@[k] == before[k - 1]);
                }
            }
            assert forall|k: int| rest@.len() <= k < all.len() implies out@.contains(
                #[trigger] all[k],
            ) by {
                if k == rest@.len() {
                    assert(out@[p as int] == x);
                } else {
                    let j = choose|j: int| 0 <= j < before.len() && before[j] == all[k];
                    if j < p {
                        assert(out@[j] == before[j]);
                    } else {
                        assert(out@[j + 1] == before[j]);
                    }
                }
            }
        }
    }
    proof {
        assert forall|f: int, a: int, b: int| #[trigger] reported_pair(cs, f, a, b) implies {
            let fs = crate::functions::functions_spec(cs[f]);
            pair_listed(out@, f, fs[a].1, fs[b].1)
        } by {
            let fs = crate::functions::functions_spec(cs[f]);
            let k = choose|k: int|
                0 <= k < all.len() && (#[trigger] all[k]).file_idx == f && all[k].fn_a.1 == fs[a].1
                    && all[k].fn_b.1 == fs[b].1;
            assert(out@.contains(all[k]));
            let j = choose|j: int| 0 <= j < out@.len() && out@[j] == all[k];
            assert(out@[j].file_idx == f);
        }
    }
    out
}

} // verus!

verus! {

/// The normalized lines of each file.
pub open spec fn norm_files(cs: Seq<Seq<char>>) -> Seq<Seq<Seq<char>>> {
    cs.map_values(|c: Seq<char>| norm_lines(c))
}

/// The source lines of each file, as written.
pub open spec fn orig_files(cs: Seq<Seq<char>>) -> Seq<Seq<Seq<char>>> {
    cs.map_values(|c: Seq<char>| lines_of(c))
}

/// The summed savings of a list of clusters.
pub open spec fn sum_cluster_savings(cs: Seq<DuplicateCluster>) -> int
    decreases cs.len(),
{
    if cs.len() == 0 {
        0
    } else {
        sum_cluster_savings(cs.drop_last()) + cluster_savings(cs.last())
    }
}

/// The summed savings of a list of near-duplicates.
pub open spec fn sum_near_savings(ds: Seq<NearDuplicate>) -> int
    decreases ds.len(),
{
    if ds.len() == 0 {
        0
    } else {
        sum_near_savings(ds.drop_last()) + ds.last().savings
    }
}

proof fn lemma_cluster_savings_nonneg(c: DuplicateCluster)
    ensures
        cluster_savings(c) >= 0,
{
    let t = c.tokens_per_instance as int;
    let n = c.occurrences@.len() as int;
    if n > 1 {
        assert(t * (n - 1) * 80 >= 0) by (nonlinear_arith)
            requires
                t >= 0,
                n > 1,
        ;
    }
}

proof fn lemma_sums_nonneg(cs: Seq<DuplicateCluster>, ds: Seq<NearDuplicate>)
    ensures
        sum_cluster_savings(cs) >= 0,
        sum_near_savings(ds) >= 0,
    decreases cs.len() + ds.len(),
{
    if cs.len() > 0 {
        lemma_cluster_savings_nonneg(cs.last());
        lemma_sums_nonneg(cs.drop_last(), ds);
    } else if ds.len() > 0 {
        lemma_sums_nonneg(cs, ds.drop_last());
    }
}

/// The normalized and the source lines of every file.
fn file_lines(files: &Vec<crate::tokens::FileStats>) -> (r: (Vec<Vec<Vec<char>>>, Vec<Vec<Vec<char>>>))
    ensures
        file_views(r.0@) == norm_files(contents_of(files@)),
        file_views(r.1@) == orig_files(contents_of(files@)),
        r.0@.len() == r.1@.len(),
        forall|f: int| 0 <= f < r.0@.len() ==> (#[trigger] r.0@[f])@.len() == r.1@[f]@.len(),
{
    let ghost cs = contents_of(files@);
    let mut norm: Vec<Vec<Vec<char>>> = Vec::new();
    let mut orig: Vec<Vec<Vec<char>>> = Vec::new();
    let mut fi: usize = 0;
    while fi < files.len()
        invariant
            fi <= files@.len(),
            cs == contents_of(files@),
            norm@.len() == fi,
            orig@.len() == fi,
            forall|f: int| 0 <= f < fi ==> views((#[trigger] norm@[f])@) == norm_lines(cs[f]),
            forall|f: int| 0 <= f < fi ==> views((#[trigger] orig@[f])@) == lines_of(cs[f]),
            forall|f: int| 0 <= f < fi ==> (#[trigger] norm@[f])@.len() == orig@[f]@.len(),
        decreases files@.len() - fi,
    {
        let chars = chars_of(files[fi].content.as_str());
        let lines = split_lines(&chars);
        let ghost ls = lines_of(cs[fi as int]);
        let mut nl: Vec<Vec<char>> = Vec::new();
        let mut i: usize = 0;
        while i < lines.len()
            invariant
                i <= lines@.len(),
                views(lines@) == ls,
                views(nl@) == ls.take(i as int).map_values(|l: Seq<char>| collapse_ws(l)),
            decreases lines@.len() - i,
        {
            let n = collapse_whitespace(&lines[i]);
            let ghost before = views(nl@);
            nl.push(n);
            proof {
                assert(views(nl@) =~= before.push(collapse_ws(ls[i as int])));
                assert(ls.take(i + 1).map_values(|l: Seq<char>| collapse_ws(l)) =~= ls.take(
                    i as int,
                ).map_values(|l: Seq<char>| collapse_ws(l)).push(collapse_ws(ls[i as int])));
            }
            i = i + 1;
        }
        assert(ls.take(ls.len() as int) =~= ls);
        assert(views(nl@) =~= norm_lines(cs[fi as int]));
        norm.push(nl);
        orig.push(lines);
        fi = fi + 1;
    }
    assert(file_views(norm@) =~= norm_files(cs));
    assert(file_views(orig@) =~= orig_files(cs));
    (norm, orig)
}

/// What the deep analysis of a project with these files returns: clusters that each satisfy
/// `cluster_ok`, in report order, none dominated by one before it, and covering every candidate
/// window whose text recurs in another file (barring a hash shared with another text);
/// near-duplicates that each
/// satisfy `near_ok`, in `near_before` order (so each pair once), with every pair that must be
/// reported among them;
/// and the total of all savings.
#[verifier::opaque]
pub open spec fn deep_result_ok(files: Seq<crate::tokens::FileStats>, r: DeepResult) -> bool {
    let cs = contents_of(files);
    &&& cluster_list_ok(norm_files(cs), orig_files(cs), r.clusters@)
    &&& forall|f: int, s: int|
        #[trigger] candidate(norm_files(cs), f, s) && shared_window(norm_files(cs), f, s)
            && hash_clean(norm_files(cs), f, s) ==> covered(r.clusters@, f, s)
    &&& near_list_ok(cs, r.near_dupes@)
    &&& r.total_savings == clamp(sum_cluster_savings(r.clusters@) + sum_near_savings(r.near_dupes@))
}

/// Deep analysis of a project: cross-file duplicate blocks, near-duplicate functions, and the
/// tokens that removing them would save in all.
pub fn run(stats: &crate::tokens::ProjectStats) -> (r: DeepResult)
    ensures
        deep_result_ok(stats.files@, r),
{
    let (norm, orig) = file_lines(&stats.files);
    let clusters = find_duplicate_blocks(&norm, &orig);
    let near_dupes = find_near_duplicates(&stats.files);
    let total = total_savings(&clusters, &near_dupes);
    let r = DeepResult { clusters, near_dupes, total_savings: total };
    proof {
        lemma_result_ok_intro(stats.files@, r);
    }
    r
}

/// The savings of all clusters and near-duplicates together (stopping at the largest `usize`).
fn total_savings(clusters: &Vec<DuplicateCluster>, near_dupes: &Vec<NearDuplicate>) -> (r: usize)
    ensures
        r == clamp(sum_cluster_savings(clusters@) + sum_near_savings(near_dupes@)),
{
    let mut total: usize = 0;
    let mut k: usize = 0;
    while k < clusters.len()
        invariant
            k <= clusters@.len(),
            total == clamp(sum_cluster_savings(clusters@.take(k as int))),
        decreases clusters@.len() - k,
    {
        proof {
            assert(clusters@.take(k + 1).drop_last() =~= clusters@.take(k as int));
            lemma_sums_nonneg(clusters@.take(k as int), seq![]);
            lemma_cluster_savings_nonneg(clusters@[k as int]);
        }
        total = total.saturating_add(estimate_savings(&clusters[k]));
        k = k + 1;
    }
    assert(clusters@.take(k as int) =~= clusters@);
    let mut k: usize = 0;
    while k < near_dupes.len()
        invariant
            k <= near_dupes@.len(),
            total == clamp(sum_cluster_savings(clusters@) + sum_near_savings(
                near_dupes@.take(k as int),
            )),
        decreases near_dupes@.len() - k,
    {
        proof {
            assert(near_dupes@.take(k + 1).drop_last() =~= near_dupes@.take(k as int));
            lemma_sums_nonneg(clusters@, near_dupes@.take(k as int));
        }
        total = total.saturating_add(near_dupes[k].savings);
        k = k + 1;
    }
    assert(near_dupes@.take(k as int) =~= near_dupes@);
    total
}

} // verus!

verus! {

/// Every reported cluster occurs at least twice, in at least two different files.
pub proof fn lemma_cluster_spans_files(
    ns: Seq<Seq<Seq<char>>>,
    os: Seq<Seq<Seq<char>>>,
    c: DuplicateCluster,
)
    requires
        cluster_ok(ns, os, c),
    ensures
        c.occurrences@.len() >= 2,
        exists|i: int, j: int|
            0 <= i < c.occurrences@.len() && 0 <= j < c.occurrences@.len() && (
            #[trigger] c.occurrences@[i]).0 != (#[trigger] c.occurrences@[j]).0,
{
    let occ = c.occurrences@;
    let w = choose|i: int| 0 <= i < occ.len() && (#[trigger] occ[i]).0 != occ[0].0;
    assert(occ[w].0 != occ[0].0);
}

/// All occurrences of a reported cluster have the same normalized window text, so no hash
/// collision survives.
pub proof fn lemma_cluster_same_text(
    ns: Seq<Seq<Seq<char>>>,
    os: Seq<Seq<Seq<char>>>,
    c: DuplicateCluster,
)
    requires
        cluster_ok(ns, os, c),
    ensures
        forall|i: int, j: int|
            0 <= i < c.occurrences@.len() && 0 <= j < c.occurrences@.len() ==> occurrence_text(
                ns,
                #[trigger] c.occurrences@[i],
            ) == occurrence_text(ns, #[trigger] c.occurrences@[j]),
{
}

/// No window shorter than the minimum size is part of a reported cluster.
pub proof fn lemma_cluster_windows_long(
    ns: Seq<Seq<Seq<char>>>,
    os: Seq<Seq<Seq<char>>>,
    c: DuplicateCluster,
)
    requires
        cluster_ok(ns, os, c),
    ensures
        forall|i: int|
            0 <= i < c.occurrences@.len() ==> occurrence_text(ns, #[trigger] c.occurrences@[i]).len()
                >= MIN_WINDOW_CHARS,
{
}

/// After subsumption no kept cluster lies inside a cluster kept before it.
pub proof fn lemma_kept_not_subsumed(files: Seq<crate::tokens::FileStats>, r: DeepResult)
    requires
        deep_result_ok(files, r),
    ensures
        forall|i: int, j: int|
            0 <= i < j < r.clusters@.len() ==> !dominated(r.clusters@[j], r.clusters@[i]),
{
    reveal(deep_result_ok);
}

/// Every reported near-duplicate names two functions of its file whose normalized bodies have
/// a similarity strictly between 3/4 and 1.
pub proof fn lemma_near_similarity(contents: Seq<Seq<char>>, d: NearDuplicate)
    requires
        near_ok(contents, d),
    ensures
        d.file_idx < contents.len(),
        ({
            let fs = crate::functions::functions_spec(contents[d.file_idx as int]);
            exists|a: int, b: int|
                0 <= a < b < fs.len() && d.fn_a.0@ == (#[trigger] fs[a]).0 && d.fn_b.0@ == (
                #[trigger] fs[b]).0 && {
                    let s = similarity_spec(collapse_ws(fs[a].2), collapse_ws(fs[b].2));
                    4 * s.0 > 3 * s.1 && s.0 < s.1
                }
        }),
{
}

/// Two bodies whose similarity is exactly one are never reported as near-duplicates.
pub proof fn lemma_equal_words_not_near(body_a: Seq<char>, body_b: Seq<char>)
    requires
        similarity_spec(collapse_ws(body_a), collapse_ws(body_b)).0 == similarity_spec(
            collapse_ws(body_a),
            collapse_ws(body_b),
        ).1,
    ensures
        !pair_reported(body_a, body_b),
{
}

/// A project without files yields no cluster, no near-duplicate and no savings.
pub proof fn lemma_empty_deep_result(files: Seq<crate::tokens::FileStats>, r: DeepResult)
    requires
        files.len() == 0,
        deep_result_ok(files, r),
    ensures
        r.clusters@.len() == 0,
        r.near_dupes@.len() == 0,
        r.total_savings == 0,
{
    reveal(deep_result_ok);
    let cs = contents_of(files);
    if r.clusters@.len() > 0 {
        assert(cluster_ok(norm_files(cs), orig_files(cs), r.clusters@[0]));
        assert(occurrence_ok(norm_files(cs), r.clusters@[0].occurrences@[0]));
    }
    if r.near_dupes@.len() > 0 {
        assert(near_ok(cs, r.near_dupes@[0]));
    }
    assert(r.clusters@ =~= seq![]);
    assert(r.near_dupes@ =~= seq![]);
}

} // verus!

verus! {

/// What `find_near_duplicates` ensures of its result over the texts `cs`.
pub open spec fn near_list_ok(cs: Seq<Seq<char>>, r: Seq<NearDuplicate>) -> bool {
    &&& forall|k: int| 0 <= k < r.len() ==> near_ok(cs, #[trigger] r[k])
    &&& forall|k: int, l: int| 0 <= k < l < r.len() ==> near_before(r[k], r[l])
    &&& all_pairs_listed(cs, r)
}

/// Whether two near-duplicates carry the same file, functions and savings.
pub open spec fn same_near(a: NearDuplicate, b: NearDuplicate) -> bool {
    &&& a.file_idx == b.file_idx
    &&& a.fn_a.0@ == b.fn_a.0@
    &&& a.fn_a.1 == b.fn_a.1
    &&& a.fn_b.0@ == b.fn_b.0@
    &&& a.fn_b.1 == b.fn_b.1
    &&& a.savings == b.savings
}

/// Every entry of one valid list has an entry with the same content in any other.
proof fn lemma_near_match(cs: Seq<Seq<char>>, r1: Seq<NearDuplicate>, r2: Seq<NearDuplicate>, k: int)
    requires
        near_list_ok(cs, r1),
        near_list_ok(cs, r2),
        0 <= k < r1.len(),
    ensures
        exists|m: int| 0 <= m < r2.len() && same_near(r1[k], #[trigger] r2[m]),
{
    let d = r1[k];
    assert(near_ok(cs, d));
    let f = d.file_idx as int;
    let fs = crate::functions::functions_spec(cs[f]);
    crate::functions::lemma_fn_lines_increase(lines_of(cs[f]), 0);
    let (a, b) = choose|a: int, b: int|
        0 <= a < b < fs.len() && d.fn_a.0@ == (#[trigger] fs[a]).0 && d.fn_a.1 == fs[a].1
            && d.fn_b.0@ == (#[trigger] fs[b]).0 && d.fn_b.1 == fs[b].1 && pair_reported(
            fs[a].2,
            fs[b].2,
        ) && d.savings == pair_savings(tokens_or_zero(fs[a].2) as int, tokens_or_zero(fs[b].2) as int);
    assert(reported_pair(cs, f, a, b));
    assert(pair_listed(r2, f, fs[a].1, fs[b].1));
    let m = choose|m: int|
        0 <= m < r2.len() && (#[trigger] r2[m]).file_idx == f && r2[m].fn_a.1 == fs[a].1
            && r2[m].fn_b.1 == fs[b].1;
    let e = r2[m];
    assert(near_ok(cs, e));
    let (a2, b2) = choose|a2: int, b2: int|
        0 <= a2 < b2 < fs.len() && e.fn_a.0@ == (#[trigger] fs[a2]).0 && e.fn_a.1 == fs[a2].1
            && e.fn_b.0@ == (#[trigger] fs[b2]).0 && e.fn_b.1 == fs[b2].1 && pair_reported(
            fs[a2].2,
            fs[b2].2,
        ) && e.savings == pair_savings(
            tokens_or_zero(fs[a2].2) as int,
            tokens_or_zero(fs[b2].2) as int,
        );
    if a2 < a {
        assert(fs[a2].1 < fs[a].1);
    }
    if a < a2 {
        assert(fs[a].1 < fs[a2].1);
    }
    if b2 < b {
        assert(fs[b2].1 < fs[b].1);
    }
    if b < b2 {
        assert(fs[b].1 < fs[b2].1);
    }
    assert(same_near(d, e));
}

proof fn lemma_same_up_to(cs: Seq<Seq<char>>, r1: Seq<NearDuplicate>, r2: Seq<NearDuplicate>, k: int)
    requires
        near_list_ok(cs, r1),
        near_list_ok(cs, r2),
        0 <= k <= r1.len(),
        k <= r2.len(),
    ensures
        forall|j: int| 0 <= j < k ==> same_near(#[trigger] r1[j], r2[j]),
    decreases k,
{
    if k > 0 {
        let i = k - 1;
        lemma_same_up_to(cs, r1, r2, i);
        lemma_near_match(cs, r1, r2, i);
        lemma_near_match(cs, r2, r1, i);
        let k2 = choose|m: int| 0 <= m < r2.len() && same_near(r1[i], #[trigger] r2[m]);
        let m1 = choose|m: int| 0 <= m < r1.len() && same_near(r2[i], #[trigger] r1[m]);
        if k2 < i {
            assert(same_near(r1[k2], r2[k2]));
            assert(near_before(r1[k2], r1[i]));
        }
        if m1 < i {
            assert(same_near(r1[m1], r2[m1]));
            assert(near_before(r2[m1], r2[i]));
        }
        if k2 > i {
            assert(near_before(r2[i], r2[k2]));
            if m1 > i {
                assert(near_before(r1[i], r1[m1]));
            }
        }
        assert(k2 == i);
    }
}

/// The near-duplicates are determined by the files: two lists that both satisfy what
/// `find_near_duplicates` ensures agree entry by entry.
pub proof fn lemma_near_dupes_determined(
    cs: Seq<Seq<char>>,
    r1: Seq<NearDuplicate>,
    r2: Seq<NearDuplicate>,
)
    requires
        near_list_ok(cs, r1),
        near_list_ok(cs, r2),
    ensures
        r1.len() == r2.len(),
        forall|k: int| 0 <= k < r1.len() ==> same_near(#[trigger] r1[k], r2[k]),
{
    let n = if r1.len() <= r2.len() {
        r1.len() as int
    } else {
        r2.len() as int
    };
    lemma_same_up_to(cs, r1, r2, n);
    if r1.len() > n {
        lemma_near_match(cs, r1, r2, n);
        let m = choose|m: int| 0 <= m < r2.len() && same_near(r1[n], #[trigger] r2[m]);
        assert(same_near(r1[m], r2[m]));
        assert(near_before(r1[m], r1[n]));
    }
    if r2.len() > n {
        lemma_near_match(cs, r2, r1, n);
        let m = choose|m: int| 0 <= m < r1.len() && same_near(r2[n], #[trigger] r1[m]);
        assert(same_near(r1[m], r2[m]));
        assert(near_before(r2[m], r2[n]));
    }
}

} // verus!

verus! {

/// Whether two clusters carry the same occurrences, preview and token count.
pub open spec fn same_cluster(a: DuplicateCluster, b: DuplicateCluster) -> bool {
    &&& a.occurrences@ == b.occurrences@
    &&& a.preview@ == b.preview@
    &&& a.tokens_per_instance == b.tokens_per_instance
}

proof fn lemma_occurrences_shared(
    ns: Seq<Seq<Seq<char>>>,
    os: Seq<Seq<Seq<char>>>,
    a: DuplicateCluster,
    b: DuplicateCluster,
)
    requires
        cluster_ok(ns, os, a),
        cluster_ok(ns, os, b),
        window_hash(ns, a.occurrences@[0].0 as int, a.occurrences@[0].1 as int) == window_hash(
            ns,
            b.occurrences@[0].0 as int,
            b.occurrences@[0].1 as int,
        ),
    ensures
        occ_within(a.occurrences@, b.occurrences@),
{
    let ao = a.occurrences@;
    let bo = b.occurrences@;
    assert forall|x: int| 0 <= x < ao.len() implies exists|y: int|
        0 <= y < bo.len() && bo[y] == #[trigger] ao[x] by {
        let o = ao[x];
        assert(candidate(ns, o.0 as int, o.1 as int));
        assert(occurrence_text(ns, o) == occurrence_text(ns, ao[0]));
        assert(window_hash(ns, o.0 as int, o.1 as int) == window_hash(ns, ao[0].0 as int, ao[0].1 as int));
        let y = choose|y: int| 0 <= y < bo.len() && (#[trigger] bo[y]).0 == o.0 as int && bo[y].1 == o.1 as int;
        assert(occurrence_ok(ns, bo[y]));
        assert(occurrence_ok(ns, o));
        assert(bo[y] == o);
    }
}

/// Whether occurrences are in strictly increasing order of their starts.
pub open spec fn occ_sorted(o: Seq<(usize, usize, usize)>) -> bool {
    forall|i: int, j: int| 0 <= i < j < o.len() ==> start_lt((o[i].0, o[i].1), (o[j].0, o[j].1))
}

/// Whether every occurrence of `a` is one of `b`.
pub open spec fn occ_within(a: Seq<(usize, usize, usize)>, b: Seq<(usize, usize, usize)>) -> bool {
    forall|x: int| 0 <= x < a.len() ==> exists|y: int| 0 <= y < b.len() && b[y] == #[trigger] a[x]
}

proof fn lemma_occurrences_equal_up_to(
    ao: Seq<(usize, usize, usize)>,
    bo: Seq<(usize, usize, usize)>,
    k: int,
)
    requires
        occ_sorted(ao),
        occ_sorted(bo),
        occ_within(ao, bo),
        occ_within(bo, ao),
        0 <= k <= ao.len(),
        k <= bo.len(),
    ensures
        forall|j: int| 0 <= j < k ==> #[trigger] ao[j] == bo[j],
    decreases k,
{
    if k > 0 {
        let i = k - 1;
        lemma_occurrences_equal_up_to(ao, bo, i);
        let y = choose|y: int| 0 <= y < bo.len() && bo[y] == #[trigger] ao[i];
        let x = choose|y: int| 0 <= y < ao.len() && ao[y] == #[trigger] bo[i];
        if y < i {
            assert(ao[y] == bo[y]);
            assert(start_lt((ao[y].0, ao[y].1), (ao[i].0, ao[i].1)));
        }
        if x < i {
            assert(ao[x] == bo[x]);
            assert(start_lt((bo[x].0, bo[x].1), (bo[i].0, bo[i].1)));
        }
        if y > i {
            assert(start_lt((bo[i].0, bo[i].1), (bo[y].0, bo[y].1)));
            if x > i {
                assert(start_lt((ao[i].0, ao[i].1), (ao[x].0, ao[x].1)));
            }
        }
        assert(y == i);
    }
}

proof fn lemma_occurrences_equal(ao: Seq<(usize, usize, usize)>, bo: Seq<(usize, usize, usize)>)
    requires
        occ_sorted(ao),
        occ_sorted(bo),
        occ_within(ao, bo),
        occ_within(bo, ao),
    ensures
        ao == bo,
{
    let n = if ao.len() <= bo.len() {
        ao.len() as int
    } else {
        bo.len() as int
    };
    lemma_occurrences_equal_up_to(ao, bo, n);
    if ao.len() > n {
        let y = choose|y: int| 0 <= y < bo.len() && bo[y] == #[trigger] ao[n];
        assert(ao[y] == bo[y]);
        assert(start_lt((ao[y].0, ao[y].1), (ao[n].0, ao[n].1)));
    }
    if bo.len() > n {
        let y = choose|y: int| 0 <= y < ao.len() && ao[y] == #[trigger] bo[n];
        assert(ao[y] == bo[y]);
        assert(start_lt((bo[y].0, bo[y].1), (bo[n].0, bo[n].1)));
    }
    assert(ao =~= bo);
}

proof fn lemma_cluster_sorted(ns: Seq<Seq<Seq<char>>>, os: Seq<Seq<Seq<char>>>, c: DuplicateCluster)
    requires
        cluster_ok(ns, os, c),
    ensures
        occ_sorted(c.occurrences@),
{
}

/// Two reported clusters whose first windows hash alike are the same cluster.
proof fn lemma_same_cluster(
    ns: Seq<Seq<Seq<char>>>,
    os: Seq<Seq<Seq<char>>>,
    a: DuplicateCluster,
    b: DuplicateCluster,
)
    requires
        cluster_ok(ns, os, a),
        cluster_ok(ns, os, b),
        window_hash(ns, a.occurrences@[0].0 as int, a.occurrences@[0].1 as int) == window_hash(
            ns,
            b.occurrences@[0].0 as int,
            b.occurrences@[0].1 as int,
        ),
    ensures
        same_cluster(a, b),
{
    lemma_occurrences_shared(ns, os, a, b);
    lemma_occurrences_shared(ns, os, b, a);
    lemma_cluster_sorted(ns, os, a);
    lemma_cluster_sorted(ns, os, b);
    lemma_occurrences_equal(a.occurrences@, b.occurrences@);
}

} // verus!

verus! {

/// Whether every cluster that a search could report is in `r`, or inside a cluster of `r` that
/// ranks before it.
#[verifier::opaque]
pub open spec fn none_missing(
    ns: Seq<Seq<Seq<char>>>,
    os: Seq<Seq<Seq<char>>>,
    r: Seq<DuplicateCluster>,
) -> bool {
    forall|c: DuplicateCluster|
        #[trigger] cluster_ok(ns, os, c) ==> (exists|i: int|
            0 <= i < r.len() && same_cluster(#[trigger] r[i], c)) || (exists|i: int|
            0 <= i < r.len() && dominated(c, #[trigger] r[i]) && ranks_before(r[i], c))
}

proof fn lemma_none_missing(
    ns: Seq<Seq<Seq<char>>>,
    os: Seq<Seq<Seq<char>>>,
    bs: Seq<Seq<(usize, usize)>>,
    keys: Seq<u64>,
    pre: Seq<DuplicateCluster>,
    mid: Seq<DuplicateCluster>,
    r: Seq<DuplicateCluster>,
)
    requires
        buckets_ok(ns, bs, keys),
        forall|f: int, s: int| #[trigger] candidate(ns, f, s) ==> in_some_bucket(bs, f, s),
        forall|k: int|
            0 <= k < bs.len() && clusterable(ns, #[trigger] bs[k]) ==> exists|i: int|
                0 <= i < pre.len() && built_from(#[trigger] pre[i], bs[k]),
        forall|i: int| 0 <= i < pre.len() ==> cluster_ok(ns, os, #[trigger] pre[i]),
        forall|i: int| 0 <= i < pre.len() ==> mid.contains(#[trigger] pre[i]),
        forall|i: int|
            0 <= i < mid.len() ==> r.contains(#[trigger] mid[i]) || exists|k: int|
                0 <= k < r.len() && dominated(mid[i], #[trigger] r[k]) && ranks_before(r[k], mid[i]),
    ensures
        none_missing(ns, os, r),
{
    reveal(none_missing);
    assert forall|c: DuplicateCluster| #[trigger] cluster_ok(ns, os, c) implies (exists|i: int|
        0 <= i < r.len() && same_cluster(#[trigger] r[i], c)) || (exists|i: int|
        0 <= i < r.len() && dominated(c, #[trigger] r[i]) && ranks_before(r[i], c)) by {
        lemma_kept_or_subsumed(ns, os, bs, keys, pre, mid, r, c);
    }
}

proof fn lemma_kept_or_subsumed(
    ns: Seq<Seq<Seq<char>>>,
    os: Seq<Seq<Seq<char>>>,
    bs: Seq<Seq<(usize, usize)>>,
    keys: Seq<u64>,
    pre: Seq<DuplicateCluster>,
    mid: Seq<DuplicateCluster>,
    r: Seq<DuplicateCluster>,
    c: DuplicateCluster,
)
    requires
        buckets_ok(ns, bs, keys),
        forall|f: int, s: int| #[trigger] candidate(ns, f, s) ==> in_some_bucket(bs, f, s),
        forall|k: int|
            0 <= k < bs.len() && clusterable(ns, #[trigger] bs[k]) ==> exists|i: int|
                0 <= i < pre.len() && built_from(#[trigger] pre[i], bs[k]),
        forall|i: int| 0 <= i < pre.len() ==> cluster_ok(ns, os, #[trigger] pre[i]),
        forall|i: int| 0 <= i < pre.len() ==> mid.contains(#[trigger] pre[i]),
        forall|i: int|
            0 <= i < mid.len() ==> r.contains(#[trigger] mid[i]) || exists|k: int|
                0 <= k < r.len() && dominated(mid[i], #[trigger] r[k]) && ranks_before(r[k], mid[i]),
        cluster_ok(ns, os, c),
    ensures
        (exists|i: int| 0 <= i < r.len() && same_cluster(#[trigger] r[i], c)) || (exists|i: int|
            0 <= i < r.len() && dominated(c, #[trigger] r[i]) && ranks_before(r[i], c)),
{
    let co = c.occurrences@;
    let h = window_hash(ns, co[0].0 as int, co[0].1 as int);
    assert(candidate(ns, co[0].0 as int, co[0].1 as int));
    assert(in_some_bucket(bs, co[0].0 as int, co[0].1 as int));
    let (b, k) = choose|b: int, k: int|
        0 <= b < bs.len() && 0 <= k < bs[b].len() && (#[trigger] bs[b][k]).0 == co[0].0 as int
            && bs[b][k].1 == co[0].1 as int;
    let fps = bs[b];
    assert(keys[b] == h);
    assert forall|j: int| 0 <= j < fps.len() implies window_text(
        ns[(#[trigger] fps[j]).0 as int],
        fps[j].1 as int,
    ) == occurrence_text(ns, co[0]) by {
        assert(candidate(ns, fps[j].0 as int, fps[j].1 as int));
        assert(window_hash(ns, fps[j].0 as int, fps[j].1 as int) == h);
        let i = choose|i: int| 0 <= i < co.len() && (#[trigger] co[i]).0 == fps[j].0 as int
            && co[i].1 == fps[j].1 as int;
        assert(occurrence_text(ns, co[i]) == occurrence_text(ns, co[0]));
    }
    let w = choose|i: int| 0 <= i < co.len() && (#[trigger] co[i]).0 != co[0].0;
    assert(candidate(ns, co[w].0 as int, co[w].1 as int));
    assert(occurrence_text(ns, co[w]) == occurrence_text(ns, co[0]));
    assert(in_some_bucket(bs, co[w].0 as int, co[w].1 as int));
    let (b2, k2) = choose|b2: int, k2: int|
        0 <= b2 < bs.len() && 0 <= k2 < bs[b2].len() && (#[trigger] bs[b2][k2]).0 == co[w].0 as int
            && bs[b2][k2].1 == co[w].1 as int;
    assert(keys[b2] == window_hash(ns, co[w].0 as int, co[w].1 as int));
    if b2 < b {
        assert(keys[b2] != keys[b]);
    }
    if b2 > b {
        assert(keys[b] != keys[b2]);
    }
    assert(b2 == b);
    if fps[0].0 == co[0].0 {
        assert(fps[k2].0 != fps[0].0);
    } else {
        assert(fps[k].0 != fps[0].0);
    }
    assert(clusterable(ns, fps));
    let i = choose|i: int| 0 <= i < pre.len() && built_from(#[trigger] pre[i], bs[b]);
    let p = pre[i];
    assert(cluster_ok(ns, os, p));
    assert(p.occurrences@[0].0 == fps[0].0 && p.occurrences@[0].1 == fps[0].1);
    assert(candidate(ns, fps[0].0 as int, fps[0].1 as int));
    assert(window_hash(ns, fps[0].0 as int, fps[0].1 as int) == keys[b]);
    lemma_same_cluster(ns, os, p, c);
    assert(mid.contains(p));
    let m = choose|m: int| 0 <= m < mid.len() && mid[m] == p;
    if r.contains(mid[m]) {
        let q = choose|q: int| 0 <= q < r.len() && r[q] == p;
        assert(same_cluster(r[q], c));
    } else {
        let q = choose|q: int|
            0 <= q < r.len() && dominated(mid[m], #[trigger] r[q]) && ranks_before(r[q], mid[m]);
        assert(p.occurrences@ == c.occurrences@);
        assert forall|j: int| 0 <= j < co.len() implies #[trigger] starts_inside(c, r[q], j) by {
            assert(starts_inside(p, r[q], j));
        }
        assert(dominated(c, r[q]));
        assert(ranks_before(r[q], c));
    }
}

} // verus!

verus! {

/// What the deep analysis ensures of its list of clusters.
pub open spec fn cluster_list_ok(
    ns: Seq<Seq<Seq<char>>>,
    os: Seq<Seq<Seq<char>>>,
    r: Seq<DuplicateCluster>,
) -> bool {
    &&& forall|i: int| 0 <= i < r.len() ==> cluster_ok(ns, os, #[trigger] r[i])
    &&& forall|i: int, j: int| 0 <= i < j < r.len() ==> ranks_before(r[i], r[j])
    &&& forall|i: int, j: int| 0 <= i < j < r.len() ==> !dominated(r[j], r[i])
    &&& none_missing(ns, os, r)
}

proof fn lemma_use_none_missing(
    ns: Seq<Seq<Seq<char>>>,
    os: Seq<Seq<Seq<char>>>,
    r: Seq<DuplicateCluster>,
    c: DuplicateCluster,
)
    requires
        none_missing(ns, os, r),
        cluster_ok(ns, os, c),
    ensures
        (exists|i: int| 0 <= i < r.len() && same_cluster(#[trigger] r[i], c)) || (exists|i: int|
            0 <= i < r.len() && dominated(c, #[trigger] r[i]) && ranks_before(r[i], c)),
{
    reveal(none_missing);
}

proof fn lemma_dominated_transfer(c: DuplicateCluster, e: DuplicateCluster, e2: DuplicateCluster)
    requires
        dominated(c, e),
        e.occurrences@ == e2.occurrences@,
    ensures
        dominated(c, e2),
{
    assert forall|k: int| 0 <= k < c.occurrences@.len() implies #[trigger] starts_inside(c, e2, k) by {
        assert(starts_inside(c, e, k));
    }
}

proof fn lemma_tie_same(ns: Seq<Seq<Seq<char>>>, os: Seq<Seq<Seq<char>>>, a: DuplicateCluster, b: DuplicateCluster)
    requires
        cluster_ok(ns, os, a),
        cluster_ok(ns, os, b),
        ranks_before(a, b),
        ranks_before(b, a),
    ensures
        same_cluster(a, b),
{
    assert(a.occurrences@[0].0 == b.occurrences@[0].0 && a.occurrences@[0].1 == b.occurrences@[0].1);
    lemma_same_cluster(ns, os, a, b);
}

proof fn lemma_same_dominated(ns: Seq<Seq<Seq<char>>>, os: Seq<Seq<Seq<char>>>, a: DuplicateCluster, b: DuplicateCluster)
    requires
        cluster_ok(ns, os, b),
        same_cluster(a, b),
    ensures
        dominated(a, b),
{
    let bo = b.occurrences@;
    assert forall|k: int| 0 <= k < a.occurrences@.len() implies #[trigger] starts_inside(a, b, k) by {
        assert(occurrence_ok(ns, bo[k]));
        lemma_window_end_bound(ns[bo[k].0 as int], bo[k].1 as int);
        assert(bo[k].1 <= bo[k].2);
        assert(bo[k] == a.occurrences@[k]);
    }
}

proof fn lemma_list_strict(ns: Seq<Seq<Seq<char>>>, os: Seq<Seq<Seq<char>>>, r: Seq<DuplicateCluster>, i: int, j: int)
    requires
        cluster_list_ok(ns, os, r),
        0 <= i < j < r.len(),
    ensures
        !same_cluster(r[j], r[i]),
        !ranks_before(r[j], r[i]),
{
    assert(cluster_ok(ns, os, r[i]) && cluster_ok(ns, os, r[j]));
    assert(!dominated(r[j], r[i]));
    if same_cluster(r[j], r[i]) {
        lemma_same_dominated(ns, os, r[j], r[i]);
    }
    if ranks_before(r[j], r[i]) {
        lemma_tie_same(ns, os, r[j], r[i]);
        lemma_same_dominated(ns, os, r[j], r[i]);
    }
}

proof fn lemma_clusters_equal_up_to(
    ns: Seq<Seq<Seq<char>>>,
    os: Seq<Seq<Seq<char>>>,
    r1: Seq<DuplicateCluster>,
    r2: Seq<DuplicateCluster>,
    k: int,
)
    requires
        cluster_list_ok(ns, os, r1),
        cluster_list_ok(ns, os, r2),
        0 <= k <= r1.len(),
        k <= r2.len(),
    ensures
        forall|j: int| 0 <= j < k ==> same_cluster(#[trigger] r1[j], r2[j]),
    decreases k,
{
    if k > 0 {
        let i = k - 1;
        lemma_clusters_equal_up_to(ns, os, r1, r2, i);
        let x = r1[i];
        let y = r2[i];
        assert(cluster_ok(ns, os, x) && cluster_ok(ns, os, y));
        lemma_step(ns, os, r1, r2, i);
    }
}

proof fn lemma_step(
    ns: Seq<Seq<Seq<char>>>,
    os: Seq<Seq<Seq<char>>>,
    r1: Seq<DuplicateCluster>,
    r2: Seq<DuplicateCluster>,
    i: int,
)
    requires
        cluster_list_ok(ns, os, r1),
        cluster_list_ok(ns, os, r2),
        0 <= i < r1.len(),
        i < r2.len(),
        forall|j: int| 0 <= j < i ==> same_cluster(#[trigger] r1[j], r2[j]),
    ensures
        same_cluster(r1[i], r2[i]),
{
    let x = r1[i];
    let y = r2[i];
    assert(cluster_ok(ns, os, x) && cluster_ok(ns, os, y));
    lemma_use_none_missing(ns, os, r2, x);
    if exists|m: int| 0 <= m < r2.len() && same_cluster(#[trigger] r2[m], x) {
        let m = choose|m: int| 0 <= m < r2.len() && same_cluster(#[trigger] r2[m], x);
        if m < i {
            assert(same_cluster(r1[m], r2[m]));
            lemma_list_strict(ns, os, r1, m, i);
        }
        if m > i {
            lemma_list_strict(ns, os, r2, i, m);
            assert(ranks_before(y, x) && !ranks_before(x, y));
            lemma_y_side(ns, os, r1, r2, i);
        }
    } else {
        let m = choose|m: int|
            0 <= m < r2.len() && dominated(x, #[trigger] r2[m]) && ranks_before(r2[m], x);
        if m < i {
            assert(same_cluster(r1[m], r2[m]));
            lemma_dominated_transfer(x, r2[m], r1[m]);
            assert(!dominated(r1[i], r1[m]));
        } else {
            if m > i {
                lemma_list_strict(ns, os, r2, i, m);
            }
            assert(ranks_before(y, x));
            lemma_y_side(ns, os, r1, r2, i);
        }
    }
}

/// With `r2[i]` ranked no later than `r1[i]`, the two are the same cluster.
proof fn lemma_y_side(
    ns: Seq<Seq<Seq<char>>>,
    os: Seq<Seq<Seq<char>>>,
    r1: Seq<DuplicateCluster>,
    r2: Seq<DuplicateCluster>,
    i: int,
)
    requires
        cluster_list_ok(ns, os, r1),
        cluster_list_ok(ns, os, r2),
        0 <= i < r1.len(),
        i < r2.len(),
        forall|j: int| 0 <= j < i ==> same_cluster(#[trigger] r1[j], r2[j]),
        ranks_before(r2[i], r1[i]),
    ensures
        same_cluster(r1[i], r2[i]),
{
    let x = r1[i];
    let y = r2[i];
    assert(cluster_ok(ns, os, x) && cluster_ok(ns, os, y));
    lemma_use_none_missing(ns, os, r1, y);
    if exists|m: int| 0 <= m < r1.len() && same_cluster(#[trigger] r1[m], y) {
        let m = choose|m: int| 0 <= m < r1.len() && same_cluster(#[trigger] r1[m], y);
        if m < i {
            assert(same_cluster(r1[m], r2[m]));
            lemma_list_strict(ns, os, r2, m, i);
        }
        if m > i {
            lemma_list_strict(ns, os, r1, i, m);
        }
    } else {
        let m = choose|m: int|
            0 <= m < r1.len() && dominated(y, #[trigger] r1[m]) && ranks_before(r1[m], y);
        if m < i {
            assert(same_cluster(r1[m], r2[m]));
            lemma_dominated_transfer(y, r1[m], r2[m]);
            assert(!dominated(r2[i], r2[m]));
        } else if m > i {
            lemma_list_strict(ns, os, r1, i, m);
        } else {
            lemma_tie_same(ns, os, x, y);
        }
    }
}

/// The clusters are determined by the files: two lists that both satisfy what the deep analysis
/// ensures of its clusters agree cluster by cluster.
pub proof fn lemma_clusters_determined(
    ns: Seq<Seq<Seq<char>>>,
    os: Seq<Seq<Seq<char>>>,
    r1: Seq<DuplicateCluster>,
    r2: Seq<DuplicateCluster>,
)
    requires
        cluster_list_ok(ns, os, r1),
        cluster_list_ok(ns, os, r2),
    ensures
        r1.len() == r2.len(),
        forall|k: int| 0 <= k < r1.len() ==> same_cluster(#[trigger] r1[k], r2[k]),
{
    let n = if r1.len() <= r2.len() {
        r1.len() as int
    } else {
        r2.len() as int
    };
    lemma_clusters_equal_up_to(ns, os, r1, r2, n);
    if r1.len() > n {
        lemma_tail(ns, os, r1, r2, n);
    }
    if r2.len() > n {
        assert forall|j: int| 0 <= j < n implies same_cluster(#[trigger] r2[j], r1[j]) by {
            assert(same_cluster(r1[j], r2[j]));
        }
        lemma_tail(ns, os, r2, r1, n);
    }
}

proof fn lemma_tail(
    ns: Seq<Seq<Seq<char>>>,
    os: Seq<Seq<Seq<char>>>,
    r1: Seq<DuplicateCluster>,
    r2: Seq<DuplicateCluster>,
    n: int,
)
    requires
        cluster_list_ok(ns, os, r1),
        cluster_list_ok(ns, os, r2),
        n == r2.len(),
        n <= r1.len(),
        forall|j: int| 0 <= j < n ==> same_cluster(#[trigger] r1[j], r2[j]),
    ensures
        r1.len() == n,
{
    if r1.len() == n {
        return;
    }
    let x = r1[n];
    assert(cluster_ok(ns, os, x));
    lemma_use_none_missing(ns, os, r2, x);
    if exists|m: int| 0 <= m < r2.len() && same_cluster(#[trigger] r2[m], x) {
        let m = choose|m: int| 0 <= m < r2.len() && same_cluster(#[trigger] r2[m], x);
        assert(same_cluster(r1[m], r2[m]));
        lemma_list_strict(ns, os, r1, m, n);
    } else {
        let m = choose|m: int|
            0 <= m < r2.len() && dominated(x, #[trigger] r2[m]) && ranks_before(r2[m], x);
        assert(same_cluster(r1[m], r2[m]));
        lemma_dominated_transfer(x, r2[m], r1[m]);
        assert(!dominated(r1[n], r1[m]));
    }
}

} // verus!

verus! {

proof fn lemma_cluster_sums_agree(a: Seq<DuplicateCluster>, b: Seq<DuplicateCluster>)
    requires
        a.len() == b.len(),
        forall|k: int| 0 <= k < a.len() ==> same_cluster(#[trigger] a[k], b[k]),
    ensures
        sum_cluster_savings(a) == sum_cluster_savings(b),
    decreases a.len(),
{
    if a.len() > 0 {
        let (a1, b1) = (a.drop_last(), b.drop_last());
        assert forall|k: int| 0 <= k < a1.len() implies same_cluster(#[trigger] a1[k], b1[k]) by {
            assert(a1[k] == a[k] && b1[k] == b[k]);
        }
        lemma_cluster_sums_agree(a1, b1);
        assert(same_cluster(a[a.len() - 1], b[b.len() - 1]));
    }
}

proof fn lemma_near_sums_agree(a: Seq<NearDuplicate>, b: Seq<NearDuplicate>)
    requires
        a.len() == b.len(),
        forall|k: int| 0 <= k < a.len() ==> same_near(#[trigger] a[k], b[k]),
    ensures
        sum_near_savings(a) == sum_near_savings(b),
    decreases a.len(),
{
    if a.len() > 0 {
        let (a1, b1) = (a.drop_last(), b.drop_last());
        assert forall|k: int| 0 <= k < a1.len() implies same_near(#[trigger] a1[k], b1[k]) by {
            assert(a1[k] == a[k] && b1[k] == b[k]);
        }
        lemma_near_sums_agree(a1, b1);
        assert(same_near(a[a.len() - 1], b[b.len() - 1]));
    }
}

proof fn lemma_result_ok_intro(files: Seq<crate::tokens::FileStats>, r: DeepResult)
    requires
        cluster_list_ok(norm_files(contents_of(files)), orig_files(contents_of(files)), r.clusters@),
        forall|f: int, s: int|
            #[trigger] candidate(norm_files(contents_of(files)), f, s) && shared_window(
                norm_files(contents_of(files)),
                f,
                s,
            ) && hash_clean(norm_files(contents_of(files)), f, s) ==> covered(r.clusters@, f, s),
        near_list_ok(contents_of(files), r.near_dupes@),
        r.total_savings == clamp(sum_cluster_savings(r.clusters@) + sum_near_savings(r.near_dupes@)),
    ensures
        deep_result_ok(files, r),
{
    reveal(deep_result_ok);
}

proof fn lemma_result_parts(files: Seq<crate::tokens::FileStats>, r: DeepResult)
    requires
        deep_result_ok(files, r),
    ensures
        cluster_list_ok(norm_files(contents_of(files)), orig_files(contents_of(files)), r.clusters@),
        near_list_ok(contents_of(files), r.near_dupes@),
        r.total_savings == clamp(sum_cluster_savings(r.clusters@) + sum_near_savings(r.near_dupes@)),
{
    reveal(deep_result_ok);
}

/// Running the deep analysis twice on the same files gives the same result: the same clusters
/// and near-duplicates in the same order, and the same total savings.
pub proof fn lemma_deep_result_determined(
    files: Seq<crate::tokens::FileStats>,
    r1: DeepResult,
    r2: DeepResult,
)
    requires
        deep_result_ok(files, r1),
        deep_result_ok(files, r2),
    ensures
        r1.clusters@.len() == r2.clusters@.len(),
        forall|k: int|
            0 <= k < r1.clusters@.len() ==> same_cluster(#[trigger] r1.clusters@[k], r2.clusters@[k]),
        r1.near_dupes@.len() == r2.near_dupes@.len(),
        forall|k: int|
            0 <= k < r1.near_dupes@.len() ==> same_near(
                #[trigger] r1.near_dupes@[k],
                r2.near_dupes@[k],
            ),
        r1.total_savings == r2.total_savings,
{
    let cs = contents_of(files);
    lemma_result_parts(files, r1);
    lemma_result_parts(files, r2);
    lemma_clusters_determined(norm_files(cs), orig_files(cs), r1.clusters@, r2.clusters@);
    lemma_near_dupes_determined(cs, r1.near_dupes@, r2.near_dupes@);
    lemma_cluster_sums_agree(r1.clusters@, r2.clusters@);
    lemma_near_sums_agree(r1.near_dupes@, r2.near_dupes@);
}

} // verus!
