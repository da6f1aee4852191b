use vstd::prelude::*;
use crate::text::{
    chars_of, contains, contains_chars, lines_of, split_lines,
    starts_with, matches_at, trim, trim_chars, views,
};

verus! {

broadcast use vstd::string::group_string_axioms;

/// The number of o200k_base tokens in a text, special tokens counted as content; `None` where
/// the tokenizer's regex engine gives up on the text.
pub uninterp spec fn token_count(s: Seq<char>) -> Option<nat>;

/// The token count of a text, or zero where the tokenizer gives up on it.
pub open spec fn tokens_or_zero(s: Seq<char>) -> nat {
    match token_count(s) {
        Some(n) => n,
        None => 0,
    }
}

/// Relies on tiktoken_rs::o200k_base_singleton, which builds the o200k_base vocabulary once per
/// process from data embedded in that crate, and on CoreBPE::encode with all of the
/// vocabulary's special tokens allowed (what encode_with_special_tokens does before it unwraps).
/// `encode` returns an error, here `None`, when a fancy-regex search reports a runtime error
/// (for instance its branch stack overflowing on a very long run of whitespace); its result
/// depends on the text alone. The empty text yields no match and so no token. Any other text
/// that is encoded yields at least one token: a special token counts as one, and the pattern's
/// letter, number, punctuation and whitespace alternatives between them match every character,
/// each match giving one token or more.
#[verifier::external_body]
pub fn count_tokens(content: &str) -> (r: Option<usize>)
    ensures
        match r {
            Some(n) => token_count(content@) == Some(n as nat),
            None => token_count(content@) is None,
        },
        content@.len() == 0 ==> r == Some(0usize),
        r matches Some(n) ==> (content@.len() > 0 ==> n >= 1),
{
    let bpe = tiktoken_rs::o200k_base_singleton();
    bpe.encode(content, &bpe.special_tokens()).ok().map(|(tokens, _)| tokens.len())
}

/// A non-negative rational number `num / den`; a zero denominator stands for zero.
#[derive(Clone, Copy, Debug, PartialEq, Eq, Structural)]
pub struct Ratio {
    pub num: u128,
    pub den: u128,
}

impl Ratio {
    /// Whether the value is zero.
    pub open spec fn is_zero(self) -> bool {
        self.den == 0 || self.num == 0
    }

    /// Whether the value is at most the integer `k`.
    pub open spec fn at_most(self, k: int) -> bool {
        self.den == 0 || self.num <= k * self.den
    }

    /// Whether the value of `self` is at most that of `o`.
    pub open spec fn le(self, o: Ratio) -> bool {
        if self.is_zero() {
            true
        } else if o.den == 0 {
            false
        } else {
            self.num * o.den <= o.num * self.den
        }
    }
}

/// Tokens per line; zero for a text with no lines.
pub fn ratio(tokens: usize, lines: usize) -> (r: Ratio)
    ensures
        lines == 0 ==> r == (Ratio { num: 0, den: 1 }),
        lines > 0 ==> r == (Ratio { num: tokens as u128, den: lines as u128 }),
{
    if lines > 0 {
        Ratio { num: tokens as u128, den: lines as u128 }
    } else {
        Ratio { num: 0, den: 1 }
    }
}

/// `part` as a percentage of `total`; zero when `total` is zero.
pub fn pct(part: usize, total: usize) -> (r: Ratio)
    ensures
        total == 0 ==> r == (Ratio { num: 0, den: 1 }),
        total > 0 ==> r == (Ratio { num: (part * 100) as u128, den: total as u128 }),
{
    if total > 0 {
        Ratio { num: part as u128 * 100, den: total as u128 }
    } else {
        Ratio { num: 0, den: 1 }
    }
}

/// An efficiency grade, from best to worst.
#[derive(Clone, Copy, Debug, PartialEq, Eq, Structural)]
pub enum Grade {
    APlus,
    A,
    B,
    C,
    D,
}

/// The grade of a tokens-per-line ratio; each bound belongs to the better band.
pub open spec fn grade_spec(r: Ratio) -> Grade {
    if r.at_most(5) {
        Grade::APlus
    } else if r.at_most(7) {
        Grade::A
    } else if r.at_most(9) {
        Grade::B
    } else if r.at_most(12) {
        Grade::C
    } else {
        Grade::D
    }
}

/// The rank of a grade, 5 for A+ down to 1 for D.
pub open spec fn rank_spec(g: Grade) -> u8 {
    match g {
        Grade::APlus => 5,
        Grade::A => 4,
        Grade::B => 3,
        Grade::C => 2,
        Grade::D => 1,
    }
}

/// The letter of a grade.
pub open spec fn letter_spec(g: Grade) -> Seq<char> {
    match g {
        Grade::APlus => "A+"@,
        Grade::A => "A"@,
        Grade::B => "B"@,
        Grade::C => "C"@,
        Grade::D => "D"@,
    }
}

/// The display colour of a grade.
pub open spec fn colour_spec(g: Grade) -> Seq<char> {
    match g {
        Grade::APlus => "brightgreen"@,
        Grade::A => "green"@,
        Grade::B => "blue"@,
        Grade::C => "orange"@,
        Grade::D => "red"@,
    }
}

/// The letter of a grade, encoded for use in a URL.
pub open spec fn url_letter_spec(g: Grade) -> Seq<char> {
    match g {
        Grade::APlus => "A%2B"@,
        Grade::A => "A"@,
        Grade::B => "B"@,
        Grade::C => "C"@,
        Grade::D => "D"@,
    }
}

impl Grade {
    pub fn letter(&self) -> (r: &'static str)
        ensures
            r@ == letter_spec(*self),
    {
        match self {
            Grade::APlus => "A+",
            Grade::A => "A",
            Grade::B => "B",
            Grade::C => "C",
            Grade::D => "D",
        }
    }

    pub fn colour(&self) -> (r: &'static str)
        ensures
            r@ == colour_spec(*self),
    {
        match self {
            Grade::APlus => "brightgreen",
            Grade::A => "green",
            Grade::B => "blue",
            Grade::C => "orange",
            Grade::D => "red",
        }
    }

    pub fn url_letter(&self) -> (r: &'static str)
        ensures
            r@ == url_letter_spec(*self),
    {
        match self {
            Grade::APlus => "A%2B",
            Grade::A => "A",
            Grade::B => "B",
            Grade::C => "C",
            Grade::D => "D",
        }
    }

    pub fn rank(&self) -> (r: u8)
        ensures
            r == rank_spec(*self),
    {
        match self {
            Grade::APlus => 5,
            Grade::A => 4,
            Grade::B => 3,
            Grade::C => 2,
            Grade::D => 1,
        }
    }
}

/// Whether the value of `r` is at most `k`.
pub fn ratio_at_most(r: Ratio, k: u128) -> (b: bool)
    requires
        k > 0,
    ensures
        b == r.at_most(k as int),
{
    if r.den == 0 {
        return true;
    }
    let q = r.num / k;
    let m = r.num % k;
    proof {
        let (n, d, kk) = (r.num as int, r.den as int, k as int);
        assert(n == kk * (q as int) + m as int && 0 <= m < kk) by (nonlinear_arith)
            requires
                kk > 0,
                q as int == n / kk,
                m as int == n % kk,
        ;
        assert(n <= kk * d <==> (q < d || (q == d && m == 0))) by (nonlinear_arith)
            requires
                n == kk * (q as int) + m as int,
                0 <= m < kk,
                kk > 0,
                d > 0,
        ;
    }
    q < r.den || (q == r.den && m == 0)
}

/// The grade of a tokens-per-line ratio.
pub fn grade_of(r: Ratio) -> (g: Grade)
    ensures
        g == grade_spec(r),
{
    if ratio_at_most(r, 5) {
        Grade::APlus
    } else if ratio_at_most(r, 7) {
        Grade::A
    } else if ratio_at_most(r, 9) {
        Grade::B
    } else if ratio_at_most(r, 12) {
        Grade::C
    } else {
        Grade::D
    }
}

/// The grade of a ratio as (URL-encoded letter, colour, letter).
pub fn efficiency_grade(r: Ratio) -> (t: (&'static str, &'static str, &'static str))
    ensures
        t.0@ == url_letter_spec(grade_spec(r)),
        t.1@ == colour_spec(grade_spec(r)),
        t.2@ == letter_spec(grade_spec(r)),
{
    let g = grade_of(r);
    (g.url_letter(), g.colour(), g.letter())
}

/// A grade never improves as the ratio grows.
pub proof fn lemma_grade_monotone(a: Ratio, b: Ratio)
    requires
        a.le(b),
    ensures
        rank_spec(grade_spec(a)) >= rank_spec(grade_spec(b)),
{
    if !a.is_zero() {
        assert forall|k: int| 0 <= k && #[trigger] b.at_most(k) implies a.at_most(k) by {
            if a.den != 0 {
                assert(a.num * b.den <= b.num * a.den);
                assert(b.num <= k * b.den);
                assert(b.num * a.den <= k * b.den * a.den) by (nonlinear_arith)
                    requires
                        b.num <= k * b.den,
                ;
                assert(a.num * b.den <= (k * a.den) * b.den) by (nonlinear_arith)
                    requires
                        a.num * b.den <= b.num * a.den,
                        b.num * a.den <= k * b.den * a.den,
                ;
                assert(a.num <= k * a.den) by (nonlinear_arith)
                    requires
                        a.num * b.den <= (k * a.den) * b.den,
                        b.den > 0,
                ;
            }
        }
        assert(b.at_most(5) ==> a.at_most(5));
        assert(b.at_most(7) ==> a.at_most(7));
        assert(b.at_most(9) ==> a.at_most(9));
        assert(b.at_most(12) ==> a.at_most(12));
    } else {
        assert(a.at_most(5)) by (nonlinear_arith)
            requires
                a.den == 0 || a.num == 0,
        ;
    }
}

/// The rank of a grade's letter: 5 for "A+" down to 1 for "D", and 0 for anything else.
pub open spec fn grade_rank_spec(s: Seq<char>) -> u8 {
    if s == "A+"@ {
        5
    } else if s == "A"@ {
        4
    } else if s == "B"@ {
        3
    } else if s == "C"@ {
        2
    } else if s == "D"@ {
        1
    } else {
        0
    }
}

/// Whether two strings hold the same characters.
pub fn str_eq(a: &str, b: &str) -> (r: bool)
    ensures
        r == (a@ == b@),
{
    let x = chars_of(a);
    let y = chars_of(b);
    if x.len() != y.len() {
        return false;
    }
    let r = matches_at(&x, &y, 0);
    assert(r ==> x@.subrange(0, y@.len() as int) =~= x@);
    proof {
        if a@ == b@ {
            assert(x@.subrange(0, y@.len() as int) =~= y@);
        }
    }
    r
}

/// The rank of a grade letter, for comparing a grade against a threshold.
pub fn grade_rank(grade: &str) -> (r: u8)
    ensures
        r == grade_rank_spec(grade@),
{
    if str_eq(grade, "A+") {
        5
    } else if str_eq(grade, "A") {
        4
    } else if str_eq(grade, "B") {
        3
    } else if str_eq(grade, "C") {
        2
    } else if str_eq(grade, "D") {
        1
    } else {
        0
    }
}

} // verus!

verus! {

/// The counts (code, comment, blank) of a list of lines and whether a block comment is still
/// open after them.
pub open spec fn classify(ls: Seq<Seq<char>>) -> (nat, nat, nat, bool)
    decreases ls.len(),
{
    if ls.len() == 0 {
        (0, 0, 0, false)
    } else {
        let (c, m, b, open) = classify(ls.drop_last());
        let t = trim(ls.last());
        if t.len() == 0 {
            (c, m, b + 1, open)
        } else if open {
            (c, m + 1, b, !contains(t, seq!['*', '/']))
        } else if starts_with(t, seq!['/', '/']) {
            (c, m + 1, b, false)
        } else if starts_with(t, seq!['/', '*']) {
            (c, m + 1, b, !contains(t, seq!['*', '/']))
        } else {
            (c + 1, m, b, false)
        }
    }
}

pub proof fn lemma_classify_sum(ls: Seq<Seq<char>>)
    ensures
        classify(ls).0 + classify(ls).1 + classify(ls).2 == ls.len(),
    decreases ls.len(),
{
    if ls.len() > 0 {
        lemma_classify_sum(ls.drop_last());
    }
}

/// Counts the code, comment and blank lines of a text.
pub fn count_line_types(content: &str) -> (r: (usize, usize, usize))
    ensures
        r.0 == classify(lines_of(content@)).0,
        r.1 == classify(lines_of(content@)).1,
        r.2 == classify(lines_of(content@)).2,
        r.0 + r.1 + r.2 == lines_of(content@).len(),
{
    let cs = chars_of(content);
    let lines = split_lines(&cs);
    let ghost ls = lines_of(content@);
    let close: Vec<char> = vec!['*', '/'];
    let line_open: Vec<char> = vec!['/', '/'];
    let block_open: Vec<char> = vec!['/', '*'];
    let mut code: usize = 0;
    let mut comments: usize = 0;
    let mut blanks: usize = 0;
    let mut in_block = false;
    let mut i: usize = 0;
    while i < lines.len()
        invariant
            i <= lines@.len(),
            views(lines@) == ls,
            close@ == seq!['*', '/'],
            line_open@ == seq!['/', '/'],
            block_open@ == seq!['/', '*'],
            (code as nat, comments as nat, blanks as nat, in_block) == classify(ls.take(i as int)),
            code + comments + blanks == i,
        decreases lines@.len() - i,
    {
        proof {
            lemma_classify_sum(ls.take(i as int));
            assert(ls.take(i + 1).drop_last() =~= ls.take(i as int));
        }
        let t = trim_chars(&lines[i]);
        assert(ls.take(i + 1).last() == lines@[i as int]@);
        if t.len() == 0 {
            blanks = blanks + 1;
        } else if in_block {
            comments = comments + 1;
            if contains_chars(&t, &close) {
                in_block = false;
            }
        } else if matches_at(&t, &line_open, 0) {
            comments = comments + 1;
        } else if matches_at(&t, &block_open, 0) {
            comments = comments + 1;
            if !contains_chars(&t, &close) {
                in_block = true;
            }
        } else {
            code = code + 1;
        }
        i = i + 1;
    }
    assert(ls.take(lines@.len() as int) =~= ls);
    (code, comments, blanks)
}

/// The measurements of one source file.
pub struct FileStats {
    pub path: String,
    pub content: String,
    pub lines: usize,
    pub tokens: usize,
    pub ratio: Ratio,
}

/// Measures one file; `None` where the tokenizer gives up on its text.
pub fn file_stats(path: String, content: String) -> (r: Option<FileStats>)
    ensures
        r is Some <==> token_count(content@) is Some,
        r matches Some(f) ==> measured(f, path@, content@),
{
    let tokens = match count_tokens(content.as_str()) {
        Some(t) => t,
        None => {
            return None;
        },
    };
    let cs = chars_of(content.as_str());
    let ls = split_lines(&cs);
    let lines = ls.len();
    let r = ratio(tokens, lines);
    proof {
        if content@.len() == 0 {
            assert(lines_of(content@) =~= seq![]);
        }
    }
    Some(FileStats { path, content, lines, tokens, ratio: r })
}

} // verus!

verus! {

/// The measurements of a whole source tree.
pub struct ProjectStats {
    pub files: Vec<FileStats>,
    pub total_lines: usize,
    pub total_tokens: usize,
    pub code_lines: usize,
    pub comment_lines: usize,
    pub blank_lines: usize,
}

/// `x`, or the largest `usize` where `x` is larger.
pub open spec fn clamp(x: int) -> int {
    if x > usize::MAX {
        usize::MAX as int
    } else {
        x
    }
}

/// The sum of `f` over a list of files.
pub open spec fn sum_by(fs: Seq<FileStats>, f: spec_fn(FileStats) -> int) -> int
    decreases fs.len(),
{
    if fs.len() == 0 {
        0
    } else {
        sum_by(fs.drop_last(), f) + f(fs.last())
    }
}

pub open spec fn lines_in(f: FileStats) -> int {
    f.lines as int
}

pub open spec fn tokens_in(f: FileStats) -> int {
    f.tokens as int
}

pub open spec fn code_in(f: FileStats) -> int {
    classify(lines_of(f.content@)).0 as int
}

pub open spec fn comments_in(f: FileStats) -> int {
    classify(lines_of(f.content@)).1 as int
}

pub open spec fn blanks_in(f: FileStats) -> int {
    classify(lines_of(f.content@)).2 as int
}

/// What `file_stats` gives for a file with this path and content; its ratio is zero exactly
/// when it has no lines.
pub open spec fn measured(f: FileStats, path: Seq<char>, content: Seq<char>) -> bool {
    &&& f.path@ == path
    &&& f.content@ == content
    &&& f.lines == lines_of(content).len()
    &&& token_count(content) == Some(f.tokens as nat)
    &&& f.ratio == (if f.lines == 0 {
        Ratio { num: 0, den: 1 }
    } else {
        Ratio { num: f.tokens as u128, den: f.lines as u128 }
    })
    &&& (f.ratio.is_zero() <==> f.lines == 0)
}

/// The totals of a project agree with its files (each total stops at the largest `usize`).
pub open spec fn totals_agree(p: ProjectStats) -> bool {
    &&& p.total_lines == clamp(sum_by(p.files@, |f: FileStats| lines_in(f)))
    &&& p.total_tokens == clamp(sum_by(p.files@, |f: FileStats| tokens_in(f)))
    &&& p.code_lines == clamp(sum_by(p.files@, |f: FileStats| code_in(f)))
    &&& p.comment_lines == clamp(sum_by(p.files@, |f: FileStats| comments_in(f)))
    &&& p.blank_lines == clamp(sum_by(p.files@, |f: FileStats| blanks_in(f)))
}

proof fn lemma_sum_nonneg(fs: Seq<FileStats>, f: spec_fn(FileStats) -> int)
    requires
        forall|x: FileStats| #[trigger] f(x) >= 0,
    ensures
        sum_by(fs, f) >= 0,
    decreases fs.len(),
{
    if fs.len() > 0 {
        lemma_sum_nonneg(fs.drop_last(), f);
    }
}

/// The (path, content) pairs whose text the tokenizer can count, in order.
pub open spec fn countable(sources: Seq<(String, String)>) -> Seq<(String, String)>
    decreases sources.len(),
{
    if sources.len() == 0 {
        seq![]
    } else {
        countable(sources.drop_last()) + (if token_count(sources.last().1@) is Some {
            seq![sources.last()]
        } else {
            seq![]
        })
    }
}

/// What measuring these (path, content) pairs gives: one measured file per pair whose text can
/// be counted, in order (the others are skipped), and totals that agree with the files.
pub open spec fn scan_ok(sources: Seq<(String, String)>, p: ProjectStats) -> bool {
    let kept = countable(sources);
    &&& p.files@.len() == kept.len()
    &&& forall|i: int|
        0 <= i < kept.len() ==> measured(#[trigger] p.files@[i], kept[i].0@, kept[i].1@)
    &&& totals_agree(p)
}

/// Measures every (path, content) pair, in the order given, and adds up the totals.
pub fn scan_project(sources: &Vec<(String, String)>) -> (p: ProjectStats)
    ensures
        scan_ok(sources@, p),
{
    let mut files: Vec<FileStats> = Vec::new();
    let mut total_lines: usize = 0;
    let mut total_tokens: usize = 0;
    let mut code_lines: usize = 0;
    let mut comment_lines: usize = 0;
    let mut blank_lines: usize = 0;
    let mut i: usize = 0;
    while i < sources.len()
        invariant
            i <= sources@.len(),
            files@.len() == countable(sources@.take(i as int)).len(),
            forall|j: int|
                0 <= j < files@.len() ==> measured(
                    #[trigger] files@[j],
                    countable(sources@.take(i as int))[j].0@,
                    countable(sources@.take(i as int))[j].1@,
                ),
            total_lines == clamp(sum_by(files@, |f: FileStats| lines_in(f))),
            total_tokens == clamp(sum_by(files@, |f: FileStats| tokens_in(f))),
            code_lines == clamp(sum_by(files@, |f: FileStats| code_in(f))),
            comment_lines == clamp(sum_by(files@, |f: FileStats| comments_in(f))),
            blank_lines == clamp(sum_by(files@, |f: FileStats| blanks_in(f))),
        decreases sources@.len() - i,
    {
        let path = sources[i].0.clone();
        let content = sources[i].1.clone();
        let (code, comments, blanks) = count_line_types(content.as_str());
        let ghost prev = countable(sources@.take(i as int));
        proof {
            assert(sources@.take(i + 1).drop_last() =~= sources@.take(i as int));
            assert(sources@.take(i + 1).last() == sources@[i as int]);
        }
        let f = match file_stats(path, content) {
            Some(f) => f,
            None => {
                assert(countable(sources@.take(i + 1)) =~= prev);
                i = i + 1;
                continue;
            },
        };
        let ghost before = files@;
        proof {
            lemma_sum_nonneg(before, |f: FileStats| lines_in(f));
            lemma_sum_nonneg(before, |f: FileStats| tokens_in(f));
            lemma_sum_nonneg(before, |f: FileStats| code_in(f));
            lemma_sum_nonneg(before, |f: FileStats| comments_in(f));
            lemma_sum_nonneg(before, |f: FileStats| blanks_in(f));
        }
        total_lines = total_lines.saturating_add(f.lines);
        total_tokens = total_tokens.saturating_add(f.tokens);
        code_lines = code_lines.saturating_add(code);
        comment_lines = comment_lines.saturating_add(comments);
        blank_lines = blank_lines.saturating_add(blanks);
        files.push(f);
        proof {
            assert(files@.drop_last() =~= before);
            assert(countable(sources@.take(i + 1)) =~= prev.push(sources@[i as int]));
        }
        i = i + 1;
    }
    assert(sources@.take(sources@.len() as int) =~= sources@);
    ProjectStats { files, total_lines, total_tokens, code_lines, comment_lines, blank_lines }
}

/// The project totals are the sums of the per-file figures, wherever those sums fit in a
/// `usize`; and the code, comment and blank lines of each file make up all its lines.
pub proof fn lemma_totals_are_sums(p: ProjectStats)
    requires
        totals_agree(p),
        forall|i: int| 0 <= i < p.files@.len() ==> (#[trigger] p.files@[i]).lines == lines_of(
            p.files@[i].content@,
        ).len(),
    ensures
        sum_by(p.files@, |f: FileStats| lines_in(f)) <= usize::MAX ==> p.total_lines == sum_by(
            p.files@,
            |f: FileStats| lines_in(f),
        ),
        sum_by(p.files@, |f: FileStats| tokens_in(f)) <= usize::MAX ==> p.total_tokens == sum_by(
            p.files@,
            |f: FileStats| tokens_in(f),
        ),
        forall|i: int|
            0 <= i < p.files@.len() ==> code_in(#[trigger] p.files@[i]) + comments_in(p.files@[i])
                + blanks_in(p.files@[i]) == lines_in(p.files@[i]),
{
    assert forall|i: int| 0 <= i < p.files@.len() implies code_in(#[trigger] p.files@[i])
        + comments_in(p.files@[i]) + blanks_in(p.files@[i]) == lines_in(p.files@[i]) by {
        lemma_classify_sum(lines_of(p.files@[i].content@));
    }
}

} // verus!

verus! {

/// Each grade bound belongs to the better band: a ratio of exactly 5, 7, 9 or 12 tokens per
/// line grades A+, A, B or C.
pub proof fn lemma_grade_bounds(d: u128)
    requires
        0 < d,
        d * 12 <= u128::MAX,
    ensures
        grade_spec(Ratio { num: (5 * d) as u128, den: d }) == Grade::APlus,
        grade_spec(Ratio { num: (7 * d) as u128, den: d }) == Grade::A,
        grade_spec(Ratio { num: (9 * d) as u128, den: d }) == Grade::B,
        grade_spec(Ratio { num: (12 * d) as u128, den: d }) == Grade::C,
{
    assert((5 * d) as u128 == 5 * d);
    assert((7 * d) as u128 == 7 * d);
    assert((9 * d) as u128 == 9 * d);
    assert((12 * d) as u128 == 12 * d);
}

/// Measuring the same sources twice gives the same statistics.
pub proof fn lemma_scan_deterministic(sources: Seq<(String, String)>, p: ProjectStats, q: ProjectStats)
    requires
        scan_ok(sources, p),
        scan_ok(sources, q),
    ensures
        p.files@.len() == q.files@.len(),
        forall|i: int|
            0 <= i < p.files@.len() ==> (#[trigger] p.files@[i]).path@ == q.files@[i].path@
                && p.files@[i].content@ == q.files@[i].content@ && p.files@[i].lines
                == q.files@[i].lines && p.files@[i].tokens == q.files@[i].tokens
                && p.files@[i].ratio == q.files@[i].ratio,
        p.total_lines == q.total_lines,
        p.total_tokens == q.total_tokens,
        p.code_lines == q.code_lines,
        p.comment_lines == q.comment_lines,
        p.blank_lines == q.blank_lines,
{
    assert forall|i: int| 0 <= i < p.files@.len() implies (#[trigger] p.files@[i]).path@
        == q.files@[i].path@ && p.files@[i].content@ == q.files@[i].content@ && p.files@[i].lines
        == q.files@[i].lines && p.files@[i].tokens == q.files@[i].tokens && p.files@[i].ratio
        == q.files@[i].ratio by {
        assert(measured(p.files@[i], countable(sources)[i].0@, countable(sources)[i].1@));
        assert(measured(q.files@[i], countable(sources)[i].0@, countable(sources)[i].1@));
    }
    lemma_sums_agree(p.files@, q.files@);
}

proof fn lemma_sums_agree(a: Seq<FileStats>, b: Seq<FileStats>)
    requires
        a.len() == b.len(),
        forall|i: int|
            0 <= i < a.len() ==> (#[trigger] a[i]).content@ == b[i].content@ && a[i].lines
                == b[i].lines && a[i].tokens == b[i].tokens,
    ensures
        sum_by(a, |f: FileStats| lines_in(f)) == sum_by(b, |f: FileStats| lines_in(f)),
        sum_by(a, |f: FileStats| tokens_in(f)) == sum_by(b, |f: FileStats| tokens_in(f)),
        sum_by(a, |f: FileStats| code_in(f)) == sum_by(b, |f: FileStats| code_in(f)),
        sum_by(a, |f: FileStats| comments_in(f)) == sum_by(b, |f: FileStats| comments_in(f)),
        sum_by(a, |f: FileStats| blanks_in(f)) == sum_by(b, |f: FileStats| blanks_in(f)),
    decreases a.len(),
{
    if a.len() > 0 {
        let (a1, b1) = (a.drop_last(), b.drop_last());
        assert forall|i: int| 0 <= i < a1.len() implies (#[trigger] a1[i]).content@ == b1[i].content@
            && a1[i].lines == b1[i].lines && a1[i].tokens == b1[i].tokens by {
            assert(a1[i] == a[i] && b1[i] == b[i]);
        }
        lemma_sums_agree(a1, b1);
        assert(a.last() == a[a.len() - 1]);
    }
}

/// A project without files has no lines and no tokens, and its ratio of zero grades A+.
pub proof fn lemma_empty_project(sources: Seq<(String, String)>, p: ProjectStats)
    requires
        sources.len() == 0,
        scan_ok(sources, p),
    ensures
        p.files@.len() == 0,
        p.total_lines == 0,
        p.total_tokens == 0,
        p.code_lines == 0,
        p.comment_lines == 0,
        p.blank_lines == 0,
        grade_spec(Ratio { num: 0, den: 1 }) == Grade::APlus,
{
}

/// Whether a line is blank or opens a comment.
pub open spec fn blank_or_comment(l: Seq<char>) -> bool {
    let t = trim(l);
    t.len() == 0 || starts_with(t, seq!['/', '/']) || starts_with(t, seq!['/', '*'])
}

/// A text whose lines are each blank, open a comment, or lie inside a block comment left open by
/// the lines before has no code lines.
pub proof fn lemma_no_code_lines(ls: Seq<Seq<char>>)
    requires
        forall|i: int|
            0 <= i < ls.len() ==> blank_or_comment(#[trigger] ls[i]) || classify(ls.take(i)).3,
    ensures
        classify(ls).0 == 0,
    decreases ls.len(),
{
    if ls.len() > 0 {
        let a = ls.drop_last();
        assert forall|i: int| 0 <= i < a.len() implies blank_or_comment(#[trigger] a[i])
            || classify(a.take(i)).3 by {
            assert(a[i] == ls[i]);
            assert(a.take(i) =~= ls.take(i));
        }
        lemma_no_code_lines(a);
        assert(ls.take(ls.len() - 1) =~= a);
        assert(blank_or_comment(ls[ls.len() - 1]) || classify(a).3);
    }
}

/// A file of no tokens has a ratio of zero.
pub proof fn lemma_no_tokens_zero_ratio(f: FileStats, path: Seq<char>, content: Seq<char>)
    requires
        measured(f, path, content),
        f.tokens == 0,
    ensures
        f.ratio.is_zero(),
{
}

} // verus!
