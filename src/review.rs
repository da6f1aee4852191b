use vstd::prelude::*;
use crate::text::{chars_of, contains, lines_of, split_lines, views};

verus! {

broadcast use vstd::string::group_string_axioms;

/// The lowercase form of a text, as `str::to_lowercase` gives it.
pub uninterp spec fn lower_of(s: Seq<char>) -> Seq<char>;

/// Relies on str::to_lowercase: the Unicode lowercase mapping of each character, which depends
/// on the text alone; the empty text stays empty.
#[verifier::external_body]
fn to_lowercase(s: &str) -> (r: String)
    ensures
        r@ == lower_of(s@),
        s@.len() == 0 ==> r@.len() == 0,
{
    s.to_lowercase()
}

/// The value of a run of ASCII digits, or `None` when it is empty or does not fit in a `usize`.
pub open spec fn digits_value(ds: Seq<char>) -> int
    decreases ds.len(),
{
    if ds.len() == 0 {
        0
    } else {
        digits_value(ds.drop_last()) * 10 + (ds.last() as int - '0' as int)
    }
}

/// The run of ASCII digits at the start of `s`.
pub open spec fn leading_digits(s: Seq<char>) -> Seq<char>
    decreases s.len(),
{
    if s.len() > 0 && '0' <= s[0] && s[0] <= '9' {
        seq![s[0]] + leading_digits(s.drop_first())
    } else {
        seq![]
    }
}

/// The estimate a line carries: the number right after its first `~`, when there is one and it
/// fits in a `usize`; zero otherwise.
pub open spec fn line_estimate(l: Seq<char>) -> int {
    if !contains(l, seq!['~']) {
        0
    } else {
        let ds = leading_digits(l.skip(crate::text::first_at(l, seq!['~']) + 1));
        if ds.len() > 0 && digits_value(ds) <= usize::MAX {
            digits_value(ds)
        } else {
            0
        }
    }
}

/// The summed estimates of a list of lines.
pub open spec fn sum_estimates(ls: Seq<Seq<char>>) -> int
    decreases ls.len(),
{
    if ls.len() == 0 {
        0
    } else {
        sum_estimates(ls.drop_last()) + line_estimate(ls.last())
    }
}

proof fn lemma_digits_value_nonneg(ds: Seq<char>)
    requires
        forall|i: int| 0 <= i < ds.len() ==> '0' <= #[trigger] ds[i] && ds[i] <= '9',
    ensures
        digits_value(ds) >= 0,
    decreases ds.len(),
{
    if ds.len() > 0 {
        let a = ds.drop_last();
        assert forall|i: int| 0 <= i < a.len() implies '0' <= #[trigger] a[i] && a[i] <= '9' by {
            assert(a[i] == ds[i]);
        }
        lemma_digits_value_nonneg(a);
        assert(ds.last() == ds[ds.len() - 1]);
    }
}

/// The number written at the start of `s`, as `line_estimate` reads it.
fn parse_leading(s: &Vec<char>, from: usize) -> (r: usize)
    requires
        from <= s@.len(),
    ensures
        ({
            let ds = leading_digits(s@.skip(from as int));
            r == (if ds.len() > 0 && digits_value(ds) <= usize::MAX {
                digits_value(ds)
            } else {
                0
            })
        }),
{
    let ghost full = leading_digits(s@.skip(from as int));
    let mut i: usize = from;
    let mut value: usize = 0;
    let mut overflow = false;
    proof {
        assert(s@.skip(from as int).take(0) =~= seq![]);
    }
    while i < s.len() && '0' <= s[i] && s[i] <= '9'
        invariant
            from <= i <= s@.len(),
            full == s@.subrange(from as int, i as int) + leading_digits(s@.skip(i as int)),
            forall|k: int| from <= k < i ==> '0' <= #[trigger] s@[k] && s@[k] <= '9',
            !overflow ==> value == digits_value(s@.subrange(from as int, i as int)),
            overflow ==> digits_value(s@.subrange(from as int, i as int)) > usize::MAX,
        decreases s@.len() - i,
    {
        let ghost pre = s@.subrange(from as int, i as int);
        let ghost next = s@.subrange(from as int, i + 1);
        proof {
            assert(next.drop_last() =~= pre);
            assert(next.last() == s@[i as int]);
            assert(s@.skip(i as int).drop_first() =~= s@.skip(i + 1));
            assert(s@.skip(i as int)[0] == s@[i as int]);
            assert(pre + leading_digits(s@.skip(i as int)) =~= next + leading_digits(
                s@.skip(i + 1),
            ));
            assert forall|k: int| 0 <= k < pre.len() implies '0' <= #[trigger] pre[k] && pre[k]
                <= '9' by {
                assert(pre[k] == s@[from + k]);
            }
            lemma_digits_value_nonneg(pre);
        }
        let d = (s[i] as u32 - '0' as u32) as usize;
        if !overflow {
            if value > (usize::MAX - d) / 10 {
                overflow = true;
            } else {
                value = value * 10 + d;
            }
        }
        i = i + 1;
    }
    proof {
        if i < s@.len() {
            assert(s@.skip(i as int)[0] == s@[i as int]);
        }
        assert(leading_digits(s@.skip(i as int)) =~= seq![]);
        assert(full =~= s@.subrange(from as int, i as int));
    }
    if i == from || overflow {
        0
    } else {
        value
    }
}

/// Sums the `~N` token estimates of a review, one per line, capped at half the file's tokens.
/// Lowercasing a line neither adds nor removes a `~` or an ASCII digit, so the line is read as
/// it stands.
pub fn estimate_savings(analysis: &str, file_tokens: usize) -> (r: usize)
    ensures
        r == (if crate::tokens::clamp(sum_estimates(lines_of(analysis@))) <= file_tokens / 2 {
            crate::tokens::clamp(sum_estimates(lines_of(analysis@)))
        } else {
            (file_tokens / 2) as int
        }),
{
    let cs = chars_of(analysis);
    let lines = split_lines(&cs);
    let ghost ls = views(lines@);
    let tilde: Vec<char> = vec!['~'];
    assert(tilde@ == seq!['~']);
    let mut total: usize = 0;
    let mut i: usize = 0;
    while i < lines.len()
        invariant
            i <= lines@.len(),
            ls == views(lines@),
            tilde@ == seq!['~'],
            total == crate::tokens::clamp(sum_estimates(ls.take(i as int))),
            sum_estimates(ls.take(i as int)) >= 0,
        decreases lines@.len() - i,
    {
        let l = &lines[i];
        let ln = l.len();
        assert(ls.take(i + 1).drop_last() =~= ls.take(i as int));
        assert(ls.take(i + 1).last() == l@);
        let n = match crate::text::find_first(l, &tilde) {
            Some(p) => parse_leading(l, p + 1),
            None => 0,
        };
        total = total.saturating_add(n);
        i = i + 1;
    }
    assert(ls.take(lines@.len() as int) =~= ls);
    let half = file_tokens / 2;
    if total <= half {
        total
    } else {
        half
    }
}

} // verus!

verus! {

/// Whether a character has the Unicode `Alphabetic` property.
pub uninterp spec fn alphabetic(c: char) -> bool;

/// Relies on char::is_alphabetic: the Unicode `Alphabetic` property of the character.
#[verifier::external_body]
fn is_alphabetic(c: char) -> (r: bool)
    ensures
        r == alphabetic(c),
{
    c.is_alphabetic()
}

/// The letters and whitespace of `s`, in order.
pub open spec fn letters_and_spaces(s: Seq<char>) -> Seq<char>
    decreases s.len(),
{
    if s.len() == 0 {
        seq![]
    } else {
        letters_and_spaces(s.drop_last()) + (if alphabetic(s.last()) || crate::text::is_ws(
            s.last(),
        ) {
            seq![s.last()]
        } else {
            seq![]
        })
    }
}

/// The key under which a trimmed suggestion line is compared with the others: lowercased, only
/// letters and whitespace kept, whitespace collapsed.
pub open spec fn suggestion_key(t: Seq<char>) -> Seq<char> {
    crate::text::collapse_ws(letters_and_spaces(lower_of(t)))
}

/// Number of bytes of a character in UTF-8.
pub open spec fn char_width(c: char) -> int {
    if (c as u32) < 0x80 {
        1
    } else if (c as u32) < 0x800 {
        2
    } else if (c as u32) < 0x10000 {
        3
    } else {
        4
    }
}

/// Length in bytes of the UTF-8 encoding of `s`.
pub open spec fn byte_len(s: Seq<char>) -> int
    decreases s.len(),
{
    if s.len() == 0 {
        0
    } else {
        byte_len(s.drop_last()) + char_width(s.last())
    }
}

/// Length in bytes of the UTF-8 encoding of `s`.
fn utf8_len(s: &Vec<char>) -> (r: u128)
    ensures
        r == byte_len(s@),
{
    let mut total: u128 = 0;
    let mut i: usize = 0;
    while i < s.len()
        invariant
            i <= s@.len(),
            total == byte_len(s@.take(i as int)),
            total <= 4 * i,
        decreases s@.len() - i,
    {
        assert(s@.take(i + 1).drop_last() =~= s@.take(i as int));
        let c = s[i] as u32;
        let w: u128 = if c < 0x80 {
            1
        } else if c < 0x800 {
            2
        } else if c < 0x10000 {
            3
        } else {
            4
        };
        total = total + w;
        i = i + 1;
    }
    assert(s@.take(s@.len() as int) =~= s@);
    total
}

/// Length of the longest common prefix of `a` and `b`.
pub open spec fn common_prefix(a: Seq<char>, b: Seq<char>) -> int
    decreases a.len(),
{
    if a.len() == 0 || b.len() == 0 || a[0] != b[0] {
        0
    } else {
        1 + common_prefix(a.drop_first(), b.drop_first())
    }
}

/// Whether key `n` repeats the earlier key `s`: they share a prefix longer than half of `n`'s
/// bytes and longer than 20 characters.
pub open spec fn repeats(n: Seq<char>, s: Seq<char>) -> bool {
    let o = common_prefix(n, s);
    o > byte_len(n) / 2 && o > 20
}

/// Going through (line, key) pairs in order: the keys kept so far and the lines kept. A pair is
/// skipped when its line is empty, its key has fewer than 10 bytes, or its key repeats a kept
/// one.
pub open spec fn select_state(items: Seq<(Seq<char>, Seq<char>)>) -> (Seq<Seq<char>>, Seq<
    Seq<char>,
>)
    decreases items.len(),
{
    if items.len() == 0 {
        (seq![], seq![])
    } else {
        let (seen, kept) = select_state(items.drop_last());
        let (t, n) = items.last();
        if t.len() == 0 || byte_len(n) < 10 || exists|k: int|
            0 <= k < seen.len() && repeats(n, #[trigger] seen[k]) {
            (seen, kept)
        } else {
            (seen.push(n), kept.push(t))
        }
    }
}

/// Length of the longest common prefix of two character vectors.
fn common_prefix_len(a: &Vec<char>, b: &Vec<char>) -> (r: usize)
    ensures
        r == common_prefix(a@, b@),
{
    let mut i: usize = 0;
    assert(a@.skip(0) =~= a@ && b@.skip(0) =~= b@);
    while i < a.len() && i < b.len() && a[i] == b[i]
        invariant
            i <= a@.len(),
            i <= b@.len(),
            common_prefix(a@, b@) == i + common_prefix(a@.skip(i as int), b@.skip(i as int)),
        decreases a@.len() - i,
    {
        assert(a@.skip(i as int).drop_first() =~= a@.skip(i + 1));
        assert(b@.skip(i as int).drop_first() =~= b@.skip(i + 1));
        i = i + 1;
    }
    proof {
        if i < a@.len() && i < b@.len() {
            assert(a@.skip(i as int)[0] == a@[i as int]);
            assert(b@.skip(i as int)[0] == b@[i as int]);
        }
    }
    i
}

/// Keeps, in order, each non-empty line whose key is long enough and repeats no key kept
/// before it; `keys[i]` is the key of `lines[i]`.
pub fn select_distinct(lines: &Vec<String>, keys: &Vec<String>) -> (r: Vec<String>)
    requires
        lines@.len() == keys@.len(),
    ensures
        crate::gitdiff::string_views(r@) == select_state(
            Seq::new(lines@.len(), |i: int| (lines@[i]@, keys@[i]@)),
        ).1,
{
    let ghost items = Seq::new(lines@.len(), |i: int| (lines@[i]@, keys@[i]@));
    let mut seen: Vec<Vec<char>> = Vec::new();
    let mut kept: Vec<String> = Vec::new();
    let mut i: usize = 0;
    while i < lines.len()
        invariant
            i <= lines@.len(),
            lines@.len() == keys@.len(),
            items == Seq::new(lines@.len(), |i: int| (lines@[i]@, keys@[i]@)),
            views(seen@) == select_state(items.take(i as int)).0,
            crate::gitdiff::string_views(kept@) == select_state(items.take(i as int)).1,
        decreases lines@.len() - i,
    {
        proof {
            assert(items.take(i + 1).drop_last() =~= items.take(i as int));
            assert(items.take(i + 1).last() == items[i as int]);
        }
        let t = lines[i].as_str();
        let n = chars_of(keys[i].as_str());
        let nbytes = utf8_len(&n);
        let mut skip = t.is_empty() || nbytes < 10;
        if !skip {
            let mut k: usize = 0;
            while k < seen.len() && !skip
                invariant
                    k <= seen@.len(),
                    i < keys@.len(),
                    n@ == keys@[i as int]@,
                    nbytes == byte_len(n@),
                    !skip ==> forall|j: int| 0 <= j < k ==> !repeats(n@, #[trigger] views(seen@)[j]),
                    skip ==> exists|j: int| 0 <= j < seen@.len() && repeats(n@, #[trigger] views(seen@)[j]),
                decreases seen@.len() - k,
            {
                let o = common_prefix_len(&n, &seen[k]);
                if o as u128 > nbytes / 2 && o > 20 {
                    assert(repeats(n@, views(seen@)[k as int]));
                    skip = true;
                }
                k = k + 1;
            }
        }
        if !skip {
            let ghost before_seen = views(seen@);
            let ghost before_kept = crate::gitdiff::string_views(kept@);
            seen.push(n);
            kept.push(lines[i].clone());
            proof {
                assert(views(seen@) =~= before_seen.push(keys@[i as int]@));
                assert(crate::gitdiff::string_views(kept@) =~= before_kept.push(lines@[i as int]@));
            }
        }
        i = i + 1;
    }
    assert(items.take(lines@.len() as int) =~= items);
    kept
}

} // verus!

verus! {

/// The comparison key of a trimmed suggestion line, as `suggestion_key` describes.
fn key_of(t: &str) -> (r: String)
    ensures
        r@ == suggestion_key(t@),
{
    let lower = to_lowercase(t);
    let cs = chars_of(lower.as_str());
    let mut kept: Vec<char> = Vec::new();
    let mut i: usize = 0;
    assert(cs@.take(0) =~= seq![]);
    while i < cs.len()
        invariant
            i <= cs@.len(),
            kept@ == letters_and_spaces(cs@.take(i as int)),
        decreases cs@.len() - i,
    {
        let c = cs[i];
        assert(cs@.take(i + 1).drop_last() =~= cs@.take(i as int));
        assert(cs@.take(i + 1).last() == c);
        if is_alphabetic(c) || crate::text::is_whitespace(c) {
            kept.push(c);
        }
        assert(kept@ =~= letters_and_spaces(cs@.take(i + 1)));
        i = i + 1;
    }
    assert(cs@.take(cs@.len() as int) =~= cs@);
    crate::text::string_of(&crate::text::collapse_whitespace(&kept))
}

/// The (trimmed line, key) pairs of a review text.
pub open spec fn suggestion_items(analysis: Seq<char>) -> Seq<(Seq<char>, Seq<char>)> {
    lines_of(analysis).map_values(
        |l: Seq<char>| (crate::text::trim(l), suggestion_key(crate::text::trim(l))),
    )
}

/// The distinct suggestions of a review, one per line, trimmed, in order: a line is dropped when
/// it is empty, when its key is shorter than 10 bytes, or when its key repeats a kept one.
pub fn deduplicate_suggestions(analysis: &str) -> (r: Vec<String>)
    ensures
        crate::gitdiff::string_views(r@) == select_state(suggestion_items(analysis@)).1,
{
    let cs = chars_of(analysis);
    let lines = split_lines(&cs);
    let ghost ls = views(lines@);
    let mut trimmed: Vec<String> = Vec::new();
    let mut keys: Vec<String> = Vec::new();
    let mut i: usize = 0;
    while i < lines.len()
        invariant
            i <= lines@.len(),
            ls == views(lines@),
            ls == lines_of(analysis@),
            trimmed@.len() == i,
            keys@.len() == i,
            forall|k: int|
                0 <= k < i ==> (#[trigger] trimmed@[k])@ == crate::text::trim(ls[k]) && keys@[k]@
                    == suggestion_key(crate::text::trim(ls[k])),
        decreases lines@.len() - i,
    {
        let t = crate::text::string_of(&crate::text::trim_chars(&lines[i]));
        let k = key_of(t.as_str());
        trimmed.push(t);
        keys.push(k);
        i = i + 1;
    }
    let r = select_distinct(&trimmed, &keys);
    proof {
        assert(Seq::new(trimmed@.len(), |i: int| (trimmed@[i]@, keys@[i]@)) =~= suggestion_items(
            analysis@,
        ));
    }
    r
}

} // verus!
