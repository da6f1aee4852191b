use vstd::prelude::*;

verus! {

/// A file before and after a rewrite, with its sizes.
pub struct RewriteResult {
    pub original: String,
    pub rewritten: String,
    pub tokens_before: usize,
    pub tokens_after: usize,
    pub lines_before: usize,
    pub lines_after: usize,
}

impl RewriteResult {
    /// Tokens saved by the rewrite; negative when it grew.
    pub fn saved(&self) -> (r: isize)
        requires
            self.tokens_before <= isize::MAX,
            self.tokens_after <= isize::MAX,
        ensures
            r == self.tokens_before - self.tokens_after,
    {
        self.tokens_before as isize - self.tokens_after as isize
    }
}

} // verus!

verus! {

broadcast use vstd::string::group_string_axioms;

/// A reply trimmed and, when it starts with a fence, without the opening fence (```` ```rust ````,
/// ```` ```rs ```` or ```` ``` ````) and a closing ```` ``` ```` at its end, trimmed again.
pub open spec fn strip_outer_spec(s: Seq<char>) -> Seq<char> {
    let t = crate::text::trim(s);
    let bare = seq!['`', '`', '`'];
    if crate::text::starts_with(t, bare) {
        let w = if crate::text::starts_with(t, seq!['`', '`', '`', 'r', 'u', 's', 't']) {
            t.skip(7)
        } else if crate::text::starts_with(t, seq!['`', '`', '`', 'r', 's']) {
            t.skip(5)
        } else {
            t.skip(3)
        };
        let v = if crate::text::ends_with(w, bare) {
            w.take(w.len() - 3)
        } else {
            w
        };
        crate::text::trim(v)
    } else {
        t
    }
}

/// Takes the fence off a rewritten file when the reply is one fenced block.
pub fn strip_markdown_fences(s: &str) -> (r: String)
    ensures
        r@ == strip_outer_spec(s@),
{
    let t = crate::text::trim_chars(&crate::text::chars_of(s));
    let bare: Vec<char> = vec!['`', '`', '`'];
    let rust: Vec<char> = vec!['`', '`', '`', 'r', 'u', 's', 't'];
    let rs: Vec<char> = vec!['`', '`', '`', 'r', 's'];
    assert(bare@ == seq!['`', '`', '`']);
    assert(rust@ == seq!['`', '`', '`', 'r', 'u', 's', 't']);
    assert(rs@ == seq!['`', '`', '`', 'r', 's']);
    if !crate::text::matches_at(&t, &bare, 0) {
        return crate::text::string_of(&t);
    }
    let n = t.len();
    let w = if crate::text::matches_at(&t, &rust, 0) {
        crate::text::slice_chars(&t, 7, n)
    } else if crate::text::matches_at(&t, &rs, 0) {
        crate::text::slice_chars(&t, 5, n)
    } else {
        crate::text::slice_chars(&t, 3, n)
    };
    let v = if crate::text::ends_with_chars(&w, &bare) {
        crate::text::slice_chars(&w, 0, w.len() - 3)
    } else {
        crate::text::copy_chars(&w)
    };
    proof {
        assert(crate::text::starts_with(t@, rust@) ==> w@ =~= t@.skip(7));
        assert(crate::text::starts_with(t@, rs@) ==> w@ =~= t@.skip(5));
        assert(w@ =~= t@.skip(3) || crate::text::starts_with(t@, rust@) || crate::text::starts_with(t@, rs@));
        assert(crate::text::ends_with(w@, bare@) ==> v@ =~= w@.take(w@.len() - 3));
    }
    crate::text::string_of(&crate::text::trim_chars(&v))
}

} // verus!
