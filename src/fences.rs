use vstd::prelude::*;
use crate::text::{
    chars_of, contains, find_first, first_at, slice_chars, string_of, trim, trim_chars,
};

verus! {

broadcast use vstd::string::group_string_axioms;

/// Where the first code fence of `s` opens: the first ```` ```rust ````, else the first
/// ```` ```rs ````, else the first ```` ``` ````; -1 when there is none.
pub open spec fn fence_start(s: Seq<char>) -> int {
    let rust = seq!['`', '`', '`', 'r', 'u', 's', 't'];
    let rs = seq!['`', '`', '`', 'r', 's'];
    let bare = seq!['`', '`', '`'];
    if contains(s, rust) {
        first_at(s, rust)
    } else if contains(s, rs) {
        first_at(s, rs)
    } else if contains(s, bare) {
        first_at(s, bare)
    } else {
        -1
    }
}

/// The code of the first fenced block of `s`, trimmed: from the line after the opening fence to
/// the next fence (or the end); `s` trimmed when it holds no fence.
pub open spec fn strip_fences_spec(s: Seq<char>) -> Seq<char> {
    let st = fence_start(s);
    if st < 0 {
        trim(s)
    } else {
        let after = s.skip(st);
        let code_start = if contains(after, seq!['\n']) {
            first_at(after, seq!['\n']) + 1
        } else {
            0
        };
        let code = after.skip(code_start);
        let bare = seq!['`', '`', '`'];
        if contains(code, bare) {
            trim(code.take(first_at(code, bare)))
        } else {
            trim(code)
        }
    }
}

/// Where the first code fence of `cs` opens, as `fence_start` describes.
fn find_fence(cs: &Vec<char>) -> (r: Option<usize>)
    ensures
        r is None <==> fence_start(cs@) < 0,
        r matches Some(i) ==> i == fence_start(cs@) && i <= cs@.len(),
{
    let rust: Vec<char> = vec!['`', '`', '`', 'r', 'u', 's', 't'];
    let rs: Vec<char> = vec!['`', '`', '`', 'r', 's'];
    let bare: Vec<char> = vec!['`', '`', '`'];
    assert(rust@ == seq!['`', '`', '`', 'r', 'u', 's', 't']);
    assert(rs@ == seq!['`', '`', '`', 'r', 's']);
    assert(bare@ == seq!['`', '`', '`']);
    match find_first(cs, &rust) {
        Some(i) => Some(i),
        None => match find_first(cs, &rs) {
            Some(i) => Some(i),
            None => match find_first(cs, &bare) {
                Some(i) => Some(i),
                None => None,
            },
        },
    }
}

/// The trimmed code that follows an opening fence at the start of `after`.
fn fenced_code(after: &Vec<char>) -> (r: Vec<char>)
    ensures
        r@ == ({
            let code_start = if contains(after@, seq!['\n']) {
                first_at(after@, seq!['\n']) + 1
            } else {
                0
            };
            let code = after@.skip(code_start);
            let bare = seq!['`', '`', '`'];
            if contains(code, bare) {
                trim(code.take(first_at(code, bare)))
            } else {
                trim(code)
            }
        }),
{
    let bare: Vec<char> = vec!['`', '`', '`'];
    let nl: Vec<char> = vec!['\n'];
    assert(bare@ == seq!['`', '`', '`']);
    assert(nl@ == seq!['\n']);
    let n = after.len();
    let code_start = match find_first(after, &nl) {
        Some(p) => p + 1,
        None => 0,
    };
    let code = slice_chars(after, code_start, after.len());
    assert(code@ =~= after@.skip(code_start as int));
    match find_first(&code, &bare) {
        Some(end) => {
            let inner = slice_chars(&code, 0, end);
            assert(inner@ =~= code@.take(end as int));
            trim_chars(&inner)
        },
        None => trim_chars(&code),
    }
}

/// Extracts the code from a reply that may wrap it in a Markdown code fence.
pub fn strip_markdown_fences(s: &str) -> (r: String)
    ensures
        r@ == strip_fences_spec(s@),
{
    let cs = chars_of(s);
    match find_fence(&cs) {
        None => string_of(&trim_chars(&cs)),
        Some(st) => {
            let after = slice_chars(&cs, st, cs.len());
            assert(after@ =~= cs@.skip(st as int));
            string_of(&fenced_code(&after))
        },
    }
}

} // verus!
