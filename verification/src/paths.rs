//! Filesystem-safe path segments and path building.
//!
//! Titles coming from the remote portal may hold characters that are not
//! acceptable in a path segment. Sanitization maps each reserved character
//! (and the space) to an underscore, one output character per input
//! character, so a title never appears verbatim as a path segment.

use vstd::prelude::*;

verus! {

/// Characters that must never appear in a path segment.
pub open spec fn reserved_char(c: char) -> bool {
    c == '/' || c == '\\' || c == ':' || c == '*' || c == '?' || c == '"' || c == '<' || c == '>'
        || c == '|'
}

/// How one character of a title is rendered in a path segment.
pub open spec fn sanitize_char(c: char) -> char {
    if reserved_char(c) || c == ' ' {
        '_'
    } else {
        c
    }
}

/// The sanitized form of a whole title.
pub open spec fn sanitized(title: Seq<char>) -> Seq<char> {
    title.map_values(|c: char| sanitize_char(c))
}

pub assume_specification[ String::push ](s: &mut String, c: char)
    ensures
        final(s)@ == old(s)@.push(c),
;

fn is_reserved(c: char) -> (r: bool)
    ensures
        r == reserved_char(c),
{
    c == '/' || c == '\\' || c == ':' || c == '*' || c == '?' || c == '"' || c == '<' || c == '>'
        || c == '|'
}

/// Replace every reserved character (and space) of a title with an
/// underscore, keeping all other characters and the title's length.
pub fn sanitize_title(title: &str) -> (r: String)
    ensures
        r@ == sanitized(title@),
{
    let n = title.unicode_len();
    let mut out = String::new();
    let mut i: usize = 0;
    while i < n
        invariant
            n == title@.len(),
            i <= n,
            out@.len() == i,
            forall|j: int| 0 <= j < i ==> out@[j] == sanitize_char(title@[j]),
        decreases n - i,
    {
        let c = title.get_char(i);
        if is_reserved(c) || c == ' ' {
            out.push('_');
        } else {
            out.push(c);
        }
        i += 1;
    }
    proof {
        assert(out@ =~= sanitized(title@));
    }
    out
}

/// No character of a sanitized title is reserved.
pub proof fn lemma_sanitized_has_no_reserved(title: Seq<char>)
    ensures
        forall|i: int|
            0 <= i < sanitized(title).len() ==> !reserved_char(#[trigger] sanitized(title)[i]),
{
}

} // verus!
