//! Operations on strings that the standard library performs.
use vstd::prelude::*;
use vstd::utf8::is_ascii_chars;

verus! {

/// The lower-case equivalent of a string that holds a character outside ASCII, as
/// `str::to_lowercase` gives it.
pub uninterp spec fn unicode_lowercase(text: Seq<char>) -> Seq<char>;

/// `A` to `Z` become `a` to `z`; every other character stays.
pub open spec fn ascii_lower(c: char) -> char {
    if 'A' <= c && c <= 'Z' {
        (c as u32 + 32) as char
    } else {
        c
    }
}

/// `text` in lower case.
pub open spec fn lower(text: Seq<char>) -> Seq<char> {
    if is_ascii_chars(text) {
        text.map_values(|c: char| ascii_lower(c))
    } else {
        unicode_lowercase(text)
    }
}

/// `part` occurs in `text`.
pub open spec fn contains_text(text: Seq<char>, part: Seq<char>) -> bool {
    exists|i: int|
        0 <= i <= text.len() - part.len() && #[trigger] text.subrange(i, i + part.len()) == part
}

/// Calls `str::to_lowercase`.
///
/// Trusted: in an ASCII string the letters `A` to `Z` are mapped to `a` to `z` and nothing else
/// changes; the result for any other string depends on the string alone.
#[verifier::external_body]
pub(crate) fn to_lowercase(text: &str) -> (lowered: String)
    ensures
        lowered@ == (if is_ascii_chars(text@) {
            text@.map_values(|c: char| ascii_lower(c))
        } else {
            unicode_lowercase(text@)
        }),
{
    text.to_lowercase()
}

/// Calls `str::contains` with a string as the pattern.
///
/// Trusted: the answer is whether the pattern matches a sub-slice of the string.
#[verifier::external_body]
pub(crate) fn contains(text: &str, part: &str) -> (found: bool)
    ensures
        found == contains_text(text@, part@),
{
    text.contains(part)
}

/// Lower-casing an ASCII string twice is the same as doing it once.
pub proof fn law_lower_is_idempotent(text: Seq<char>)
    requires
        is_ascii_chars(text),
    ensures
        is_ascii_chars(lower(text)),
        lower(lower(text)) == lower(text),
{
    assert forall|i: int| 0 <= i < text.len() implies {
        &&& 0 <= lower(text)[i] as nat <= 127
        &&& ascii_lower(#[trigger] lower(text)[i]) == lower(text)[i]
    } by {
        assert(0 <= text[i] as nat <= 127);
    }
    assert(is_ascii_chars(lower(text)));
    assert(lower(lower(text)) =~= lower(text));
}

} // verus!
