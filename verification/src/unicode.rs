//! What the standard library knows of characters outside ASCII: which of
//! them are letters or white space, and their lowercase forms. Nothing here
//! is proved; each contract only gives the library's answer a name.

use vstd::prelude::*;

verus! {

/// Whether `c` has the Unicode property Alphabetic, as `char::is_alphabetic`
/// reports it.
pub uninterp spec fn unicode_alphabetic(c: char) -> bool;

/// Whether `c` has the Unicode property White_Space, as
/// `char::is_whitespace` reports it.
pub uninterp spec fn unicode_whitespace(c: char) -> bool;

/// The lowercase mapping of `c`, as `char::to_lowercase` yields it: one
/// character or several.
pub uninterp spec fn unicode_lowercase(c: char) -> Seq<char>;

/// The lowercase form of a whole string, as `str::to_lowercase` returns it.
/// It is not always the concatenation of the characters' own mappings.
pub uninterp spec fn unicode_lowercase_text(text: Seq<char>) -> Seq<char>;

/// `char::is_alphabetic`. Trusted: the answer is the one named
/// `unicode_alphabetic`. The function depends on its argument alone.
pub assume_specification[ char::is_alphabetic ](c: char) -> (yes: bool)
    ensures
        yes == unicode_alphabetic(c),
;

/// `char::is_whitespace`. Trusted: the answer is the one named
/// `unicode_whitespace`. The function depends on its argument alone.
pub assume_specification[ char::is_whitespace ](c: char) -> (yes: bool)
    ensures
        yes == unicode_whitespace(c),
;

/// Calls `char::to_lowercase` and collects what it yields. Trusted: the
/// characters are those named `unicode_lowercase`.
#[verifier::external_body]
pub(crate) fn char_to_lowercase(c: char) -> (lower: Vec<char>)
    ensures
        lower@ == unicode_lowercase(c),
{
    c.to_lowercase().collect()
}

/// Calls `str::to_lowercase` on the string that `text` spells. Trusted: the
/// result spells `unicode_lowercase_text` of it.
#[verifier::external_body]
pub(crate) fn text_to_lowercase(text: &Vec<char>) -> (lower: Vec<char>)
    ensures
        lower@ == unicode_lowercase_text(text@),
{
    let joined: String = text.iter().collect();
    joined.to_lowercase().chars().collect()
}

} // verus!
