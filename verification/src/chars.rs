//! What is asked of single characters beyond ASCII. The answers come from
//! the Unicode tables of the standard library and are only given names.

use vstd::prelude::*;

verus! {

/// Whether `char::is_alphabetic` holds of the character: it has the Unicode
/// property Alphabetic.
pub uninterp spec fn char_is_alphabetic(c: char) -> bool;

/// Whether `char::is_numeric` holds of the character: it belongs to one of
/// the Unicode categories for numbers.
pub uninterp spec fn char_is_numeric(c: char) -> bool;

/// Whether `char::is_whitespace` holds of the character: it has the Unicode
/// property White_Space.
pub uninterp spec fn char_is_whitespace(c: char) -> bool;

/// What `str::to_lowercase` makes of the text.
pub uninterp spec fn lowercase_of(text: Seq<char>) -> Seq<char>;

/// An ASCII letter.
pub open spec fn is_ascii_letter(c: char) -> bool {
    ('a' <= c <= 'z') || ('A' <= c <= 'Z')
}

/// The lower-case form of an ASCII letter; any other character is itself.
pub open spec fn ascii_lower(c: char) -> char {
    if 'A' <= c <= 'Z' {
        ((c as u8) + 32) as char
    } else {
        c
    }
}

/// `char::is_alphabetic` tells whether the character has the Unicode
/// property Alphabetic.
pub assume_specification[ char::is_alphabetic ](c: char) -> (b: bool)
    ensures
        b == char_is_alphabetic(c),
;

/// `char::is_numeric` tells whether the character belongs to a Unicode
/// category for numbers.
pub assume_specification[ char::is_numeric ](c: char) -> (b: bool)
    ensures
        b == char_is_numeric(c),
;

/// `char::is_whitespace` tells whether the character has the Unicode
/// property White_Space.
pub assume_specification[ char::is_whitespace ](c: char) -> (b: bool)
    ensures
        b == char_is_whitespace(c),
;

/// Calls `str::to_lowercase`. The contract only gives the result its name,
/// [`lowercase_of`].
#[verifier::external_body]
pub(crate) fn to_lowercase(text: &str) -> (lower: String)
    ensures
        lower@ == lowercase_of(text@),
{
    text.to_lowercase()
}

/// Whether the character is an ASCII letter.
pub fn is_letter(c: char) -> (b: bool)
    ensures
        b == is_ascii_letter(c),
{
    (c >= 'a' && c <= 'z') || (c >= 'A' && c <= 'Z')
}

/// The lower-case form of an ASCII letter.
pub fn lower(c: char) -> (l: char)
    ensures
        l == ascii_lower(c),
{
    if c >= 'A' && c <= 'Z' {
        ((c as u8) + 32) as char
    } else {
        c
    }
}

} // verus!
