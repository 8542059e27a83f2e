//! Regular expressions, as the `regex` crate reads and applies them.
//!
//! What a pattern matches is not restated here. The results of the crate
//! are given names, and the contracts of this library speak of those.

use vstd::prelude::*;

verus! {

/// A compiled regular expression of the `regex` crate.
#[verifier::external_type_specification]
#[verifier::external_body]
pub struct ExRegex(regex::Regex);

/// Whether `regex::Regex::new` accepts the pattern.
pub uninterp spec fn regex_compiles(pattern: Seq<char>) -> bool;

/// What `regex::Regex::replacen` makes of `text` for the compiled pattern:
/// the first `limit` matches, or all of them where `limit` is 0, replaced by
/// `replacement`, in which `$1`, `${1}` or `$name` stand for what a group
/// has captured.
pub uninterp spec fn regex_replacen(
    pattern: Seq<char>,
    text: Seq<char>,
    limit: nat,
    replacement: Seq<char>,
) -> Seq<char>;

/// Whether `regex::Regex::is_match` finds a match of the compiled pattern
/// anywhere in `text`.
pub uninterp spec fn regex_is_match(pattern: Seq<char>, text: Seq<char>) -> bool;

/// Whether a character has a meaning of its own in a pattern, so that it
/// must be escaped to stand for itself.
pub open spec fn is_meta_char(c: char) -> bool {
    c == '\\' || c == '.' || c == '+' || c == '*' || c == '?' || c == '(' || c == ')' || c == '|'
        || c == '[' || c == ']' || c == '{' || c == '}' || c == '^' || c == '$' || c == '#'
        || c == '&' || c == '-' || c == '~'
}

/// The text with a backslash before each of its characters that has a
/// meaning in a pattern: a pattern that matches the text itself.
pub open spec fn escaped_text(text: Seq<char>) -> Seq<char>
    decreases text.len(),
{
    if text.len() == 0 {
        Seq::<char>::empty()
    } else if is_meta_char(text.last()) {
        escaped_text(text.drop_last()).push('\\').push(text.last())
    } else {
        escaped_text(text.drop_last()).push(text.last())
    }
}

/// Calls `regex::escape`, which copies the text and puts a backslash before
/// each character that has a meaning in a pattern. The contract says so.
#[verifier::external_body]
pub(crate) fn escape(text: &str) -> (escaped: String)
    ensures
        escaped@ == escaped_text(text@),
{
    regex::escape(text)
}

/// A pattern that has been compiled, together with its source text. The
/// two are only ever made together, by [`Pattern::compile`].
pub struct Pattern {
    source: String,
    compiled: regex::Regex,
}

impl Pattern {
    /// The text that the pattern was compiled from.
    pub closed spec fn source(&self) -> Seq<char> {
        self.source@
    }

    /// The pattern compiled, or none where it cannot be.
    pub fn new(pattern: &str) -> (compiled: Option<Pattern>)
        ensures
            compiled is Some <==> regex_compiles(pattern@),
            compiled matches Some(p) ==> p.source() == pattern@,
    {
        Pattern::compile(pattern)
    }

    /// Calls `regex::Regex::new`. The contract says that the result is
    /// there exactly if the crate accepts the pattern, and that it keeps
    /// the text it was made from.
    #[verifier::external_body]
    pub(crate) fn compile(pattern: &str) -> (compiled: Option<Pattern>)
        ensures
            compiled is Some <==> regex_compiles(pattern@),
            compiled matches Some(p) ==> p.source() == pattern@,
    {
        match regex::Regex::new(pattern) {
            Ok(compiled) => Some(Pattern { source: pattern.to_owned(), compiled }),
            Err(_) => None,
        }
    }

    /// Calls `regex::Regex::replacen` with a replacement string. The
    /// contract only gives the result its name, [`regex_replacen`].
    #[verifier::external_body]
    pub(crate) fn replacen(&self, text: &str, limit: usize, replacement: &str) -> (replaced: String)
        ensures
            replaced@ == regex_replacen(self.source(), text@, limit as nat, replacement@),
    {
        self.compiled.replacen(text, limit, replacement).into_owned()
    }

    /// Calls `regex::Regex::is_match`. The contract only gives the result
    /// its name, [`regex_is_match`].
    #[verifier::external_body]
    pub(crate) fn is_match(&self, text: &str) -> (found: bool)
        ensures
            found == regex_is_match(self.source(), text@),
    {
        self.compiled.is_match(text)
    }
}

} // verus!
