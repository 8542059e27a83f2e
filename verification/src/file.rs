//! What a file's name says about it: its dot-separated tokens, whether it
//! carries the tag, and its sequence number.
//!
//! A managed name reads `stem[.tag].NNNN.suffix`. The tag is looked for in
//! the third token from the end and the number in the second, whatever the
//! rest of the name is, so that a file keeps its tag when it comes in from
//! another directory.

use crate::decimal::{parse_digits, parse_number};
use crate::paths::{extension, file_name, path_extension, path_file_name};
use crate::text::{
    chars_of, opt_view, same_chars, split, split_chars, string_of, vec_views, views,
};
use vstd::prelude::*;

verus! {

/// Why a path has no tokens.
#[derive(Debug, Clone, Copy, PartialEq, Eq, Structural)]
pub enum TokenError {
    /// The path has no final component.
    InvalidFileName,
    /// The file name has fewer than three dot-separated tokens.
    TooFewTokens,
}

/// The largest sequence number a name can carry.
pub open spec fn max_index() -> nat {
    0x7fff_ffff
}

/// The dot-separated tokens of a file name.
pub open spec fn name_tokens(name: Seq<char>) -> Seq<Seq<char>> {
    split(name, '.')
}

/// The tokens of a file name, or the reason why it has too few to be read.
pub open spec fn checked_tokens(name: Seq<char>) -> Result<Seq<Seq<char>>, TokenError> {
    if name_tokens(name).len() < 3 {
        Err(TokenError::TooFewTokens)
    } else {
        Ok(name_tokens(name))
    }
}

/// A file name is tagged when it has at least three tokens and the third
/// from the end is the tag.
pub open spec fn name_is_tagged(name: Seq<char>, tag: Seq<char>) -> bool {
    let tokens = name_tokens(name);
    tokens.len() >= 3 && tokens[tokens.len() - 3] == tag
}

/// The sequence number that a token denotes: it must consist of four or
/// more ASCII digits, and its value must fit.
pub open spec fn segment_index(segment: Seq<char>) -> Option<int> {
    if segment.len() >= 4 {
        match parse_number(segment, max_index()) {
            Some(n) => Some(n as int),
            None => None,
        }
    } else {
        None
    }
}

/// The sequence number of a file name: that of its second token from the
/// end, if the name has at least three tokens.
pub open spec fn name_number(name: Seq<char>) -> Option<int> {
    let tokens = name_tokens(name);
    if tokens.len() >= 3 {
        segment_index(tokens[tokens.len() - 2])
    } else {
        None
    }
}

/// The tokens of the final component of a path.
pub open spec fn path_tokens(path: Seq<char>) -> Result<Seq<Seq<char>>, TokenError> {
    match path_file_name(path) {
        Some(name) => checked_tokens(name),
        None => Err(TokenError::InvalidFileName),
    }
}

/// Whether the final component of a path is tagged. A path without one is
/// not.
pub open spec fn path_is_tagged(path: Seq<char>, tag: Seq<char>) -> bool {
    match path_file_name(path) {
        Some(name) => name_is_tagged(name, tag),
        None => false,
    }
}

/// The sequence number of the final component of a path.
pub open spec fn path_number(path: Seq<char>) -> Option<int> {
    match path_file_name(path) {
        Some(name) => name_number(name),
        None => None,
    }
}

/// An optional machine integer as an optional mathematical one.
pub open spec fn opt_int(n: Option<i32>) -> Option<int> {
    match n {
        Some(n) => Some(n as int),
        None => None,
    }
}

/// What a fallible list of token strings stands for.
pub open spec fn tokens_view(tokens: Result<Vec<String>, TokenError>) -> Result<
    Seq<Seq<char>>,
    TokenError,
> {
    match tokens {
        Ok(tokens) => Ok(views(tokens@)),
        Err(e) => Err(e),
    }
}

/// Turns each piece into a string.
pub fn strings_of(parts: &Vec<Vec<char>>) -> (out: Vec<String>)
    ensures
        views(out@) == vec_views(parts@),
{
    let mut out: Vec<String> = Vec::new();
    let mut i: usize = 0;
    while i < parts.len()
        invariant
            i <= parts.len(),
            views(out@) == vec_views(parts@).take(i as int),
        decreases parts.len() - i,
    {
        let ghost before = views(out@);
        out.push(string_of(&parts[i]));
        assert(views(out@) == before.push(parts@[i as int]@));
        assert(vec_views(parts@).take(i + 1) == vec_views(parts@).take(i as int).push(
            parts@[i as int]@,
        ));
        i += 1;
    }
    assert(vec_views(parts@).take(parts.len() as int) == vec_views(parts@));
    out
}

/// Reads a token as a sequence number.
pub fn parse_index(segment: &Vec<char>) -> (index: Option<i32>)
    ensures
        opt_int(index) == segment_index(segment@),
{
    if segment.len() < 4 {
        return None;
    }
    match parse_digits(segment, 0x7fff_ffff) {
        Some(n) => Some(n as i32),
        None => None,
    }
}

/// The dot-separated tokens of a file name, which must have at least three.
pub fn tokens_of_name(name: &str) -> (tokens: Result<Vec<String>, TokenError>)
    ensures
        tokens_view(tokens) == checked_tokens(name@),
{
    let chars = chars_of(name);
    let parts = split_chars(&chars, '.');
    if parts.len() < 3 {
        return Err(TokenError::TooFewTokens);
    }
    Ok(strings_of(&parts))
}

/// Whether a file name carries the tag.
pub fn name_tagged(name: &str, tag: &str) -> (tagged: bool)
    ensures
        tagged == name_is_tagged(name@, tag@),
{
    let chars = chars_of(name);
    let parts = split_chars(&chars, '.');
    if parts.len() < 3 {
        return false;
    }
    let tag_chars = chars_of(tag);
    let third = &parts[parts.len() - 3];
    assert(vec_views(parts@)[parts.len() - 3] == third@);
    same_chars(third, &tag_chars)
}

/// The sequence number of a file name.
pub fn number_of_name(name: &str) -> (number: Option<i32>)
    ensures
        opt_int(number) == name_number(name@),
{
    let chars = chars_of(name);
    let parts = split_chars(&chars, '.');
    if parts.len() < 3 {
        return None;
    }
    let second = &parts[parts.len() - 2];
    assert(vec_views(parts@)[parts.len() - 2] == second@);
    parse_index(second)
}

/// What the rest of the library asks of a path.
pub trait PathExt {
    /// The path as text.
    spec fn path_text(&self) -> Seq<char>;

    /// Whether the file that the path names carries the tag.
    fn is_tagged(&self, tag: &str) -> (tagged: bool)
        ensures
            tagged == path_is_tagged(self.path_text(), tag@),
    ;

    /// The tokens of the file name. Fails where the path has no file name
    /// or the name has fewer than three tokens.
    fn fname_tokens(&self) -> (tokens: Result<Vec<String>, TokenError>)
        ensures
            tokens_view(tokens) == path_tokens(self.path_text()),
    ;

    /// The sequence number in the file name, if it has one.
    fn get_number(&self) -> (number: Option<i32>)
        ensures
            opt_int(number) == path_number(self.path_text()),
    ;

    /// The extension of the file name, if it has one.
    fn ext_as_string(&self) -> (ext: Option<String>)
        ensures
            opt_view(ext) == path_extension(self.path_text()),
    ;
}

impl PathExt for str {
    open spec fn path_text(&self) -> Seq<char> {
        self@
    }

    fn is_tagged(&self, tag: &str) -> (tagged: bool) {
        match file_name(self) {
            Some(name) => name_tagged(name.as_str(), tag),
            None => false,
        }
    }

    fn fname_tokens(&self) -> (tokens: Result<Vec<String>, TokenError>) {
        match file_name(self) {
            Some(name) => tokens_of_name(name.as_str()),
            None => Err(TokenError::InvalidFileName),
        }
    }

    fn get_number(&self) -> (number: Option<i32>) {
        match file_name(self) {
            Some(name) => number_of_name(name.as_str()),
            None => None,
        }
    }

    fn ext_as_string(&self) -> (ext: Option<String>) {
        extension(self)
    }
}

impl PathExt for String {
    open spec fn path_text(&self) -> Seq<char> {
        self@
    }

    fn is_tagged(&self, tag: &str) -> (tagged: bool) {
        self.as_str().is_tagged(tag)
    }

    fn fname_tokens(&self) -> (tokens: Result<Vec<String>, TokenError>) {
        self.as_str().fname_tokens()
    }

    fn get_number(&self) -> (number: Option<i32>) {
        self.as_str().get_number()
    }

    fn ext_as_string(&self) -> (ext: Option<String>) {
        self.as_str().ext_as_string()
    }
}

} // verus!
