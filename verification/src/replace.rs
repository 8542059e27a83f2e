//! Renaming by pattern: one match, every match, or the match at a given
//! position is replaced.

use crate::pattern::{regex_compiles, regex_replacen, Pattern};
use vstd::prelude::*;

verus! {

/// `filename` with the first match of `from` replaced by `to`.
pub open spec fn first_replaced(from: Seq<char>, to: Seq<char>, filename: Seq<char>) -> Seq<char> {
    regex_replacen(from, filename, 1, to)
}

/// `filename` with every match of `from` replaced by `to`.
pub open spec fn all_replaced(from: Seq<char>, to: Seq<char>, filename: Seq<char>) -> Seq<char> {
    regex_replacen(from, filename, 0, to)
}

/// `filename` with the match of `from` at position `index`, counted from
/// 0, replaced by `to`. The matches up to and including that position are
/// replaced, and then the first `index` matches of `to`, read as a pattern,
/// are replaced by `from` again.
pub open spec fn nth_replaced(
    from: Seq<char>,
    to: Seq<char>,
    filename: Seq<char>,
    index: nat,
) -> Seq<char> {
    if index == 0 {
        regex_replacen(from, filename, 1, to)
    } else {
        regex_replacen(to, regex_replacen(from, filename, index + 1, to), index, from)
    }
}

/// Replaces the first match of `from` in `filename` by `to`.
pub fn first(from: &str, to: &str, filename: &str) -> (renamed: String)
    requires
        regex_compiles(from@),
    ensures
        renamed@ == first_replaced(from@, to@, filename@),
{
    replace(from, to, filename, 1)
}

/// Replaces every match of `from` in `filename` by `to`.
pub fn all(from: &str, to: &str, filename: &str) -> (renamed: String)
    requires
        regex_compiles(from@),
    ensures
        renamed@ == all_replaced(from@, to@, filename@),
{
    replace(from, to, filename, 0)
}

/// Replaces the match of `from` at position `index` in `filename` by `to`.
pub fn nth(from: &str, to: &str, filename: &str, index: usize) -> (renamed: String)
    requires
        regex_compiles(from@),
        index > 0 ==> regex_compiles(to@),
        index < usize::MAX,
    ensures
        renamed@ == nth_replaced(from@, to@, filename@, index as nat),
{
    if index == 0 {
        replace(from, to, filename, 1)
    } else {
        let widened = replace(from, to, filename, index + 1);
        replace(to, from, widened.as_str(), index)
    }
}

/// Replaces the first `count` matches of `from` in `filename` by `to`, or
/// all of them where `count` is 0.
fn replace(from: &str, to: &str, filename: &str, count: usize) -> (renamed: String)
    requires
        regex_compiles(from@),
    ensures
        renamed@ == regex_replacen(from@, filename@, count as nat, to@),
{
    match Pattern::compile(from) {
        Some(rx) => rx.replacen(filename, count, to),
        None => {
            assert(false);
            String::new()
        },
    }
}

/// Whether both texts can be used as patterns.
pub fn usable(from: &str, to: &str) -> (ok: bool)
    ensures
        ok == (regex_compiles(from@) && regex_compiles(to@)),
{
    Pattern::compile(from).is_some() && Pattern::compile(to).is_some()
}

} // verus!
