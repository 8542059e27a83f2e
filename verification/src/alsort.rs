//! Sorting files into directories by the first letter of their names.

use crate::chars::{lowercase_of, to_lowercase};
use crate::paths::{join, path_join};
use crate::text::{chars_of, string_of};
use vstd::prelude::*;

verus! {

/// The group of letters that an initial belongs to, as on the keys of a
/// telephone: the digits, `abc`, `def` and so on, and `symbols` for
/// everything else.
pub open spec fn group_of(initial: char) -> Seq<char> {
    if '0' <= initial <= '9' {
        "0-9"@
    } else if 'a' <= initial <= 'c' {
        "abc"@
    } else if 'd' <= initial <= 'f' {
        "def"@
    } else if 'g' <= initial <= 'i' {
        "ghi"@
    } else if 'j' <= initial <= 'l' {
        "jkl"@
    } else if 'm' <= initial <= 'o' {
        "mno"@
    } else if 'p' <= initial <= 's' {
        "pqrs"@
    } else if 't' <= initial <= 'v' {
        "tuv"@
    } else if 'w' <= initial <= 'z' {
        "wxyz"@
    } else {
        "symbols"@
    }
}

/// The name of the directory for an initial: its group, or the initial
/// itself.
pub open spec fn target_name(initial: char, group: bool) -> Seq<char> {
    if group {
        group_of(initial)
    } else {
        seq![initial]
    }
}

/// The initial of a file name: the first character of its lower-case form.
pub open spec fn initial_of(basename: Seq<char>) -> Option<char> {
    let lower = lowercase_of(basename);
    if lower.len() > 0 {
        Some(lower[0])
    } else {
        None
    }
}

/// The group of letters that an initial belongs to.
pub fn group_from_initial(initial: char) -> (group: String)
    ensures
        group@ == group_of(initial),
{
    let name = if initial >= '0' && initial <= '9' {
        "0-9"
    } else if initial >= 'a' && initial <= 'c' {
        "abc"
    } else if initial >= 'd' && initial <= 'f' {
        "def"
    } else if initial >= 'g' && initial <= 'i' {
        "ghi"
    } else if initial >= 'j' && initial <= 'l' {
        "jkl"
    } else if initial >= 'm' && initial <= 'o' {
        "mno"
    } else if initial >= 'p' && initial <= 's' {
        "pqrs"
    } else if initial >= 't' && initial <= 'v' {
        "tuv"
    } else if initial >= 'w' && initial <= 'z' {
        "wxyz"
    } else {
        "symbols"
    };
    name.to_owned()
}

/// The directory below `root` that files with this initial go to.
pub fn target_from_initial(initial: char, root: &str, group: bool) -> (target: String)
    ensures
        target@ == path_join(root@, target_name(initial, group)),
{
    if group {
        let name = group_from_initial(initial);
        join(root, name.as_str())
    } else {
        let mut name: Vec<char> = Vec::new();
        name.push(initial);
        assert(name@ =~= seq![initial]);
        let name = string_of(&name);
        join(root, name.as_str())
    }
}

/// The initial of a file name, if the name has one.
pub fn initial(basename: &str) -> (first: Option<char>)
    ensures
        first == initial_of(basename@),
{
    let lower = to_lowercase(basename);
    let chars = chars_of(lower.as_str());
    if chars.len() > 0 {
        Some(chars[0])
    } else {
        None
    }
}

/// What is to happen to a file.
#[derive(Debug, Clone, Copy, PartialEq, Eq, Structural)]
pub enum Sorting {
    /// Nothing: the file is the directory it would go to.
    Stay,
    /// The file goes to its directory. It is announced if `announce` is
    /// set, and moved, the directory being made first where it is missing,
    /// if `carry_out` is set.
    Go { announce: bool, carry_out: bool },
}

/// What is to happen to the file at `file`, whose directory would be
/// `target_dir`; both paths are resolved.
pub fn process(file: &str, target_dir: &str, verbose: bool, noop: bool) -> (sorting: Sorting)
    ensures
        sorting == if target_dir@ == file@ {
            Sorting::Stay
        } else {
            Sorting::Go { announce: verbose || noop, carry_out: !noop }
        },
{
    let file_chars = chars_of(file);
    let target_chars = chars_of(target_dir);
    if crate::text::same_chars(&target_chars, &file_chars) {
        Sorting::Stay
    } else {
        Sorting::Go { announce: verbose || noop, carry_out: !noop }
    }
}

} // verus!
