//! Paths are held as plain strings. Taking a path apart and putting one
//! together is left to `camino`; this module states what is relied on.

use crate::text::{opt_view, split};
use vstd::prelude::*;

verus! {

/// The final component of a path, as `camino::Utf8Path::file_name` gives it;
/// `None` where the path has none (it ends in `..`, is a root, or is empty).
pub uninterp spec fn path_file_name(path: Seq<char>) -> Option<Seq<char>>;

/// A path without its final component, as `camino::Utf8Path::parent` gives
/// it; `None` where the path ends in a root or is empty.
pub uninterp spec fn path_parent(path: Seq<char>) -> Option<Seq<char>>;

/// `rel` adjoined to `base`, as `camino::Utf8Path::join` gives it.
pub uninterp spec fn path_join(base: Seq<char>, rel: Seq<char>) -> Seq<char>;

/// The extension of a file name: what follows its last dot. A name without
/// a dot has none, and neither has a name whose only dot is its first
/// character.
pub open spec fn name_extension(name: Seq<char>) -> Option<Seq<char>> {
    let pieces = split(name, '.');
    if pieces.len() <= 1 {
        None
    } else if pieces.len() == 2 && pieces[0].len() == 0 {
        None
    } else {
        Some(pieces.last())
    }
}

/// The extension of the final component of a path.
pub open spec fn path_extension(path: Seq<char>) -> Option<Seq<char>> {
    match path_file_name(path) {
        Some(name) => name_extension(name),
        None => None,
    }
}

/// Calls `camino::Utf8Path::file_name`. The contract only gives the result
/// its name, [`path_file_name`].
#[verifier::external_body]
pub(crate) fn file_name(path: &str) -> (name: Option<String>)
    ensures
        opt_view(name) == path_file_name(path@),
{
    match camino::Utf8Path::new(path).file_name() {
        Some(name) => Some(name.to_owned()),
        None => None,
    }
}

/// Calls `camino::Utf8Path::parent`. The contract only gives the result its
/// name, [`path_parent`].
#[verifier::external_body]
pub(crate) fn parent(path: &str) -> (dir: Option<String>)
    ensures
        opt_view(dir) == path_parent(path@),
{
    match camino::Utf8Path::new(path).parent() {
        Some(dir) => Some(dir.as_str().to_owned()),
        None => None,
    }
}

/// Calls `camino::Utf8Path::extension`. The contract is the rule that its
/// documentation gives: the extension is taken from the file name, there is
/// none without a file name, without a dot, or where the only dot leads the
/// name, and else it is what follows the last dot.
#[verifier::external_body]
pub(crate) fn extension(path: &str) -> (ext: Option<String>)
    ensures
        opt_view(ext) == path_extension(path@),
{
    match camino::Utf8Path::new(path).extension() {
        Some(ext) => Some(ext.to_owned()),
        None => None,
    }
}

/// Calls `camino::Utf8Path::join`. The contract only gives the result its
/// name, [`path_join`].
#[verifier::external_body]
pub(crate) fn join(base: &str, rel: &str) -> (joined: String)
    ensures
        joined@ == path_join(base@, rel@),
{
    camino::Utf8Path::new(base).join(rel).into_string()
}


/// The relative path from `base` to `path`, as
/// `pathdiff::diff_utf8_paths` gives it; `None` where there is none, which
/// is the case for a relative `path` and an absolute `base`.
pub uninterp spec fn path_diff(path: Seq<char>, base: Seq<char>) -> Option<Seq<char>>;

/// Calls `pathdiff::diff_utf8_paths`. The contract only gives the result
/// its name, [`path_diff`].
#[verifier::external_body]
pub(crate) fn diff(path: &str, base: &str) -> (relative: Option<String>)
    ensures
        opt_view(relative) == path_diff(path@, base@),
{
    match pathdiff::diff_utf8_paths(path, base) {
        Some(relative) => Some(relative.into_string()),
        None => None,
    }
}

} // verus!
