//! The values that planners hand to each other.

use vstd::prelude::*;

verus! {

/// One rename: the path a file has and the path it is to have.
pub type RenameAction = (String, String);

/// Renames, in the order given.
pub type RenameActions = Vec<RenameAction>;

/// A rename as text: source and destination.
pub type Move = (Seq<char>, Seq<char>);

/// How a run was asked to behave.
#[derive(Debug)]
pub struct Opts {
    /// Say what would be done, and do nothing.
    pub noop: bool,
    /// The tag that marks a file as selected.
    pub tag: String,
    /// Say what is done.
    pub verbose: bool,
}

/// What a list of renames stands for.
pub open spec fn moves_view(actions: Seq<RenameAction>) -> Seq<Move> {
    actions.map_values(|a: RenameAction| (a.0@, a.1@))
}

} // verus!
