//! From a directory as it was read to a move plan, for each of the
//! operations on numbered files.

use crate::dir::{
    classify_listing, greatest_number, max_number, plain_files, set_tag_moves, token_entries,
    unset_tag_moves, DirError, DirExt, DirListing, DirView, ListedFile,
};
use crate::dir_consolidate::consolidation;
use crate::dir_num_by_age::{
    by_age, is_double_plan, is_plan_of, make_move_list, movers, TmpNameError,
};
use crate::file::{path_is_tagged, PathExt};
use crate::types::{moves_view, Move, RenameActions};
use vstd::prelude::*;

verus! {

/// What can be done to the files of a directory.
#[derive(Debug)]
pub enum Operation {
    /// Close the holes in the numbering and number the rogue files.
    Consolidate,
    /// Number the files in the order of their modification times.
    NumByAge,
    /// Set the tag on this file if it has none, and take it off if it has.
    Flip(String),
    /// Set the tag on this file.
    SetTag(String),
    /// Take the tag off this file.
    UnsetTag(String),
}

/// What an operation stands for.
pub enum OperationView {
    Consolidate,
    NumByAge,
    Flip(Seq<char>),
    SetTag(Seq<char>),
    UnsetTag(Seq<char>),
}

impl View for Operation {
    type V = OperationView;

    open spec fn view(&self) -> OperationView {
        match *self {
            Operation::Consolidate => OperationView::Consolidate,
            Operation::NumByAge => OperationView::NumByAge,
            Operation::Flip(file) => OperationView::Flip(file@),
            Operation::SetTag(file) => OperationView::SetTag(file@),
            Operation::UnsetTag(file) => OperationView::UnsetTag(file@),
        }
    }
}

/// Why there is no plan.
#[derive(Debug, Clone, Copy, PartialEq, Eq, Structural)]
pub enum PlanError {
    /// The directory cannot be classified.
    Directory(DirError),
    /// A file would have to go over a temporary path, and there is none.
    Temporary(TmpNameError),
    /// There are more files of a kind than there are numbers.
    TooManyFiles,
    /// The greatest number there is is in use, so that none can follow.
    NumbersExhausted,
}

/// The files of a kind can all be numbered.
pub open spec fn countable(numbered: nat, rogue: nat) -> bool {
    numbered + rogue < i32::MAX
}

/// The files of both kinds can all be numbered.
pub open spec fn all_countable(files: DirView) -> bool {
    &&& countable(files.untagged.numbered_files.len(), files.untagged.rogue_files.len())
    &&& countable(files.tagged.numbered_files.len(), files.tagged.rogue_files.len())
}

/// The renames that an operation asks for, before they are put in order:
/// one request, or two that are planned one after the other.
pub enum Request {
    One(Seq<Move>),
    Two(Seq<Move>, Seq<Move>),
}

/// The request for the tag of one file: the file goes to the first free
/// slot of the other kind, if it is not of that kind already.
pub open spec fn tag_request(files: DirView, file: Seq<char>, tag: Seq<char>, set: bool) -> Result<
    Request,
    PlanError,
> {
    let target = if set {
        files.tagged
    } else {
        files.untagged
    };
    if max_number(target.numbers) >= i32::MAX {
        Err(PlanError::NumbersExhausted)
    } else if set {
        Ok(Request::One(set_tag_moves(files, file, tag)))
    } else {
        Ok(Request::One(unset_tag_moves(files, file, tag)))
    }
}

/// The request of an operation on the directory at `dir` with these files.
///
/// Consolidation and the operations on tags classify the files first, and
/// fail where that fails. Numbering by age asks for the renames of the
/// untagged files and for those of the tagged files, apart.
pub open spec fn request_of(
    dir: Seq<char>,
    files: Seq<ListedFile>,
    tag: Seq<char>,
    operation: OperationView,
) -> Result<Request, PlanError> {
    match operation {
        OperationView::NumByAge => {
            let untagged = token_entries(files, tag, false);
            let tagged = token_entries(files, tag, true);
            if untagged.len() >= i32::MAX || tagged.len() >= i32::MAX {
                Err(PlanError::TooManyFiles)
            } else {
                Ok(Request::Two(movers(by_age(untagged)), movers(by_age(tagged))))
            }
        },
        _ => match classify_listing(dir, files, tag) {
            Err(e) => Err(PlanError::Directory(e)),
            Ok(sorted) => match operation {
                OperationView::Flip(file) => tag_request(
                    sorted,
                    file,
                    tag,
                    !path_is_tagged(file, tag),
                ),
                OperationView::SetTag(file) => tag_request(sorted, file, tag, true),
                OperationView::UnsetTag(file) => tag_request(sorted, file, tag, false),
                _ => if all_countable(sorted) {
                    Ok(
                        Request::One(
                            consolidation(sorted.untagged) + consolidation(sorted.tagged),
                        ),
                    )
                } else {
                    Err(PlanError::TooManyFiles)
                },
            },
        },
    }
}

/// The scheduler's plan, or its refusal, as the planner reports it.
pub open spec fn scheduler_said(plan: Result<Seq<Move>, PlanError>) -> Option<
    Result<Seq<Move>, TmpNameError>,
> {
    match plan {
        Ok(plan) => Some(Ok(plan)),
        Err(PlanError::Temporary(e)) => Some(Err(e)),
        Err(_) => None,
    }
}

/// The plan is the one owed for the request. Where there is no request
/// the plan fails for the same reason. Where there is one, the plan is
/// what the scheduler owes for it, or the scheduler's refusal.
pub open spec fn is_plan_for(
    plan: Result<Seq<Move>, PlanError>,
    request: Result<Request, PlanError>,
) -> bool {
    match request {
        Err(e) => plan == Err::<Seq<Move>, PlanError>(e),
        Ok(Request::One(raw)) => scheduler_said(plan) matches Some(said) && is_plan_of(said, raw),
        Ok(Request::Two(first, second)) => scheduler_said(plan) matches Some(said)
            && is_double_plan(said, first, second),
    }
}

/// What a fallible plan stands for.
pub open spec fn plan_result_view(plan: Result<RenameActions, PlanError>) -> Result<
    Seq<Move>,
    PlanError,
> {
    match plan {
        Ok(plan) => Ok(moves_view(plan@)),
        Err(e) => Err(e),
    }
}

/// Puts raw renames in an order in which they can be carried out.
fn scheduled(raw: RenameActions) -> (plan: Result<RenameActions, PlanError>)
    ensures
        is_plan_for(
            plan_result_view(plan),
            Ok::<Request, PlanError>(Request::One(moves_view(raw@))),
        ),
{
    match make_move_list(raw) {
        Ok(plan) => Ok(plan),
        Err(e) => Err(PlanError::Temporary(e)),
    }
}

/// The move plan for an operation on a directory that was read.
#[verifier::rlimit(40)]
pub fn plan(listing: &DirListing, tag: &str, operation: &Operation) -> (plan: Result<
    RenameActions,
    PlanError,
>)
    ensures
        is_plan_for(
            plan_result_view(plan),
            request_of(listing.dir@, plain_files(listing.entries@), tag@, operation@),
        ),
{
    if let Operation::NumByAge = operation {
        let file_map = listing.file_token_map(tag);
        if file_map.untagged.len() >= 0x7fff_ffff || file_map.tagged.len() >= 0x7fff_ffff {
            return Err(PlanError::TooManyFiles);
        }
        return match crate::dir_num_by_age::actions(file_map) {
            Ok(plan) => Ok(plan),
            Err(e) => Err(PlanError::Temporary(e)),
        };
    }
    let files = match listing.categorise_files(tag.to_owned()) {
        Ok(files) => files,
        Err(e) => {
            return Err(PlanError::Directory(e));
        },
    };
    let set = match operation {
        Operation::Flip(file) => !file.is_tagged(tag),
        Operation::SetTag(_) => true,
        _ => false,
    };
    match operation {
        Operation::Flip(file) | Operation::SetTag(file) | Operation::UnsetTag(file) => {
            if set {
                if greatest_number(&files.tagged.numbers) == 0x7fff_ffff {
                    return Err(PlanError::NumbersExhausted);
                }
                scheduled(files.set_tag(file.clone(), tag))
            } else {
                if greatest_number(&files.untagged.numbers) == 0x7fff_ffff {
                    return Err(PlanError::NumbersExhausted);
                }
                scheduled(files.unset_tag(file.clone(), tag))
            }
        },
        _ => {
            let limit: usize = 0x7fff_ffff;
            let untagged_fit = files.untagged.numbered_files.len() < limit
                && files.untagged.rogue_files.len() < limit
                - files.untagged.numbered_files.len();
            let tagged_fit = files.tagged.numbered_files.len() < limit
                && files.tagged.rogue_files.len() < limit - files.tagged.numbered_files.len();
            if !untagged_fit || !tagged_fit {
                return Err(PlanError::TooManyFiles);
            }
            scheduled(crate::dir_consolidate::actions(files))
        },
    }
}

} // verus!
