//! Aligning modification times: the files of a destination tree get the
//! times of their counterparts in a source tree.

use crate::paths::{join, path_join};
use vstd::prelude::*;

verus! {

/// Why the times cannot be aligned.
#[derive(Debug, Clone, Copy, PartialEq, Eq, Structural)]
pub enum TouchError {
    /// There is no source directory.
    NoSource,
    /// There is no destination directory.
    NoDestination,
    /// The times of so many files could not be set.
    Failed(usize),
}

/// What is found for one file of the source tree.
#[derive(Debug)]
pub enum Touch {
    /// The file at this path in the destination tree is to get this time.
    Change(String, i128),
    /// The counterpart of this file has the right time already.
    Correct(String),
    /// This file has no counterpart in the destination tree.
    Missing(String),
}

/// What a finding stands for.
pub enum TouchView {
    Change(Seq<char>, int),
    Correct(Seq<char>),
    Missing(Seq<char>),
}

/// A file of a tree: its path below the root of the tree, and its
/// modification time in nanoseconds since the Unix epoch.
pub type Stamp = (String, i128);

/// What a list of files stands for.
pub open spec fn stamps_view(stamps: Seq<Stamp>) -> Seq<(Seq<char>, int)> {
    stamps.map_values(|s: Stamp| (s.0@, s.1 as int))
}

/// What a list of findings stands for.
pub open spec fn touches_view(touches: Seq<Touch>) -> Seq<TouchView> {
    touches.map_values(
        |t: Touch|
            match t {
                Touch::Change(path, time) => TouchView::Change(path@, time as int),
                Touch::Correct(path) => TouchView::Correct(path@),
                Touch::Missing(path) => TouchView::Missing(path@),
            },
    )
}

/// The time of the first file of the tree that has this path.
pub open spec fn time_of(stamps: Seq<(Seq<char>, int)>, path: Seq<char>) -> Option<int>
    decreases stamps.len(),
{
    if stamps.len() == 0 {
        None
    } else if stamps[0].0 == path {
        Some(stamps[0].1)
    } else {
        time_of(stamps.drop_first(), path)
    }
}

/// What is found for one file of the source tree.
pub open spec fn touch_for(
    dest: Seq<char>,
    dest_stamps: Seq<(Seq<char>, int)>,
    file: (Seq<char>, int),
) -> TouchView {
    match time_of(dest_stamps, file.0) {
        Some(time) => if time != file.1 {
            TouchView::Change(path_join(dest, file.0), file.1)
        } else {
            TouchView::Correct(file.0)
        },
        None => TouchView::Missing(file.0),
    }
}

/// What is found for the files of the source tree, in their order.
pub open spec fn touches_for(
    dest: Seq<char>,
    source_stamps: Seq<(Seq<char>, int)>,
    dest_stamps: Seq<(Seq<char>, int)>,
) -> Seq<TouchView> {
    source_stamps.map_values(|file: (Seq<char>, int)| touch_for(dest, dest_stamps, file))
}

/// The time of the file of the tree that has this path.
fn find_time(stamps: &Vec<Stamp>, path: &String) -> (time: Option<i128>)
    ensures
        match time {
            Some(t) => time_of(stamps_view(stamps@), path@) == Some(t as int),
            None => time_of(stamps_view(stamps@), path@) is None,
        },
{
    let ghost all = stamps_view(stamps@);
    let mut i: usize = 0;
    assert(all.skip(0) =~= all);
    while i < stamps.len()
        invariant
            i <= stamps.len(),
            all == stamps_view(stamps@),
            time_of(all, path@) == time_of(all.skip(i as int), path@),
        decreases stamps.len() - i,
    {
        proof {
            let rest = all.skip(i as int);
            assert(rest[0] == all[i as int]);
            assert(rest.drop_first() =~= all.skip(i + 1));
        }
        if stamps[i].0 == *path {
            return Some(stamps[i].1);
        }
        i += 1;
    }
    None
}

/// Whether both trees are there.
pub fn check_directories(source_exists: bool, dest_exists: bool) -> (ok: Result<(), TouchError>)
    ensures
        ok == if !source_exists {
            Err::<(), TouchError>(TouchError::NoSource)
        } else if !dest_exists {
            Err::<(), TouchError>(TouchError::NoDestination)
        } else {
            Ok::<(), TouchError>(())
        },
{
    if !source_exists {
        return Err(TouchError::NoSource);
    }
    if !dest_exists {
        return Err(TouchError::NoDestination);
    }
    Ok(())
}

/// What is to be done for the files of the source tree, in their order: a
/// file of the destination tree gets the time of its counterpart unless it
/// has that time already.
#[verifier::rlimit(40)]
pub fn touch_directory(
    dest: &str,
    source_timestamps: &Vec<Stamp>,
    dest_timestamps: &Vec<Stamp>,
) -> (touches: Vec<Touch>)
    ensures
        touches_view(touches@) == touches_for(
            dest@,
            stamps_view(source_timestamps@),
            stamps_view(dest_timestamps@),
        ),
{
    let ghost wanted = touches_for(
        dest@,
        stamps_view(source_timestamps@),
        stamps_view(dest_timestamps@),
    );
    let mut touches: Vec<Touch> = Vec::new();
    let mut i: usize = 0;
    while i < source_timestamps.len()
        invariant
            i <= source_timestamps.len(),
            wanted == touches_for(
                dest@,
                stamps_view(source_timestamps@),
                stamps_view(dest_timestamps@),
            ),
            touches_view(touches@) == wanted.take(i as int),
        decreases source_timestamps.len() - i,
    {
        let file = &source_timestamps[i].0;
        let ts = source_timestamps[i].1;
        let ghost before = touches_view(touches@);
        assert(stamps_view(source_timestamps@)[i as int] == (file@, ts as int));
        let touch = match find_time(dest_timestamps, file) {
            Some(dest_ts) => {
                if ts != dest_ts {
                    Touch::Change(join(dest, file.as_str()), ts)
                } else {
                    Touch::Correct(file.clone())
                }
            },
            None => Touch::Missing(file.clone()),
        };
        touches.push(touch);
        assert(touches_view(touches@) =~= before.push(wanted[i as int]));
        assert(wanted.take(i + 1) =~= wanted.take(i as int).push(wanted[i as int]));
        i += 1;
    }
    assert(wanted.take(source_timestamps.len() as int) =~= wanted);
    touches
}

/// How the run is judged: it failed if the time of a file could not be
/// set.
pub fn verdict(errs: usize) -> (outcome: Result<(), TouchError>)
    ensures
        outcome == if errs == 0 {
            Ok::<(), TouchError>(())
        } else {
            Err::<(), TouchError>(TouchError::Failed(errs))
        },
{
    if errs == 0 {
        Ok(())
    } else {
        Err(TouchError::Failed(errs))
    }
}

} // verus!
