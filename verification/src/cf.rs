//! Counting the files of a directory.

use vstd::prelude::*;

verus! {

/// An entry of a directory that was read: a regular file; a directory with
/// its own entries, which are missing where it could not be read; or
/// something that is neither.
#[derive(Debug)]
pub enum Node {
    File,
    Dir(Option<Vec<Node>>),
    Other,
}

/// How much one entry counts for when a directory is counted with all that
/// is below it: a directory for one, unless directories are left out, and
/// for everything that is in it; anything else for one.
pub open spec fn node_count(node: Node, nodirs: bool) -> nat
    decreases node,
{
    match node {
        Node::Dir(entries) => {
            let own: nat = if nodirs {
                0
            } else {
                1
            };
            match entries {
                Some(entries) => own + tree_count(entries@, nodirs, entries@.len()),
                None => own,
            }
        },
        _ => 1,
    }
}

/// How much the first `upto` entries count for.
pub open spec fn tree_count(entries: Seq<Node>, nodirs: bool, upto: nat) -> nat
    decreases entries, upto,
{
    if upto == 0 || upto > entries.len() {
        0
    } else {
        tree_count(entries, nodirs, (upto - 1) as nat) + node_count(entries[upto - 1], nodirs)
    }
}

/// How many of the first `upto` entries are regular files.
pub open spec fn file_count(entries: Seq<Node>, upto: nat) -> nat
    decreases upto,
{
    if upto == 0 || upto > entries.len() {
        0
    } else {
        file_count(entries, (upto - 1) as nat) + if entries[upto - 1] is File {
            1nat
        } else {
            0nat
        }
    }
}

/// What a directory counts for. Without recursion it is the number of its
/// entries, or of the regular files among them; with recursion it is what
/// the whole tree counts for. A directory that could not be read has no
/// count.
pub open spec fn count_of(dir: Option<Vec<Node>>, recurse: bool, nodirs: bool) -> Option<nat> {
    match dir {
        None => None,
        Some(entries) => Some(
            if recurse {
                tree_count(entries@, nodirs, entries@.len())
            } else if nodirs {
                file_count(entries@, entries@.len())
            } else {
                entries@.len()
            },
        ),
    }
}

/// The count of a tree grows with the number of entries counted.
pub proof fn lemma_tree_count_grows(entries: Seq<Node>, nodirs: bool, fewer: nat, more: nat)
    requires
        fewer <= more <= entries.len(),
    ensures
        tree_count(entries, nodirs, fewer) <= tree_count(entries, nodirs, more),
    decreases more,
{
    if fewer < more {
        lemma_tree_count_grows(entries, nodirs, fewer, (more - 1) as nat);
    }
}

/// `count` and what the entries and all that is below them count for.
#[verifier::rlimit(40)]
fn count_tree(entries: &Vec<Node>, nodirs: bool, count: usize) -> (total: usize)
    requires
        count + tree_count(entries@, nodirs, entries@.len()) <= usize::MAX,
    ensures
        total == count + tree_count(entries@, nodirs, entries@.len()),
    decreases entries@,
{
    let mut count = count;
    let ghost start = count;
    let mut i: usize = 0;
    while i < entries.len()
        invariant
            i <= entries.len(),
            count == start + tree_count(entries@, nodirs, i as nat),
            start + tree_count(entries@, nodirs, entries@.len()) <= usize::MAX,
        decreases entries.len() - i,
    {
        proof {
            lemma_tree_count_grows(entries@, nodirs, (i + 1) as nat, entries@.len());
            assert(tree_count(entries@, nodirs, (i + 1) as nat) == tree_count(
                entries@,
                nodirs,
                i as nat,
            ) + node_count(entries@[i as int], nodirs));
        }
        match &entries[i] {
            Node::Dir(below) => {
                if !nodirs {
                    count += 1;
                }
                if let Some(below) = below {
                    proof {
                        assert(decreases_to!(entries@ => entries@[i as int]));
                        assert(decreases_to!(entries@[i as int] => below@));
                    }
                    count = count_tree(below, nodirs, count);
                }
            },
            _ => {
                count += 1;
            },
        }
        i += 1;
    }
    count
}

/// `count` and what the entries of the directory and all directories below
/// it count for. A directory that could not be read has no count.
pub fn count_files_recurse(dir: &Option<Vec<Node>>, nodirs: bool, count: usize) -> (total: Option<
    usize,
>)
    requires
        dir matches Some(entries) ==> count + tree_count(entries@, nodirs, entries@.len())
            <= usize::MAX,
    ensures
        match *dir {
            Some(entries) => total == Some(
                (count + tree_count(entries@, nodirs, entries@.len())) as usize,
            ),
            None => total is None,
        },
{
    match dir {
        Some(entries) => Some(count_tree(entries, nodirs, count)),
        None => None,
    }
}

/// How many regular files there are among the entries.
pub fn count_files_only(entries: &Vec<Node>) -> (count: usize)
    ensures
        count == file_count(entries@, entries@.len()),
{
    let mut count: usize = 0;
    let mut i: usize = 0;
    while i < entries.len()
        invariant
            i <= entries.len(),
            count == file_count(entries@, i as nat),
            count <= i,
        decreases entries.len() - i,
    {
        if let Node::File = &entries[i] {
            count += 1;
        }
        i += 1;
    }
    count
}

/// What a directory counts for.
pub fn count_files(dir: &Option<Vec<Node>>, recurse: bool, nodirs: bool) -> (count: Option<usize>)
    requires
        recurse ==> (dir matches Some(entries) ==> tree_count(entries@, nodirs, entries@.len())
            <= usize::MAX),
    ensures
        match count {
            Some(n) => count_of(*dir, recurse, nodirs) == Some(n as nat),
            None => count_of(*dir, recurse, nodirs) is None,
        },
{
    if recurse {
        count_files_recurse(dir, nodirs, 0)
    } else {
        match dir {
            Some(entries) => {
                if nodirs {
                    Some(count_files_only(entries))
                } else {
                    Some(entries.len())
                }
            },
            None => None,
        }
    }
}

} // verus!
