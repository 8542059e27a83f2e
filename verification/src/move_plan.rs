//! What a move plan does to a directory, shown on a model of the file
//! system: a map from each occupied path to the file that lies there.
//!
//! The model has one operation, the rename of one file, and the rename is
//! only allowed onto a vacant path. A plan is good for a request if, on
//! every directory on which the request makes sense, it never asks for
//! anything else and leaves every file where the request wants it.

use crate::types::Move;
use vstd::prelude::*;
use vstd::set_lib::{lemma_int_range, lemma_len_subset, set_int_range};

verus! {

/// The files of a directory: which file lies at which path.
pub type Files = Map<Seq<char>, int>;

/// A rename can be carried out: there is a file at its source, and none at
/// its destination.
pub open spec fn can_rename(files: Files, m: Move) -> bool {
    files.contains_key(m.0) && !files.contains_key(m.1)
}

/// The files after a rename.
pub open spec fn rename(files: Files, m: Move) -> Files {
    files.remove(m.0).insert(m.1, files[m.0])
}

/// Every rename of the plan, at the moment it is carried out, finds its
/// file and a vacant destination.
pub open spec fn never_overwrites(plan: Seq<Move>, files: Files) -> bool
    decreases plan.len(),
{
    plan.len() == 0 || (can_rename(files, plan[0]) && never_overwrites(
        plan.drop_first(),
        rename(files, plan[0]),
    ))
}

/// The files after the whole plan.
pub open spec fn carry_out(plan: Seq<Move>, files: Files) -> Files
    decreases plan.len(),
{
    if plan.len() == 0 {
        files
    } else {
        carry_out(plan.drop_first(), rename(files, plan[0]))
    }
}

/// Some rename starts at `path`.
pub open spec fn has_source(moves: Seq<Move>, path: Seq<char>) -> bool {
    exists|i: int| 0 <= i < moves.len() && #[trigger] moves[i].0 == path
}

/// Some rename ends at `path`.
pub open spec fn has_dest(moves: Seq<Move>, path: Seq<char>) -> bool {
    exists|i: int| 0 <= i < moves.len() && #[trigger] moves[i].1 == path
}

/// The position of a rename that ends at `path`.
pub open spec fn dest_index(moves: Seq<Move>, path: Seq<char>) -> int {
    choose|i: int| 0 <= i < moves.len() && #[trigger] moves[i].1 == path
}

/// What the renames ask for: each file that is to move lies at its
/// destination, and every other file lies where it lay.
pub open spec fn goal(moves: Seq<Move>, files: Files) -> Files {
    Map::new(
        |p: Seq<char>| has_dest(moves, p) || (files.contains_key(p) && !has_source(moves, p)),
        |p: Seq<char>|
            if has_dest(moves, p) {
                files[moves[dest_index(moves, p)].0]
            } else {
                files[p]
            },
    )
}

/// The renames are a sound request on these files: no file is asked to
/// move twice, no two files to the same place, none onto itself; every file
/// that is to move exists; and a destination is vacant or will be vacated
/// by a rename of the request. The order of the renames plays no part.
pub open spec fn sound_request(moves: Seq<Move>, files: Files) -> bool {
    &&& forall|i: int, j: int|
        0 <= i < moves.len() && 0 <= j < moves.len() && i != j ==> #[trigger] moves[i].0
            != #[trigger] moves[j].0
    &&& forall|i: int, j: int|
        0 <= i < moves.len() && 0 <= j < moves.len() && i != j ==> #[trigger] moves[i].1
            != #[trigger] moves[j].1
    &&& forall|i: int| 0 <= i < moves.len() ==> #[trigger] moves[i].0 != moves[i].1
    &&& forall|i: int| 0 <= i < moves.len() ==> files.contains_key(#[trigger] moves[i].0)
    &&& forall|i: int|
        0 <= i < moves.len() && files.contains_key(#[trigger] moves[i].1) ==> has_source(
            moves,
            moves[i].1,
        )
}

/// A chain of renames: each position is one of the list, and each rename
/// ends where the next one starts.
pub open spec fn is_chain(moves: Seq<Move>, chain: Seq<int>) -> bool {
    &&& forall|k: int| 0 <= k < chain.len() ==> 0 <= #[trigger] chain[k] < moves.len()
    &&& forall|k: int|
        0 <= k < chain.len() - 1 ==> moves[#[trigger] chain[k]].1 == moves[chain[k + 1]].0
}

/// A chain that comes back to where it began: its last rename ends where
/// its first one starts.
pub open spec fn is_circle(moves: Seq<Move>, chain: Seq<int>) -> bool {
    &&& chain.len() > 0
    &&& is_chain(moves, chain)
    &&& moves[chain.last()].1 == moves[chain[0]].0
}

/// Some of the renames wait for one another in a circle: a swap, a
/// rotation, or a rename of a file onto itself.
pub open spec fn has_cycle(moves: Seq<Move>) -> bool {
    exists|chain: Seq<int>| is_circle(moves, chain)
}

/// The temporary paths of a plan for a request, in the order of their
/// use: the paths that the plan renames onto and at which no rename of the
/// request ends.
pub open spec fn written_temps(plan: Seq<Move>, raw: Seq<Move>) -> Seq<Seq<char>>
    decreases plan.len(),
{
    if plan.len() == 0 {
        Seq::<Seq<char>>::empty()
    } else if has_dest(raw, plan.last().1) {
        written_temps(plan.drop_last(), raw)
    } else {
        written_temps(plan.drop_last(), raw).push(plan.last().1)
    }
}

/// No file lies at any of the paths.
pub open spec fn all_vacant(paths: Seq<Seq<char>>, files: Files) -> bool {
    forall|k: int| 0 <= k < paths.len() ==> !files.contains_key(#[trigger] paths[k])
}

/// The paths are new to the request: none of them is a source or a
/// destination of it, and none comes twice.
pub open spec fn all_fresh(paths: Seq<Seq<char>>, raw: Seq<Move>) -> bool {
    &&& forall|k: int| 0 <= k < paths.len() ==> !has_source(raw, #[trigger] paths[k])
    &&& forall|k: int| 0 <= k < paths.len() ==> !has_dest(raw, #[trigger] paths[k])
    &&& forall|i: int, j: int|
        0 <= i < j < paths.len() ==> #[trigger] paths[i] != #[trigger] paths[j]
}

/// The plan carries out the request on these files: it never renames onto
/// an occupied path, and when it is done every file lies where the request
/// wants it. Nothing was dropped, and nothing is left under a temporary
/// path.
pub open spec fn achieves(plan: Seq<Move>, raw: Seq<Move>, files: Files) -> bool {
    never_overwrites(plan, files) && carry_out(plan, files) == goal(raw, files)
}

/// The plan is good for the request.
///
/// On every directory on which the request is sound, and in which nothing
/// lies at a temporary path of the plan, the plan carries out the request.
/// The temporary paths are new to the request and all different. And a
/// request without a cycle is planned without a temporary, in exactly as
/// many renames as it has.
pub open spec fn is_move_plan(plan: Seq<Move>, raw: Seq<Move>) -> bool {
    &&& forall|files: Files|
        sound_request(raw, files) && all_vacant(written_temps(plan, raw), files)
            ==> #[trigger] achieves(plan, raw, files)
    &&& all_fresh(written_temps(plan, raw), raw)
    &&& !has_cycle(raw) ==> plan.len() == raw.len() && written_temps(plan, raw).len() == 0
}

/// The position in a list of what stands at `k` once the item at `i` has
/// been taken out.
pub open spec fn skip_at(i: int, k: int) -> int {
    if k < i {
        k
    } else {
        k + 1
    }
}

/// A rename of the list starts at `p` exactly if the one at `i` does or
/// one of the others.
pub proof fn lemma_source_without(moves: Seq<Move>, i: int, p: Seq<char>)
    requires
        0 <= i < moves.len(),
    ensures
        has_source(moves, p) <==> (moves[i].0 == p || has_source(moves.remove(i), p)),
{
    let rest = moves.remove(i);
    assert(forall|k: int| 0 <= k < rest.len() ==> rest[k] == moves[skip_at(i, k)]);
    if has_source(moves, p) {
        let j = choose|j: int| 0 <= j < moves.len() && #[trigger] moves[j].0 == p;
        if j < i {
            assert(rest[j].0 == p);
        } else if j > i {
            assert(rest[j - 1].0 == p);
        }
    }
    if has_source(rest, p) {
        let k = choose|k: int| 0 <= k < rest.len() && #[trigger] rest[k].0 == p;
        assert(moves[skip_at(i, k)].0 == p);
    }
}

/// A rename of the list ends at `p` exactly if the one at `i` does or one
/// of the others.
pub proof fn lemma_dest_without(moves: Seq<Move>, i: int, p: Seq<char>)
    requires
        0 <= i < moves.len(),
    ensures
        has_dest(moves, p) <==> (moves[i].1 == p || has_dest(moves.remove(i), p)),
{
    let rest = moves.remove(i);
    assert(forall|k: int| 0 <= k < rest.len() ==> rest[k] == moves[skip_at(i, k)]);
    if has_dest(moves, p) {
        let j = choose|j: int| 0 <= j < moves.len() && #[trigger] moves[j].1 == p;
        if j < i {
            assert(rest[j].1 == p);
        } else if j > i {
            assert(rest[j - 1].1 == p);
        }
    }
    if has_dest(rest, p) {
        let k = choose|k: int| 0 <= k < rest.len() && #[trigger] rest[k].1 == p;
        assert(moves[skip_at(i, k)].1 == p);
    }
}

/// A rename of the grown list starts at `p` exactly if one of the list
/// does or the added one.
pub proof fn lemma_source_push(moves: Seq<Move>, m: Move, p: Seq<char>)
    ensures
        has_source(moves.push(m), p) <==> (m.0 == p || has_source(moves, p)),
{
    let grown = moves.push(m);
    if has_source(grown, p) {
        let i = choose|i: int| 0 <= i < grown.len() && #[trigger] grown[i].0 == p;
        if i < moves.len() {
            assert(moves[i].0 == p);
        }
    }
    if has_source(moves, p) {
        let k = choose|k: int| 0 <= k < moves.len() && #[trigger] moves[k].0 == p;
        assert(grown[k].0 == p);
    }
    if m.0 == p {
        assert(grown[moves.len() as int].0 == p);
    }
}

/// A rename of the grown list ends at `p` exactly if one of the list does
/// or the added one.
pub proof fn lemma_dest_push(moves: Seq<Move>, m: Move, p: Seq<char>)
    ensures
        has_dest(moves.push(m), p) <==> (m.1 == p || has_dest(moves, p)),
{
    let grown = moves.push(m);
    if has_dest(grown, p) {
        let i = choose|i: int| 0 <= i < grown.len() && #[trigger] grown[i].1 == p;
        if i < moves.len() {
            assert(moves[i].1 == p);
        }
    }
    if has_dest(moves, p) {
        let k = choose|k: int| 0 <= k < moves.len() && #[trigger] moves[k].1 == p;
        assert(grown[k].1 == p);
    }
    if m.1 == p {
        assert(grown[moves.len() as int].1 == p);
    }
}

/// Where no two renames end at the same path, the goal has at the
/// destination of each rename the file from its source.
pub proof fn lemma_goal_at(moves: Seq<Move>, files: Files, i: int)
    requires
        0 <= i < moves.len(),
        forall|a: int, b: int|
            0 <= a < moves.len() && 0 <= b < moves.len() && a != b ==> #[trigger] moves[a].1
                != #[trigger] moves[b].1,
    ensures
        has_dest(moves, moves[i].1),
        goal(moves, files).dom().contains(moves[i].1),
        goal(moves, files)[moves[i].1] == files[moves[i].0],
{
    let p = moves[i].1;
    assert(has_dest(moves, p));
    let k = dest_index(moves, p);
    if k != i {
        assert(moves[k].1 != moves[i].1);
    }
}

/// The goal of no renames is the files as they are.
pub proof fn lemma_goal_of_nothing(files: Files)
    ensures
        goal(Seq::<Move>::empty(), files) == files,
{
    let moves = Seq::<Move>::empty();
    assert(goal(moves, files) =~= files);
}

/// A rename whose destination no rename of a sound request starts at can
/// be carried out at once, and what is left is a sound request.
#[verifier::rlimit(40)]
pub proof fn lemma_direct_sound(moves: Seq<Move>, i: int, files: Files)
    requires
        0 <= i < moves.len(),
        sound_request(moves, files),
        !has_source(moves, moves[i].1),
    ensures
        can_rename(files, moves[i]),
        sound_request(moves.remove(i), rename(files, moves[i])),
{
    let m = moves[i];
    let rest = moves.remove(i);
    let after = rename(files, m);
    assert(forall|k: int| 0 <= k < rest.len() ==> rest[k] == moves[skip_at(i, k)]);
    assert(!files.contains_key(m.1));
    assert forall|a: int, b: int|
        0 <= a < rest.len() && 0 <= b < rest.len() && a != b implies #[trigger] rest[a].0
        != #[trigger] rest[b].0 by {
        assert(moves[skip_at(i, a)].0 != moves[skip_at(i, b)].0);
    }
    assert forall|a: int, b: int|
        0 <= a < rest.len() && 0 <= b < rest.len() && a != b implies #[trigger] rest[a].1
        != #[trigger] rest[b].1 by {
        assert(moves[skip_at(i, a)].1 != moves[skip_at(i, b)].1);
    }
    assert forall|a: int| 0 <= a < rest.len() implies #[trigger] rest[a].0 != rest[a].1 by {
        assert(moves[skip_at(i, a)].0 != moves[skip_at(i, a)].1);
    }
    assert forall|a: int| 0 <= a < rest.len() implies after.contains_key(
        #[trigger] rest[a].0,
    ) by {
        assert(moves[skip_at(i, a)].0 != moves[i].0);
        assert(files.contains_key(moves[skip_at(i, a)].0));
    }
    assert forall|a: int|
        0 <= a < rest.len() && after.contains_key(#[trigger] rest[a].1) implies has_source(
        rest,
        rest[a].1,
    ) by {
        let p = rest[a].1;
        assert(moves[skip_at(i, a)].1 != moves[i].1);
        assert(files.contains_key(moves[skip_at(i, a)].1));
        assert(has_source(moves, p));
        lemma_source_without(moves, i, p);
    }
}

/// After such a rename the goal is what it was.
#[verifier::rlimit(40)]
pub proof fn lemma_direct_goal(moves: Seq<Move>, i: int, files: Files)
    requires
        0 <= i < moves.len(),
        sound_request(moves, files),
        !has_source(moves, moves[i].1),
    ensures
        goal(moves.remove(i), rename(files, moves[i])) == goal(moves, files),
{
    let m = moves[i];
    let rest = moves.remove(i);
    let after = rename(files, m);
    lemma_direct_sound(moves, i, files);
    assert(forall|k: int| 0 <= k < rest.len() ==> rest[k] == moves[skip_at(i, k)]);
    let old_goal = goal(moves, files);
    let new_goal = goal(rest, after);
    assert forall|p: Seq<char>|
        #![trigger old_goal.dom().contains(p)]
        #![trigger new_goal.dom().contains(p)]
        #![trigger old_goal[p]]
        #![trigger new_goal[p]]
        old_goal.dom().contains(p) == new_goal.dom().contains(p) && (old_goal.dom().contains(p)
            ==> old_goal[p] == new_goal[p]) by {
        lemma_dest_without(moves, i, p);
        lemma_source_without(moves, i, p);
        if has_dest(rest, p) {
            let k = choose|k: int| 0 <= k < rest.len() && #[trigger] rest[k].1 == p;
            let j = skip_at(i, k);
            lemma_goal_at(rest, after, k);
            lemma_goal_at(moves, files, j);
            assert(moves[j].0 != moves[i].0);
            assert(moves[j].0 != m.1);
            assert(files.contains_key(moves[j].0));
        } else if p == m.1 {
            lemma_goal_at(moves, files, i);
        } else {
            if p == m.0 {
                assert(has_source(moves, p));
            }
        }
    }
    assert(old_goal =~= new_goal);
}

/// The first rename of a sound request can go to a path that is vacant and
/// at which no rename ends; with the rename from there to its destination
/// in its place, at the back, the request is sound.
#[verifier::rlimit(40)]
pub proof fn lemma_detour_sound(moves: Seq<Move>, temp: Seq<char>, files: Files)
    requires
        moves.len() > 0,
        sound_request(moves, files),
        !files.contains_key(temp),
        !has_dest(moves, temp),
    ensures
        can_rename(files, (moves[0].0, temp)),
        sound_request(
            moves.remove(0).push((temp, moves[0].1)),
            rename(files, (moves[0].0, temp)),
        ),
{
    let src = moves[0].0;
    let dest = moves[0].1;
    let rest = moves.remove(0);
    let queue = rest.push((temp, dest));
    let after = rename(files, (src, temp));
    let last = queue.len() - 1;
    assert(forall|k: int| 0 <= k < rest.len() ==> queue[k] == moves[k + 1]);
    assert(queue[last] == (temp, dest));
    assert(temp != dest) by {
        if temp == dest {
            assert(moves[0].1 == temp);
        }
    }
    assert forall|a: int, b: int|
        0 <= a < queue.len() && 0 <= b < queue.len() && a != b implies #[trigger] queue[a].0
        != #[trigger] queue[b].0 by {
        if a < last && b < last {
            assert(moves[a + 1].0 != moves[b + 1].0);
        } else if a < last {
            assert(files.contains_key(moves[a + 1].0));
        } else {
            assert(files.contains_key(moves[b + 1].0));
        }
    }
    assert forall|a: int, b: int|
        0 <= a < queue.len() && 0 <= b < queue.len() && a != b implies #[trigger] queue[a].1
        != #[trigger] queue[b].1 by {
        if a < last && b < last {
            assert(moves[a + 1].1 != moves[b + 1].1);
        } else if a < last {
            assert(moves[a + 1].1 != moves[0].1);
        } else {
            assert(moves[b + 1].1 != moves[0].1);
        }
    }
    assert forall|a: int| 0 <= a < queue.len() implies #[trigger] queue[a].0 != queue[a].1 by {
        if a < last {
            assert(moves[a + 1].0 != moves[a + 1].1);
        }
    }
    assert forall|a: int| 0 <= a < queue.len() implies after.contains_key(
        #[trigger] queue[a].0,
    ) by {
        if a < last {
            assert(moves[a + 1].0 != moves[0].0);
            assert(files.contains_key(moves[a + 1].0));
        }
    }
    assert forall|a: int|
        0 <= a < queue.len() && after.contains_key(#[trigger] queue[a].1) implies has_source(
        queue,
        queue[a].1,
    ) by {
        let p = queue[a].1;
        if a < last {
            assert(moves[a + 1].1 == p);
        } else {
            assert(moves[0].1 == p);
        }
        assert(has_dest(moves, p));
        assert(p != temp);
        assert(files.contains_key(p));
        assert(has_source(moves, p));
        assert(p != src);
        lemma_source_without(moves, 0, p);
        lemma_source_push(rest, (temp, dest), p);
    }
}

/// After such a detour the goal is what it was.
#[verifier::rlimit(40)]
pub proof fn lemma_detour_goal(moves: Seq<Move>, temp: Seq<char>, files: Files)
    requires
        moves.len() > 0,
        sound_request(moves, files),
        !files.contains_key(temp),
        !has_dest(moves, temp),
    ensures
        goal(moves.remove(0).push((temp, moves[0].1)), rename(files, (moves[0].0, temp))) == goal(
            moves,
            files,
        ),
{
    let src = moves[0].0;
    let dest = moves[0].1;
    let rest = moves.remove(0);
    let queue = rest.push((temp, dest));
    let after = rename(files, (src, temp));
    let last = queue.len() - 1;
    lemma_detour_sound(moves, temp, files);
    assert(forall|k: int| 0 <= k < rest.len() ==> queue[k] == moves[k + 1]);
    assert(queue[last] == (temp, dest));
    let old_goal = goal(moves, files);
    let new_goal = goal(queue, after);
    assert forall|p: Seq<char>|
        #![trigger old_goal.dom().contains(p)]
        #![trigger new_goal.dom().contains(p)]
        #![trigger old_goal[p]]
        #![trigger new_goal[p]]
        old_goal.dom().contains(p) == new_goal.dom().contains(p) && (old_goal.dom().contains(p)
            ==> old_goal[p] == new_goal[p]) by {
        lemma_dest_without(moves, 0, p);
        lemma_source_without(moves, 0, p);
        lemma_dest_push(rest, (temp, dest), p);
        lemma_source_push(rest, (temp, dest), p);
        assert(has_dest(queue, p) == has_dest(moves, p));
        if has_dest(queue, p) {
            let k = choose|k: int| 0 <= k < queue.len() && #[trigger] queue[k].1 == p;
            lemma_goal_at(queue, after, k);
            if k == last {
                lemma_goal_at(moves, files, 0);
                assert(after[temp] == files[src]);
            } else {
                lemma_goal_at(moves, files, k + 1);
                assert(moves[k + 1].0 != moves[0].0);
                assert(files.contains_key(moves[k + 1].0));
            }
        } else {
            if p == src {
                assert(moves[0].0 == p);
            }
            if has_source(rest, p) {
                let k = choose|k: int| 0 <= k < rest.len() && #[trigger] rest[k].0 == p;
                assert(files.contains_key(moves[k + 1].0));
            }
        }
    }
    assert(old_goal =~= new_goal);
}

/// A plan with one more rename at its end: it is safe if the plan was and
/// the rename can be carried out on what the plan leaves.
pub proof fn lemma_one_more(plan: Seq<Move>, m: Move, files: Files)
    requires
        never_overwrites(plan, files),
        can_rename(carry_out(plan, files), m),
    ensures
        never_overwrites(plan.push(m), files),
        carry_out(plan.push(m), files) == rename(carry_out(plan, files), m),
    decreases plan.len(),
{
    let grown = plan.push(m);
    if plan.len() == 0 {
        assert(grown[0] == m);
        assert(grown.drop_first() =~= Seq::<Move>::empty());
        assert(never_overwrites(grown.drop_first(), rename(files, m)));
        assert(carry_out(grown.drop_first(), rename(files, m)) == rename(files, m));
    } else {
        assert(grown[0] == plan[0]);
        assert(grown.drop_first() =~= plan.drop_first().push(m));
        lemma_one_more(plan.drop_first(), m, rename(files, plan[0]));
    }
}

/// A chain that is longer than the list passes some rename twice.
pub proof fn lemma_chain_repeats(moves: Seq<Move>, chain: Seq<int>) -> (at: (int, int))
    requires
        is_chain(moves, chain),
        chain.len() > moves.len(),
    ensures
        0 <= at.0 < at.1 < chain.len(),
        chain[at.0] == chain[at.1],
{
    if chain.no_duplicates() {
        chain.unique_seq_to_set();
        lemma_int_range(0, moves.len() as int);
        assert(chain.to_set().subset_of(set_int_range(0, moves.len() as int))) by {
            assert forall|x: int| chain.to_set().contains(x) implies set_int_range(
                0,
                moves.len() as int,
            ).contains(x) by {
                let k = choose|k: int| 0 <= k < chain.len() && chain[k] == x;
                assert(0 <= chain[k] < moves.len());
            }
        }
        lemma_len_subset(chain.to_set(), set_int_range(0, moves.len() as int));
        assert(false);
    }
    let (a, b) = choose|a: int, b: int|
        0 <= a < chain.len() && 0 <= b < chain.len() && a != b && chain[a] == chain[b];
    if a < b {
        (a, b)
    } else {
        (b, a)
    }
}

/// A chain that is longer than the list holds a circle.
pub proof fn lemma_long_chain(moves: Seq<Move>, chain: Seq<int>)
    requires
        is_chain(moves, chain),
        chain.len() > moves.len(),
    ensures
        has_cycle(moves),
{
    let (lo, hi) = lemma_chain_repeats(moves, chain);
    let circle = chain.subrange(lo, hi);
    assert forall|k: int| 0 <= k < circle.len() implies 0 <= #[trigger] circle[k]
        < moves.len() by {
        assert(circle[k] == chain[lo + k]);
    }
    assert forall|k: int| 0 <= k < circle.len() - 1 implies moves[#[trigger] circle[k]].1
        == moves[circle[k + 1]].0 by {
        assert(circle[k] == chain[lo + k]);
        assert(circle[k + 1] == chain[lo + k + 1]);
    }
    assert(circle.last() == chain[hi - 1]);
    assert(circle[0] == chain[lo]);
    assert(moves[chain[hi - 1]].1 == moves[chain[hi - 1 + 1]].0);
    assert(is_circle(moves, circle));
}

/// No two renames end at the same path.
pub open spec fn ends_apart(moves: Seq<Move>) -> bool {
    forall|i: int, j: int|
        0 <= i < moves.len() && 0 <= j < moves.len() && i != j ==> #[trigger] moves[i].1
            != #[trigger] moves[j].1
}

/// Where no two renames end at the same path, a chain that passes a rename
/// twice has passed its first rename twice.
pub proof fn lemma_chain_returns(moves: Seq<Move>, chain: Seq<int>, a: int, b: int)
    requires
        is_chain(moves, chain),
        ends_apart(moves),
        0 <= a < b < chain.len(),
        chain[a] == chain[b],
    ensures
        chain[0] == chain[b - a],
    decreases a,
{
    if a > 0 {
        assert(moves[chain[a - 1]].1 == moves[chain[a - 1 + 1]].0);
        assert(moves[chain[b - 1]].1 == moves[chain[b - 1 + 1]].0);
        if chain[a - 1] != chain[b - 1] {
            assert(moves[chain[a - 1]].1 != moves[chain[b - 1]].1);
        }
        lemma_chain_returns(moves, chain, a - 1, b - 1);
    }
}

/// The request is one of separate renames: no two of them start at the
/// same path, no two end at the same path, and none renames a file onto
/// itself. These are the requests that are sound on some files.
pub open spec fn is_separate(moves: Seq<Move>) -> bool {
    &&& forall|i: int, j: int|
        0 <= i < moves.len() && 0 <= j < moves.len() && i != j ==> #[trigger] moves[i].0
            != #[trigger] moves[j].0
    &&& ends_apart(moves)
    &&& forall|i: int| 0 <= i < moves.len() ==> #[trigger] moves[i].0 != moves[i].1
}

/// The files that a request speaks of: one at each path at which a rename
/// starts, and no other.
pub open spec fn files_to_move(moves: Seq<Move>) -> Files {
    Map::new(|p: Seq<char>| has_source(moves, p), |p: Seq<char>| 0int)
}

/// A request of separate renames is sound on the files that it speaks of.
pub proof fn lemma_separate_is_sound(moves: Seq<Move>)
    requires
        is_separate(moves),
    ensures
        sound_request(moves, files_to_move(moves)),
{
    let files = files_to_move(moves);
    assert forall|i: int| 0 <= i < moves.len() implies files.contains_key(
        #[trigger] moves[i].0,
    ) by {
        assert(has_source(moves, moves[i].0));
    }
}

/// The rename is one of the list.
pub open spec fn has_move(moves: Seq<Move>, m: Move) -> bool {
    exists|r: int| 0 <= r < moves.len() && #[trigger] moves[r] == m
}

/// Every rename of `part` is one of `whole`.
pub open spec fn is_part_of(part: Seq<Move>, whole: Seq<Move>) -> bool {
    forall|k: int| 0 <= k < part.len() ==> has_move(whole, #[trigger] part[k])
}

/// A circle among some of the renames of a list is a circle of the list.
pub proof fn lemma_cycle_of_part(part: Seq<Move>, whole: Seq<Move>)
    requires
        is_part_of(part, whole),
        has_cycle(part),
    ensures
        has_cycle(whole),
{
    let chain = choose|chain: Seq<int>| is_circle(part, chain);
    let there = Seq::new(
        chain.len(),
        |k: int| choose|r: int| 0 <= r < whole.len() && #[trigger] whole[r] == part[chain[k]],
    );
    assert forall|k: int| 0 <= k < there.len() implies 0 <= #[trigger] there[k] < whole.len()
        && whole[there[k]] == part[chain[k]] by {
        assert(has_move(whole, part[chain[k]]));
    }
    assert forall|k: int| 0 <= k < there.len() - 1 implies whole[#[trigger] there[k]].1
        == whole[there[k + 1]].0 by {
        assert(whole[there[k]] == part[chain[k]]);
        assert(whole[there[k + 1]] == part[chain[k + 1]]);
        assert(part[chain[k]].1 == part[chain[k + 1]].0);
    }
    assert(whole[there[0]] == part[chain[0]]);
    assert(whole[there[there.len() - 1]] == part[chain[chain.len() - 1]]);
    assert(is_circle(whole, there));
}

/// How far the scheduler has come on a directory: what it has planned is
/// safe, what is pending is a sound request on the files as the plan
/// leaves them, with the goal of the whole request, and no file lies
/// anywhere but where one lay at first, at a destination of the request or
/// at a temporary path.
pub open spec fn on_course(
    raw: Seq<Move>,
    temps: Seq<Seq<char>>,
    plan: Seq<Move>,
    pending: Seq<Move>,
    files: Files,
) -> bool {
    &&& never_overwrites(plan, files)
    &&& sound_request(pending, carry_out(plan, files))
    &&& goal(pending, carry_out(plan, files)) == goal(raw, files)
    &&& forall|p: Seq<char>| #[trigger]
        carry_out(plan, files).contains_key(p) ==> files.contains_key(p) || has_dest(raw, p)
            || temps.contains(p)
}

/// The scheduler is on course on every directory on which the request is
/// sound and the temporary paths used so far are vacant.
pub open spec fn stays_on_course(
    raw: Seq<Move>,
    temps: Seq<Seq<char>>,
    plan: Seq<Move>,
    pending: Seq<Move>,
    files: Files,
) -> bool {
    sound_request(raw, files) && all_vacant(temps, files) ==> on_course(
        raw,
        temps,
        plan,
        pending,
        files,
    )
}

/// Before the first step the scheduler is on course.
pub proof fn lemma_course_begins(raw: Seq<Move>, files: Files)
    ensures
        stays_on_course(raw, Seq::<Seq<char>>::empty(), Seq::<Move>::empty(), raw, files),
{
}

/// A pending rename whose destination no pending rename starts at is
/// planned next: the scheduler stays on course.
pub proof fn lemma_course_direct(
    raw: Seq<Move>,
    temps: Seq<Seq<char>>,
    plan: Seq<Move>,
    pending: Seq<Move>,
    i: int,
    files: Files,
)
    requires
        stays_on_course(raw, temps, plan, pending, files),
        0 <= i < pending.len(),
        !has_source(pending, pending[i].1),
        has_dest(raw, pending[i].1),
    ensures
        stays_on_course(raw, temps, plan.push(pending[i]), pending.remove(i), files),
{
    if sound_request(raw, files) && all_vacant(temps, files) {
        let now = carry_out(plan, files);
        lemma_direct_sound(pending, i, now);
        lemma_direct_goal(pending, i, now);
        lemma_one_more(plan, pending[i], files);
    }
}

/// The first pending rename is sent over a temporary path that is new: the
/// scheduler stays on course.
pub proof fn lemma_course_detour(
    raw: Seq<Move>,
    temps: Seq<Seq<char>>,
    plan: Seq<Move>,
    pending: Seq<Move>,
    temp: Seq<char>,
    files: Files,
)
    requires
        stays_on_course(raw, temps, plan, pending, files),
        pending.len() > 0,
        forall|k: int| 0 <= k < pending.len() ==> has_dest(raw, #[trigger] pending[k].1),
        !has_dest(raw, temp),
        !temps.contains(temp),
    ensures
        stays_on_course(
            raw,
            temps.push(temp),
            plan.push((pending[0].0, temp)),
            pending.remove(0).push((temp, pending[0].1)),
            files,
        ),
{
    let more = temps.push(temp);
    if sound_request(raw, files) && all_vacant(more, files) {
        assert forall|k: int| 0 <= k < temps.len() implies !files.contains_key(
            #[trigger] temps[k],
        ) by {
            assert(more[k] == temps[k]);
        }
        assert(more[temps.len() as int] == temp);
        assert(!files.contains_key(temp));
        let now = carry_out(plan, files);
        assert(!now.contains_key(temp));
        if has_dest(pending, temp) {
            let k = choose|k: int| 0 <= k < pending.len() && #[trigger] pending[k].1 == temp;
            assert(has_dest(raw, pending[k].1));
        }
        lemma_detour_sound(pending, temp, now);
        lemma_detour_goal(pending, temp, now);
        lemma_one_more(plan, (pending[0].0, temp), files);
        let then = carry_out(plan.push((pending[0].0, temp)), files);
        assert forall|p: Seq<char>| #[trigger] then.contains_key(p) implies files.contains_key(p)
            || has_dest(raw, p) || more.contains(p) by {
            if p != temp {
                assert(now.contains_key(p));
                if temps.contains(p) {
                    let k = choose|k: int| 0 <= k < temps.len() && temps[k] == p;
                    assert(more[k] == p);
                }
            }
        }
    }
}

/// When nothing is pending the plan has carried out the request.
pub proof fn lemma_course_ends(
    raw: Seq<Move>,
    temps: Seq<Seq<char>>,
    plan: Seq<Move>,
    files: Files,
)
    requires
        stays_on_course(raw, temps, plan, Seq::<Move>::empty(), files),
        sound_request(raw, files),
        all_vacant(temps, files),
    ensures
        achieves(plan, raw, files),
{
    lemma_goal_of_nothing(carry_out(plan, files));
}

/// A plan with one more rename at its end has one more temporary path if
/// that rename ends where no rename of the request does, and else the same.
pub proof fn lemma_temps_push(plan: Seq<Move>, m: Move, raw: Seq<Move>)
    ensures
        written_temps(plan.push(m), raw) == if has_dest(raw, m.1) {
            written_temps(plan, raw)
        } else {
            written_temps(plan, raw).push(m.1)
        },
{
    assert(plan.push(m).drop_last() =~= plan);
}

} // verus!
