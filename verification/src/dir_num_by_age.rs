//! Renumbering by age, and the scheduler that turns any set of renames
//! into a sequence that can be carried out one rename at a time.
//!
//! A rename must never land on a file that is still waiting to be moved.
//! The scheduler looks at the first pending rename and follows the chain
//! of renames that wait for one another from its destination. Where the
//! chain ends at a path that nothing is to leave, its last rename is
//! planned. Where it comes back, the first file is parked under a temporary
//! name, and the rename from there to its destination goes to the back of
//! the queue. What a plan has to be is said in [`crate::move_plan`].

use crate::file_tokens::{render, tag_if, FileTokens, TokensView};
use crate::move_plan::{
    all_fresh, ends_apart, files_to_move, has_cycle, has_dest, has_move, has_source, is_chain,
    is_circle, is_move_plan, is_part_of, is_separate, lemma_chain_repeats, lemma_chain_returns,
    lemma_course_begins, lemma_course_detour, lemma_course_direct, lemma_course_ends,
    lemma_cycle_of_part, lemma_long_chain, lemma_separate_is_sound, lemma_temps_push, skip_at,
    stays_on_course, written_temps, Files,
};
use crate::order::{by_key, is_stable_order, key_ints, order_by_key, reorder, stable_order_of};
use crate::paths::{file_name, join, parent, path_file_name, path_join, path_parent};
use crate::text::{append_chars, chars_of, string_of, views};
use crate::types::{moves_view, Move, RenameAction, RenameActions};
use vstd::prelude::*;

verus! {

/// Why a file cannot be parked on the way to its destination.
#[derive(Debug, Clone, Copy, PartialEq, Eq, Structural)]
pub enum TmpNameError {
    /// The destination has no parent directory to put the temporary in.
    NoParent,
    /// The destination has no final component to derive the temporary from.
    NoFileName,
    /// The temporary path is a path of the request or has been used, or the
    /// file that would have to be parked is parked already.
    TemporaryTaken,
}

/// The name of the temporary for a file name: the name with an underscore
/// in front.
pub open spec fn temp_name(name: Seq<char>) -> Seq<char> {
    seq!['_'] + name
}

/// The temporary path for `path`: in the same directory, under the
/// temporary name of its file name.
pub open spec fn temp_path(path: Seq<char>) -> Result<Seq<char>, TmpNameError> {
    match path_parent(path) {
        None => Err(TmpNameError::NoParent),
        Some(dir) => match path_file_name(path) {
            None => Err(TmpNameError::NoFileName),
            Some(name) => Ok(path_join(dir, temp_name(name))),
        },
    }
}

/// What a fallible temporary path stands for.
pub open spec fn temp_view(temp: Result<String, TmpNameError>) -> Result<Seq<char>, TmpNameError> {
    match temp {
        Ok(temp) => Ok(temp@),
        Err(e) => Err(e),
    }
}

/// A rename that waits to be carried out: its source, its destination, and
/// the temporary path at which its file may be parked on the way, or the
/// reason why there is none.
pub type Pending = (String, String, Result<String, TmpNameError>);

/// A temporary path, or the reason why there is none.
pub type Parking = Result<Seq<char>, TmpNameError>;

/// The renames of a queue.
pub open spec fn moves_of(queue: Seq<Pending>) -> Seq<Move> {
    queue.map_values(|q: Pending| (q.0@, q.1@))
}

/// The temporary paths of a queue, one for each rename.
pub open spec fn parkings_of(queue: Seq<Pending>) -> Seq<Parking> {
    queue.map_values(|q: Pending| temp_view(q.2))
}

/// What a list of temporary paths stands for.
pub open spec fn parkings_view(list: Seq<Result<String, TmpNameError>>) -> Seq<Parking> {
    list.map_values(|t: Result<String, TmpNameError>| temp_view(t))
}

/// The temporary paths for the destinations of a request.
pub open spec fn parkings_for(raw: Seq<Move>) -> Seq<Parking> {
    raw.map_values(|m: Move| temp_path(m.1))
}

/// The plan, or the error, that a fallible list of renames stands for.
pub open spec fn plan_view(plan: Result<RenameActions, TmpNameError>) -> Result<
    Seq<Move>,
    TmpNameError,
> {
    match plan {
        Ok(plan) => Ok(moves_view(plan@)),
        Err(e) => Err(e),
    }
}

/// The request cannot be planned for this reason: files of it wait for one
/// another in a circle, so that one of them must be parked; and where the
/// reason is that there is no temporary path, that is the reason why one of
/// the renames has none.
pub open spec fn is_refusal(e: TmpNameError, raw: Seq<Move>, parking: Seq<Parking>) -> bool {
    &&& has_cycle(raw)
    &&& e != TmpNameError::TemporaryTaken ==> parking.contains(Err::<Seq<char>, TmpNameError>(e))
}

/// Every rename has a temporary path that can be used: it is no path of
/// the request, and no other rename has the same.
pub open spec fn can_park(raw: Seq<Move>, parking: Seq<Parking>) -> bool {
    &&& parking.len() == raw.len()
    &&& forall|i: int|
        0 <= i < parking.len() ==> (#[trigger] parking[i]) is Ok && !has_source(
            raw,
            parking[i]->Ok_0,
        ) && !has_dest(raw, parking[i]->Ok_0)
    &&& forall|i: int, j: int|
        0 <= i < parking.len() && 0 <= j < parking.len() && i != j ==> #[trigger] parking[i]
            != #[trigger] parking[j]
}

/// What the scheduler owes for a request: a plan that is good for it, or a
/// refusal with its reason. A request without a cycle is never refused, and
/// neither is a request of separate renames whose temporary paths can be
/// used.
pub open spec fn is_schedule(
    plan: Result<Seq<Move>, TmpNameError>,
    raw: Seq<Move>,
    parking: Seq<Parking>,
) -> bool {
    &&& match plan {
        Ok(plan) => is_move_plan(plan, raw),
        Err(e) => is_refusal(e, raw, parking),
    }
    &&& is_separate(raw) && can_park(raw, parking) ==> plan is Ok
}

/// The plan is what is owed for a request whose files may be parked at the
/// temporary paths for their destinations: it is the plan of the scheduler,
/// and that is a plan that is good for the request, or a refusal with its
/// reason.
pub open spec fn is_plan_of(plan: Result<Seq<Move>, TmpNameError>, raw: Seq<Move>) -> bool {
    plan == schedule(raw) && is_schedule(plan, raw, parkings_for(raw))
}

/// The temporary path for `path`: its file name with an underscore in
/// front, in the same directory.
pub fn tmp_name(path: &str) -> (temp: Result<String, TmpNameError>)
    ensures
        temp_view(temp) == temp_path(path@),
{
    let dir = match parent(path) {
        Some(dir) => dir,
        None => {
            return Err(TmpNameError::NoParent);
        },
    };
    let basename = match file_name(path) {
        Some(name) => name,
        None => {
            return Err(TmpNameError::NoFileName);
        },
    };
    let temp = temp_file_name(basename.as_str());
    Ok(join(dir.as_str(), temp.as_str()))
}

/// The temporary name for a file name: the name with an underscore in
/// front.
pub fn temp_file_name(name: &str) -> (temp: String)
    ensures
        temp@ == temp_name(name@),
{
    let mut chars: Vec<char> = Vec::new();
    chars.push('_');
    let name_chars = chars_of(name);
    append_chars(&mut chars, &name_chars);
    string_of(&chars)
}

/// `index` is the first position of the list at which a rename starts at
/// `path`.
pub open spec fn is_first_source(moves: Seq<Move>, path: Seq<char>, index: int) -> bool {
    &&& 0 <= index < moves.len()
    &&& moves[index].0 == path
    &&& forall|j: int| 0 <= j < index ==> (#[trigger] moves[j]).0 != path
}

/// The first position of the list at which a rename starts at `path`.
pub open spec fn first_source(moves: Seq<Move>, path: Seq<char>) -> int {
    choose|i: int| is_first_source(moves, path, i)
}

/// There is one first position at most.
pub proof fn lemma_first_source(moves: Seq<Move>, path: Seq<char>, index: int)
    requires
        is_first_source(moves, path, index),
    ensures
        first_source(moves, path) == index,
{
    let i = first_source(moves, path);
    assert(is_first_source(moves, path, i));
    if i < index {
        assert(moves[i].0 != path);
    }
    if index < i {
        assert(moves[index].0 != path);
    }
}

/// Where the chain of pending renames that wait for one another ends,
/// from the rename at `at`: at the first rename whose destination no
/// pending rename starts at. There is no end where the chain comes back to
/// the first pending rename, or has more than `limit` further links, as it
/// can only have by going in a circle.
pub open spec fn chain_end(pending: Seq<Move>, at: int, limit: nat) -> Option<int>
    decreases limit,
{
    if !has_source(pending, pending[at].1) {
        Some(at)
    } else {
        let next = first_source(pending, pending[at].1);
        if next == 0 || limit == 0 {
            None
        } else {
            chain_end(pending, next, (limit - 1) as nat)
        }
    }
}

/// The rename to plan next: the end of the chain from the first pending
/// rename.
pub open spec fn ready_of(pending: Seq<Move>) -> Option<int> {
    chain_end(pending, 0, (pending.len() - 1) as nat)
}

/// A plan with one rename before it; a refusal stays what it is.
pub open spec fn preceded(m: Move, rest: Result<Seq<Move>, TmpNameError>) -> Result<
    Seq<Move>,
    TmpNameError,
> {
    match rest {
        Ok(rest) => Ok(seq![m] + rest),
        Err(e) => Err(e),
    }
}

/// A plan behind the renames that were planned before it; a refusal stays
/// what it is.
pub open spec fn after(done: Seq<Move>, rest: Result<Seq<Move>, TmpNameError>) -> Result<
    Seq<Move>,
    TmpNameError,
> {
    match rest {
        Ok(rest) => Ok(done + rest),
        Err(e) => Err(e),
    }
}

/// The path cannot serve as a temporary: it is a path of the request, or
/// was used as a temporary before.
pub open spec fn is_taken(raw: Seq<Move>, used: Seq<Seq<char>>, path: Seq<char>) -> bool {
    has_source(raw, path) || has_dest(raw, path) || used.contains(path)
}

/// The plan for what is pending of a request. Each pending rename has its
/// temporary path in `parking`. The first `unparked` of the pending
/// renames are renames of the request; those behind them start at
/// temporary paths, which are the paths `used`.
///
/// With nothing pending the plan is empty. Else the rename at the end of
/// the chain from the first pending rename comes first, and the plan for
/// the others follows. Where the chain has no end, the file of the first
/// pending rename is parked at its temporary path: the plan begins with the
/// rename to that path, and the rename from there goes to the back of the
/// queue. That fails where there is no such path, where it is taken, and
/// for a file that is parked already.
pub open spec fn schedule_from(
    raw: Seq<Move>,
    pending: Seq<Move>,
    parking: Seq<Parking>,
    unparked: nat,
    used: Seq<Seq<char>>,
) -> Result<Seq<Move>, TmpNameError>
    decreases unparked + pending.len(),
{
    if pending.len() == 0 {
        Ok(Seq::<Move>::empty())
    } else {
        match ready_of(pending) {
            Some(j) => if 0 <= j < pending.len() {
                preceded(
                    pending[j],
                    schedule_from(
                        raw,
                        pending.remove(j),
                        parking.remove(j),
                        if j < unparked {
                            (unparked - 1) as nat
                        } else {
                            unparked
                        },
                        used,
                    ),
                )
            } else {
                Ok(Seq::<Move>::empty())
            },
            None => if unparked == 0 {
                Err(TmpNameError::TemporaryTaken)
            } else {
                match parking[0] {
                    Err(e) => Err(e),
                    Ok(temp) => if is_taken(raw, used, temp) {
                        Err(TmpNameError::TemporaryTaken)
                    } else {
                        preceded(
                            (pending[0].0, temp),
                            schedule_from(
                                raw,
                                pending.remove(0).push((temp, pending[0].1)),
                                parking.remove(0).push(parking[0]),
                                (unparked - 1) as nat,
                                used.push(temp),
                            ),
                        )
                    },
                }
            },
        }
    }
}

/// The plan of the scheduler for a request whose renames have these
/// temporary paths, or its refusal.
pub open spec fn schedule_with(raw: Seq<Move>, parking: Seq<Parking>) -> Result<
    Seq<Move>,
    TmpNameError,
> {
    schedule_from(raw, raw, parking, raw.len(), Seq::<Seq<char>>::empty())
}

/// The plan of the scheduler for a request, or its refusal. Each file may
/// be parked at the temporary path for its destination.
pub open spec fn schedule(raw: Seq<Move>) -> Result<Seq<Move>, TmpNameError> {
    schedule_with(raw, parkings_for(raw))
}

/// Two files that change places are planned in three renames: the first
/// file is parked at its temporary path, the second goes to its place, and
/// the first follows from the temporary path.
pub proof fn lemma_swap_plan(a: Seq<char>, b: Seq<char>, t: Seq<char>, u: Seq<char>)
    requires
        a != b,
        t != a,
        t != b,
    ensures
        schedule_with(
            seq![(a, b), (b, a)],
            seq![Ok::<Seq<char>, TmpNameError>(t), Ok::<Seq<char>, TmpNameError>(u)],
        ) == Ok::<Seq<Move>, TmpNameError>(seq![(a, t), (b, a), (t, b)]),
{
    let raw: Seq<Move> = seq![(a, b), (b, a)];
    let parking: Seq<Parking> = seq![Ok(t), Ok(u)];
    let none = Seq::<Seq<char>>::empty();
    assert(raw[1].0 == b);
    assert(raw[0].0 == a);
    assert(is_first_source(raw, b, 1));
    lemma_first_source(raw, b, 1);
    assert(is_first_source(raw, a, 0));
    lemma_first_source(raw, a, 0);
    assert(has_source(raw, b));
    assert(has_source(raw, a));
    assert(chain_end(raw, 1, 0) is None);
    assert(chain_end(raw, 0, 1) is None);
    assert(ready_of(raw) is None);
    assert(!is_taken(raw, none, t)) by {
        if has_source(raw, t) {
            let i = choose|i: int| 0 <= i < raw.len() && #[trigger] raw[i].0 == t;
        }
        if has_dest(raw, t) {
            let i = choose|i: int| 0 <= i < raw.len() && #[trigger] raw[i].1 == t;
        }
    }
    let q1: Seq<Move> = seq![(b, a), (t, b)];
    let p1: Seq<Parking> = seq![Ok(u), Ok(t)];
    assert(raw.remove(0).push((t, b)) =~= q1);
    assert(parking.remove(0).push(parking[0]) =~= p1);
    assert(none.push(t) =~= seq![t]);
    assert(!has_source(q1, a)) by {
        if has_source(q1, a) {
            let i = choose|i: int| 0 <= i < q1.len() && #[trigger] q1[i].0 == a;
        }
    }
    assert(ready_of(q1) == Some(0int));
    let q2: Seq<Move> = seq![(t, b)];
    assert(q1.remove(0) =~= q2);
    assert(p1.remove(0) =~= seq![Ok::<Seq<char>, TmpNameError>(t)]);
    assert(!has_source(q2, b)) by {
        if has_source(q2, b) {
            let i = choose|i: int| 0 <= i < q2.len() && #[trigger] q2[i].0 == b;
        }
    }
    assert(ready_of(q2) == Some(0int));
    assert(q2.remove(0) =~= Seq::<Move>::empty());
    let end = schedule_from(raw, Seq::<Move>::empty(), Seq::<Parking>::empty(), 0, seq![t]);
    assert(end == Ok::<Seq<Move>, TmpNameError>(Seq::<Move>::empty()));
    assert(seq![Ok::<Seq<char>, TmpNameError>(t)].remove(0) =~= Seq::<Parking>::empty());
    let last = schedule_from(raw, q2, seq![Ok::<Seq<char>, TmpNameError>(t)], 0, seq![t]);
    assert(last == preceded((t, b), end));
    assert(seq![(t, b)] + Seq::<Move>::empty() =~= seq![(t, b)]);
    assert(last == Ok::<Seq<Move>, TmpNameError>(seq![(t, b)]));
    let mid = schedule_from(raw, q1, p1, 1, seq![t]);
    assert(mid == preceded((b, a), last));
    assert(seq![(b, a)] + seq![(t, b)] =~= seq![(b, a), (t, b)]);
    assert(mid == Ok::<Seq<Move>, TmpNameError>(seq![(b, a), (t, b)]));
    assert(seq![(a, t)] + seq![(b, a), (t, b)] =~= seq![(a, t), (b, a), (t, b)]);
    assert(schedule_from(raw, raw, parking, 2, none) == preceded((a, t), mid));
}

/// What a position that was found or not stands for.
pub open spec fn position_view(found: Option<usize>) -> Option<int> {
    match found {
        Some(index) => Some(index as int),
        None => None,
    }
}

/// The position of the first of the renames that starts at `to_find`.
pub fn find_source(inputs: &RenameActions, to_find: &String) -> (found: Option<usize>)
    ensures
        match found {
            Some(index) => is_first_source(moves_view(inputs@), to_find@, index as int),
            None => !has_source(moves_view(inputs@), to_find@),
        },
{
    let mut i: usize = 0;
    while i < inputs.len()
        invariant
            i <= inputs.len(),
            forall|j: int| 0 <= j < i ==> (#[trigger] moves_view(inputs@)[j]).0 != to_find@,
        decreases inputs.len() - i,
    {
        if inputs[i].0 == *to_find {
            assert(moves_view(inputs@)[i as int].0 == to_find@);
            return Some(i);
        }
        assert(moves_view(inputs@)[i as int].0 != to_find@);
        i += 1;
    }
    None
}

/// The first of the renames that starts at `to_find`, with its position.
pub fn find_next_link(inputs: &RenameActions, to_find: &String) -> (link: Option<
    (usize, RenameAction),
>)
    ensures
        match link {
            Some((index, action)) => {
                &&& is_first_source(moves_view(inputs@), to_find@, index as int)
                &&& (action.0@, action.1@) == moves_view(inputs@)[index as int]
            },
            None => !has_source(moves_view(inputs@), to_find@),
        },
{
    match find_source(inputs, to_find) {
        Some(index) => Some((index, (inputs[index].0.clone(), inputs[index].1.clone()))),
        None => None,
    }
}

/// Whether a rename of the list starts or ends at `path`.
pub fn names_path(list: &RenameActions, path: &String) -> (named: bool)
    ensures
        named == (has_source(moves_view(list@), path@) || has_dest(moves_view(list@), path@)),
{
    let mut i: usize = 0;
    while i < list.len()
        invariant
            i <= list.len(),
            forall|j: int| 0 <= j < i ==> (#[trigger] moves_view(list@)[j]).0 != path@,
            forall|j: int| 0 <= j < i ==> (#[trigger] moves_view(list@)[j]).1 != path@,
        decreases list.len() - i,
    {
        if list[i].0 == *path || list[i].1 == *path {
            assert(moves_view(list@)[i as int].0 == path@ || moves_view(list@)[i as int].1
                == path@);
            return true;
        }
        assert(moves_view(list@)[i as int].0 != path@);
        assert(moves_view(list@)[i as int].1 != path@);
        i += 1;
    }
    false
}

/// Whether the text is one of the list.
pub fn holds_text(list: &Vec<String>, text: &String) -> (held: bool)
    ensures
        held == views(list@).contains(text@),
{
    let mut i: usize = 0;
    while i < list.len()
        invariant
            i <= list.len(),
            forall|j: int| 0 <= j < i ==> #[trigger] views(list@)[j] != text@,
        decreases list.len() - i,
    {
        if list[i] == *text {
            assert(views(list@)[i as int] == text@);
            return true;
        }
        assert(views(list@)[i as int] != text@);
        i += 1;
    }
    false
}

/// The rename to plan next, for the first pending rename: the last of the
/// chain of pending renames that wait for one another from its
/// destination, which is the first rename itself where nothing waits. Its
/// destination is a path that no pending rename starts at. There is none
/// where the chain comes back: then pending renames wait in a circle.
pub fn next_ready(work: &RenameActions) -> (ready: Option<usize>)
    requires
        work.len() > 0,
    ensures
        position_view(ready) == ready_of(moves_view(work@)),
        match ready {
            Some(j) => j < work.len() && !has_source(
                moves_view(work@),
                moves_view(work@)[j as int].1,
            ),
            None => has_cycle(moves_view(work@)) && (ends_apart(moves_view(work@)) ==> has_dest(
                moves_view(work@),
                moves_view(work@)[0].0,
            )),
        },
{
    let ghost pending = moves_view(work@);
    let ghost mut chain: Seq<int> = seq![0int];
    let mut at: usize = 0;
    let mut steps: usize = 0;
    loop
        invariant
            pending == moves_view(work@),
            at < work.len(),
            steps < work.len(),
            chain.len() == steps + 1,
            chain.last() == at,
            chain[0] == 0,
            forall|k: int| 1 <= k < chain.len() ==> #[trigger] chain[k] != 0,
            is_chain(pending, chain),
            chain_end(pending, at as int, (work.len() - 1 - steps) as nat) == ready_of(pending),
        decreases work.len() - steps,
    {
        assert(pending[at as int].1 == work@[at as int].1@);
        match find_source(work, &work[at].1) {
            None => {
                return Some(at);
            },
            Some(next) => {
                proof {
                    lemma_first_source(pending, pending[at as int].1, next as int);
                    assert(has_source(pending, pending[at as int].1));
                }
                if next == 0 {
                    assert(is_circle(pending, chain));
                    assert(pending[at as int].1 == pending[0].0);
                    return None;
                }
                proof {
                    let longer = chain.push(next as int);
                    assert forall|k: int| 0 <= k < longer.len() - 1 implies pending[
                    #[trigger] longer[k]].1 == pending[longer[k + 1]].0 by {
                        if k < chain.len() - 1 {
                            assert(longer[k] == chain[k]);
                            assert(longer[k + 1] == chain[k + 1]);
                        }
                    }
                    chain = longer;
                }
                steps += 1;
                if steps >= work.len() {
                    proof {
                        lemma_long_chain(pending, chain);
                        if ends_apart(pending) {
                            let (a, b) = lemma_chain_repeats(pending, chain);
                            lemma_chain_returns(pending, chain, a, b);
                            assert(chain[b - a] != 0);
                        }
                    }
                    return None;
                }
                at = next;
            },
        }
    }
}

/// A copy of a list of renames.
pub fn copy_actions(list: &RenameActions) -> (copy: RenameActions)
    ensures
        moves_view(copy@) == moves_view(list@),
{
    let mut copy: RenameActions = Vec::new();
    let mut i: usize = 0;
    while i < list.len()
        invariant
            i <= list.len(),
            moves_view(copy@) == moves_view(list@).take(i as int),
        decreases list.len() - i,
    {
        let ghost before = moves_view(copy@);
        copy.push((list[i].0.clone(), list[i].1.clone()));
        assert(moves_view(copy@) =~= before.push(moves_view(list@)[i as int]));
        assert(moves_view(list@).take(i + 1) =~= moves_view(list@).take(i as int).push(
            moves_view(list@)[i as int],
        ));
        i += 1;
    }
    assert(moves_view(list@).take(list.len() as int) =~= moves_view(list@));
    copy
}

/// Where the renames of a queue and their temporary paths come from. A
/// pending rename of the request has the temporary path of the rename at
/// its place in `origin`, and no two have the same place. A temporary path
/// that was used is that of the rename at its place in `spent`, and no
/// pending rename of the request has that place. The pending renames
/// behind those of the request start at temporary paths that were used.
pub open spec fn in_step(
    given: Seq<Parking>,
    parking: Seq<Parking>,
    used: Seq<Seq<char>>,
    pending: Seq<Move>,
    unparked: int,
    origin: Seq<int>,
    spent: Seq<int>,
) -> bool {
    &&& origin.len() == pending.len()
    &&& parking.len() == pending.len()
    &&& spent.len() == used.len()
    &&& 0 <= unparked <= pending.len()
    &&& forall|k: int|
        0 <= k < unparked ==> 0 <= #[trigger] origin[k] < given.len() && parking[k]
            == given[origin[k]]
    &&& forall|a: int, b: int|
        0 <= a < b < unparked ==> #[trigger] origin[a] != #[trigger] origin[b]
    &&& forall|m: int|
        0 <= m < spent.len() ==> 0 <= #[trigger] spent[m] < given.len() && given[spent[m]]
            == Ok::<Seq<char>, TmpNameError>(used[m])
    &&& forall|k: int, m: int|
        0 <= k < unparked && 0 <= m < spent.len() ==> #[trigger] origin[k] != #[trigger] spent[m]
    &&& forall|k: int| unparked <= k < pending.len() ==> used.contains(#[trigger] pending[k].0)
}

/// The bookkeeping holds on when a pending rename is planned.
proof fn lemma_step_planned(
    given: Seq<Parking>,
    parking: Seq<Parking>,
    used: Seq<Seq<char>>,
    pending: Seq<Move>,
    unparked: int,
    origin: Seq<int>,
    spent: Seq<int>,
    j: int,
)
    requires
        in_step(given, parking, used, pending, unparked, origin, spent),
        0 <= j < pending.len(),
    ensures
        in_step(
            given,
            parking.remove(j),
            used,
            pending.remove(j),
            if j < unparked {
                unparked - 1
            } else {
                unparked
            },
            origin.remove(j),
            spent,
        ),
{
    let left = if j < unparked {
        unparked - 1
    } else {
        unparked
    };
    let origin2 = origin.remove(j);
    let parking2 = parking.remove(j);
    let pending2 = pending.remove(j);
    assert forall|k: int| 0 <= k < left implies 0 <= #[trigger] origin2[k] < given.len()
        && parking2[k] == given[origin2[k]] by {
        assert(origin2[k] == origin[skip_at(j, k)]);
        assert(parking2[k] == parking[skip_at(j, k)]);
    }
    assert forall|a: int, b: int| 0 <= a < b < left implies #[trigger] origin2[a]
        != #[trigger] origin2[b] by {
        assert(origin2[a] == origin[skip_at(j, a)]);
        assert(origin2[b] == origin[skip_at(j, b)]);
    }
    assert forall|k: int, m: int|
        0 <= k < left && 0 <= m < spent.len() implies #[trigger] origin2[k]
        != #[trigger] spent[m] by {
        assert(origin2[k] == origin[skip_at(j, k)]);
    }
    assert forall|k: int| left <= k < pending2.len() implies used.contains(
        #[trigger] pending2[k].0,
    ) by {
        assert(pending2[k] == pending[skip_at(j, k)]);
    }
}

/// The bookkeeping holds on when the file of the first pending rename is
/// parked.
proof fn lemma_step_parked(
    given: Seq<Parking>,
    parking: Seq<Parking>,
    used: Seq<Seq<char>>,
    pending: Seq<Move>,
    unparked: int,
    origin: Seq<int>,
    spent: Seq<int>,
    temp: Seq<char>,
)
    requires
        in_step(given, parking, used, pending, unparked, origin, spent),
        unparked > 0,
        parking[0] == Ok::<Seq<char>, TmpNameError>(temp),
    ensures
        in_step(
            given,
            parking.remove(0).push(parking[0]),
            used.push(temp),
            pending.remove(0).push((temp, pending[0].1)),
            unparked - 1,
            origin.remove(0).push(origin[0]),
            spent.push(origin[0]),
        ),
{
    let left = unparked - 1;
    let origin2 = origin.remove(0).push(origin[0]);
    let parking2 = parking.remove(0).push(parking[0]);
    let pending2 = pending.remove(0).push((temp, pending[0].1));
    let spent2 = spent.push(origin[0]);
    let used2 = used.push(temp);
    assert forall|k: int| 0 <= k < left implies 0 <= #[trigger] origin2[k] < given.len()
        && parking2[k] == given[origin2[k]] by {
        assert(origin2[k] == origin[k + 1]);
        assert(parking2[k] == parking[k + 1]);
    }
    assert forall|a: int, b: int| 0 <= a < b < left implies #[trigger] origin2[a]
        != #[trigger] origin2[b] by {
        assert(origin2[a] == origin[a + 1]);
        assert(origin2[b] == origin[b + 1]);
    }
    assert forall|m: int| 0 <= m < spent2.len() implies 0 <= #[trigger] spent2[m] < given.len()
        && given[spent2[m]] == Ok::<Seq<char>, TmpNameError>(used2[m]) by {
        if m < spent.len() {
            assert(spent2[m] == spent[m]);
            assert(used2[m] == used[m]);
        } else {
            assert(spent2[m] == origin[0]);
            assert(used2[m] == temp);
        }
    }
    assert forall|k: int, m: int|
        0 <= k < left && 0 <= m < spent2.len() implies #[trigger] origin2[k]
        != #[trigger] spent2[m] by {
        assert(origin2[k] == origin[k + 1]);
        if m < spent.len() {
            assert(spent2[m] == spent[m]);
        } else {
            assert(spent2[m] == origin[0]);
        }
    }
    assert forall|k: int| left <= k < pending2.len() implies used2.contains(
        #[trigger] pending2[k].0,
    ) by {
        if k < pending2.len() - 1 {
            assert(pending2[k] == pending[k + 1]);
            let at = choose|at: int| 0 <= at < used.len() && used[at] == pending[k + 1].0;
            assert(used2[at] == pending[k + 1].0);
        } else {
            assert(used2[used.len() as int] == temp);
        }
    }
}

/// A copy of a temporary path, or of the reason why there is none.
fn copy_temp(temp: &Result<String, TmpNameError>) -> (copy: Result<String, TmpNameError>)
    ensures
        temp_view(copy) == temp_view(*temp),
{
    match temp {
        Ok(path) => Ok(path.clone()),
        Err(e) => Err(*e),
    }
}

/// Turns a set of renames, each with its temporary path, into a move plan:
/// renames that can be carried out one after the other, none of which lands
/// on a file, and after which every file lies where the request wants it.
///
/// A rename is planned when nothing waits at its destination. Renames that
/// wait for one another in a chain are planned from the end of the chain.
/// Where they wait in a circle a file is parked at its temporary path, and
/// moved on when its destination is free. Before a temporary path is used
/// it is tested: it is no path of the request, and was not used before. A
/// request without a circle needs no temporary, and is planned in as many
/// renames as it has, whatever their order.
#[verifier::rlimit(80)]
pub fn schedule_pending(queue: Vec<Pending>) -> (plan: Result<RenameActions, TmpNameError>)
    ensures
        plan_view(plan) == schedule_with(moves_of(queue@), parkings_of(queue@)),
        is_schedule(plan_view(plan), moves_of(queue@), parkings_of(queue@)),
{
    let ghost raw = moves_of(queue@);
    let ghost given = parkings_of(queue@);
    let mut input: RenameActions = Vec::new();
    let mut parking: Vec<Result<String, TmpNameError>> = Vec::new();
    let mut n: usize = 0;
    while n < queue.len()
        invariant
            n <= queue.len(),
            raw == moves_of(queue@),
            given == parkings_of(queue@),
            moves_view(input@) == raw.take(n as int),
            parkings_view(parking@) == given.take(n as int),
        decreases queue.len() - n,
    {
        let ghost moves_before = moves_view(input@);
        let ghost parkings_before = parkings_view(parking@);
        input.push((queue[n].0.clone(), queue[n].1.clone()));
        parking.push(copy_temp(&queue[n].2));
        proof {
            assert(moves_view(input@) =~= moves_before.push(raw[n as int]));
            assert(parkings_view(parking@) =~= parkings_before.push(given[n as int]));
            assert(raw.take(n + 1) =~= raw.take(n as int).push(raw[n as int]));
            assert(given.take(n + 1) =~= given.take(n as int).push(given[n as int]));
        }
        n += 1;
    }
    assert(raw.take(queue.len() as int) =~= raw);
    assert(given.take(queue.len() as int) =~= given);
    let mut work = copy_actions(&input);
    let mut ret: RenameActions = Vec::new();
    let mut temps: Vec<String> = Vec::new();
    // So many renames at the front of the queue are renames of the
    // request; those behind them start at a temporary path.
    let mut unparked: usize = work.len();
    let ghost mut detoured = false;
    let ghost mut origin: Seq<int> = Seq::new(raw.len(), |k: int| k);
    let ghost mut spent: Seq<int> = Seq::<int>::empty();
    proof {
        assert(moves_view(ret@) =~= Seq::<Move>::empty());
        assert(views(temps@) =~= Seq::<Seq<char>>::empty());
        assert forall|files: Files| #[trigger]
            stays_on_course(raw, views(temps@), moves_view(ret@), moves_view(work@), files) by {
            lemma_course_begins(raw, files);
        }
        assert forall|k: int| 0 <= k < raw.len() implies has_move(raw, #[trigger] raw[k]) by {}
        assert(moves_view(work@).len() == work@.len());
        assert(raw.len() == input@.len());
        assert(Seq::<Move>::empty() + raw =~= raw);
        assert(given.len() == raw.len());
        assert forall|k: int| 0 <= k < raw.len() implies parkings_view(parking@)[k]
            == given[#[trigger] origin[k]] by {}
        assert forall|k: int| 0 <= k < parking.len() implies given.contains(
            #[trigger] parkings_view(parking@)[k],
        ) by {
            assert(parkings_view(parking@)[k] == given[k]);
        }
        match schedule_with(raw, given) {
            Ok(all) => {
                assert(Seq::<Move>::empty() + all =~= all);
            },
            Err(_) => {},
        }
        assert forall|k: int| 0 <= k < raw.len() implies has_dest(raw, #[trigger] raw[k].1) by {}
    }
    while work.len() > 0
        invariant
            raw == moves_view(input@),
            raw == moves_of(queue@),
            given == parkings_of(queue@),
            unparked <= work.len(),
            parking.len() == work.len(),
            given.len() == raw.len(),
            in_step(
                given,
                parkings_view(parking@),
                views(temps@),
                moves_view(work@),
                unparked as int,
                origin,
                spent,
            ),
            forall|k: int|
                0 <= k < parking.len() ==> given.contains(#[trigger] parkings_view(parking@)[k]),
            after(
                moves_view(ret@),
                schedule_from(
                    raw,
                    moves_view(work@),
                    parkings_view(parking@),
                    unparked as nat,
                    views(temps@),
                ),
            ) == schedule_with(raw, given),
            forall|files: Files| #[trigger]
                stays_on_course(raw, views(temps@), moves_view(ret@), moves_view(work@), files),
            forall|k: int|
                0 <= k < work.len() ==> has_dest(raw, #[trigger] moves_view(work@)[k].1),
            written_temps(moves_view(ret@), raw) == views(temps@),
            all_fresh(views(temps@), raw),
            detoured ==> has_cycle(raw),
            !detoured ==> ret.len() + work.len() == input.len() && temps.len() == 0
                && is_part_of(moves_view(work@), raw),
        decreases unparked + work.len(),
    {
        let ghost pending = moves_view(work@);
        let ghost planned = moves_view(ret@);
        let ghost used = views(temps@);
        let ghost waiting = unparked as nat;
        let ghost parked_at = parkings_view(parking@);
        let ghost rest_of_plan = schedule_from(raw, pending, parked_at, waiting, used);
        match next_ready(&work) {
            Some(j) => {
                let m = work.remove(j);
                parking.remove(j);
                if j < unparked {
                    unparked -= 1;
                }
                ret.push(m);
                proof {
                    let rest = pending.remove(j as int);
                    assert(moves_view(work@) =~= rest);
                    assert(moves_view(ret@) =~= planned.push(pending[j as int]));
                    assert(parkings_view(parking@) =~= parked_at.remove(j as int));
                    lemma_step_planned(
                        given,
                        parked_at,
                        used,
                        pending,
                        waiting as int,
                        origin,
                        spent,
                        j as int,
                    );
                    origin = origin.remove(j as int);
                    assert forall|k: int| 0 <= k < parking.len() implies given.contains(
                        #[trigger] parkings_view(parking@)[k],
                    ) by {
                        assert(parkings_view(parking@)[k] == parked_at[skip_at(j as int, k)]);
                    }
                    let then = schedule_from(
                        raw,
                        rest,
                        parked_at.remove(j as int),
                        unparked as nat,
                        used,
                    );
                    assert(rest_of_plan == preceded(pending[j as int], then));
                    if let Ok(tail) = then {
                        assert(planned + (seq![pending[j as int]] + tail) =~= planned.push(
                            pending[j as int],
                        ) + tail);
                    }
                    assert(forall|k: int|
                        0 <= k < rest.len() ==> rest[k] == pending[skip_at(j as int, k)]);
                    lemma_temps_push(planned, pending[j as int], raw);
                    let longer = planned.push(pending[j as int]);
                    assert forall|files: Files| #[trigger]
                        stays_on_course(raw, used, longer, rest, files) by {
                        assert(stays_on_course(raw, used, planned, pending, files));
                        lemma_course_direct(raw, used, planned, pending, j as int, files);
                    }
                    assert forall|k: int| 0 <= k < rest.len() implies has_dest(
                        raw,
                        #[trigger] rest[k].1,
                    ) by {
                        assert(has_dest(raw, pending[skip_at(j as int, k)].1));
                    }
                    if !detoured {
                        assert forall|k: int| 0 <= k < rest.len() implies has_move(
                            raw,
                            #[trigger] rest[k],
                        ) by {
                            assert(has_move(raw, pending[skip_at(j as int, k)]));
                        }
                    }
                }
            },
            None => {
                proof {
                    if !detoured {
                        lemma_cycle_of_part(pending, raw);
                    }
                    assert(has_dest(raw, pending[0].1));
                }
                assert(pending[0].1 == work@[0].1@);
                if unparked == 0 {
                    proof {
                        if is_separate(raw) && can_park(raw, given) {
                            // The file is parked, and waits for a path
                            // that no rename will leave.
                            let files = files_to_move(raw);
                            lemma_separate_is_sound(raw);
                            assert(stays_on_course(raw, used, planned, pending, files));
                            assert(ends_apart(pending));
                            let k = choose|k: int|
                                0 <= k < pending.len() && #[trigger] pending[k].1 == pending[0].0;
                            assert(has_dest(raw, pending[k].1));
                            assert(used.contains(pending[0].0));
                            assert(false);
                        }
                    }
                    return Err(TmpNameError::TemporaryTaken);
                }
                assert(parked_at[0] == temp_view(parking@[0]));
                assert(parked_at[0] == given[origin[0]]);
                let temp = match copy_temp(&parking[0]) {
                    Ok(temp) => temp,
                    Err(e) => {
                        assert(given.contains(parked_at[0]));
                        return Err(e);
                    },
                };
                if names_path(&input, &temp) || holds_text(&temps, &temp) {
                    proof {
                        if used.contains(temp@) {
                            let m = choose|m: int| 0 <= m < used.len() && used[m] == temp@;
                            assert(given[spent[m]] == given[origin[0]]);
                            assert(origin[0] != spent[m]);
                        }
                    }
                    return Err(TmpNameError::TemporaryTaken);
                }
                let first = work.remove(0);
                let parked_first = parking.remove(0);
                parking.push(parked_first);
                unparked -= 1;
                ret.push((first.0, temp.clone()));
                work.push((temp.clone(), first.1));
                temps.push(temp);
                proof {
                    let parked = temp@;
                    let rest = pending.remove(0);
                    detoured = true;
                    assert(moves_view(ret@) =~= planned.push((pending[0].0, parked)));
                    assert(moves_view(work@) =~= rest.push((parked, pending[0].1)));
                    assert(views(temps@) =~= used.push(parked));
                    assert(parkings_view(parking@) =~= parked_at.remove(0).push(parked_at[0]));
                    lemma_step_parked(
                        given,
                        parked_at,
                        used,
                        pending,
                        waiting as int,
                        origin,
                        spent,
                        parked,
                    );
                    spent = spent.push(origin[0]);
                    origin = origin.remove(0).push(origin[0]);
                    assert forall|k: int| 0 <= k < parking.len() implies given.contains(
                        #[trigger] parkings_view(parking@)[k],
                    ) by {
                        if k < parking.len() - 1 {
                            assert(parkings_view(parking@)[k] == parked_at[k + 1]);
                        }
                    }
                    let then = schedule_from(
                        raw,
                        rest.push((parked, pending[0].1)),
                        parked_at.remove(0).push(parked_at[0]),
                        unparked as nat,
                        used.push(parked),
                    );
                    assert(!is_taken(raw, used, parked));
                    assert(rest_of_plan == preceded((pending[0].0, parked), then));
                    if let Ok(tail) = then {
                        assert(planned + (seq![(pending[0].0, parked)] + tail) =~= planned.push(
                            (pending[0].0, parked),
                        ) + tail);
                    }
                    lemma_temps_push(planned, (pending[0].0, parked), raw);
                    assert forall|files: Files| #[trigger]
                        stays_on_course(
                            raw,
                            used.push(parked),
                            planned.push((pending[0].0, parked)),
                            rest.push((parked, pending[0].1)),
                            files,
                        ) by {
                        assert(stays_on_course(raw, used, planned, pending, files));
                        lemma_course_detour(raw, used, planned, pending, parked, files);
                    }
                    let queue = rest.push((parked, pending[0].1));
                    assert forall|k: int| 0 <= k < queue.len() implies has_dest(
                        raw,
                        #[trigger] queue[k].1,
                    ) by {
                        if k < rest.len() {
                            assert(queue[k] == pending[k + 1]);
                            assert(has_dest(raw, pending[k + 1].1));
                        }
                    }
                    let more = used.push(parked);
                    assert forall|a: int, b: int| 0 <= a < b < more.len() implies #[trigger] more[a]
                        != #[trigger] more[b] by {
                        if b < used.len() {
                            assert(used[a] != used[b]);
                        } else {
                            assert(used.contains(used[a]));
                        }
                    }
                }
            },
        }
    }
    proof {
        let done = moves_view(ret@);
        assert(moves_view(work@) =~= Seq::<Move>::empty());
        assert(done + Seq::<Move>::empty() =~= done);
        assert forall|files: Files|
            crate::move_plan::sound_request(raw, files) && crate::move_plan::all_vacant(
                written_temps(done, raw),
                files,
            ) implies #[trigger] crate::move_plan::achieves(done, raw, files) by {
            assert(stays_on_course(raw, views(temps@), done, moves_view(work@), files));
            lemma_course_ends(raw, views(temps@), done, files);
        }
    }
    Ok(ret)
}

/// Turns a set of renames into a move plan: renames that can be carried
/// out one after the other, none of which lands on a file, and after which
/// every file lies where the request wants it. Where files wait for one
/// another in a circle, one of them is parked at the temporary path for its
/// destination.
pub fn make_move_list(input: RenameActions) -> (plan: Result<RenameActions, TmpNameError>)
    ensures
        is_plan_of(plan_view(plan), moves_view(input@)),
{
    let ghost raw = moves_view(input@);
    let mut queue: Vec<Pending> = Vec::new();
    let mut i: usize = 0;
    while i < input.len()
        invariant
            i <= input.len(),
            raw == moves_view(input@),
            moves_of(queue@) == raw.take(i as int),
            parkings_of(queue@) == parkings_for(raw).take(i as int),
        decreases input.len() - i,
    {
        let ghost moves_before = moves_of(queue@);
        let ghost parkings_before = parkings_of(queue@);
        let temp = tmp_name(input[i].1.as_str());
        queue.push((input[i].0.clone(), input[i].1.clone(), temp));
        proof {
            assert(raw[i as int] == (input@[i as int].0@, input@[i as int].1@));
            assert(moves_of(queue@) =~= moves_before.push(raw[i as int]));
            assert(parkings_of(queue@) =~= parkings_before.push(parkings_for(raw)[i as int]));
            assert(raw.take(i + 1) =~= raw.take(i as int).push(raw[i as int]));
            assert(parkings_for(raw).take(i + 1) =~= parkings_for(raw).take(i as int).push(
                parkings_for(raw)[i as int],
            ));
        }
        i += 1;
    }
    assert(raw.take(input.len() as int) =~= raw);
    assert(parkings_for(raw).take(input.len() as int) =~= parkings_for(raw));
    schedule_pending(queue)
}

/// A file and its tokens.
pub type PathAndTokens = (String, FileTokens);

/// What a file and its tokens stand for.
pub type Entry = (Seq<char>, TokensView);

/// What a list of files and tokens stands for.
pub open spec fn entries_view(entries: Seq<PathAndTokens>) -> Seq<Entry> {
    entries.map_values(|e: PathAndTokens| (e.0@, e.1@))
}

/// How many of the entries carry a sequence number.
pub open spec fn numbered_count(entries: Seq<Entry>) -> nat
    decreases entries.len(),
{
    if entries.len() == 0 {
        0
    } else {
        let before = numbered_count(entries.drop_last());
        if entries.last().1.fields.index is Some {
            before + 1
        } else {
            before
        }
    }
}

/// The path of a file under another sequence number.
pub open spec fn renumbered_path(tokens: TokensView, number: int) -> Seq<char> {
    path_join(
        tokens.dir,
        render(
            tokens.fields.stem,
            tag_if(tokens.fields.tagged, tokens.tag),
            Some(number),
            tokens.fields.suffix,
        ),
    )
}

/// The renames that number the entries in the order given. The numbered
/// entries count from 1; an entry whose number is not its count is renamed
/// to its count. An entry without a number is passed over and not counted.
pub open spec fn movers(entries: Seq<Entry>) -> Seq<Move>
    decreases entries.len(),
{
    if entries.len() == 0 {
        Seq::<Move>::empty()
    } else {
        let before = movers(entries.drop_last());
        let (path, tokens) = entries.last();
        let expected = numbered_count(entries.drop_last()) as int + 1;
        match tokens.fields.index {
            Some(actual) => if actual != expected {
                before.push((path, renumbered_path(tokens, expected)))
            } else {
                before
            },
            None => before,
        }
    }
}

/// The modification times of the entries.
pub open spec fn ages(entries: Seq<Entry>) -> Seq<int> {
    entries.map_values(|e: Entry| e.1.mtime)
}

/// The entries from the oldest to the newest, entries of the same age in
/// the order given.
pub open spec fn by_age(entries: Seq<Entry>) -> Seq<Entry> {
    reorder(entries, stable_order_of(entries.len(), by_key(ages(entries))))
}

/// The renames that give the entries, taken in the order given, the
/// numbers 1, 2, 3 and so on. Nothing is said yet of the order in which the
/// renames can be carried out.
#[verifier::rlimit(40)]
pub fn find_movers(move_vec: &Vec<PathAndTokens>) -> (actions: RenameActions)
    requires
        move_vec.len() < i32::MAX,
    ensures
        moves_view(actions@) == movers(entries_view(move_vec@)),
{
    let mut ret: RenameActions = Vec::new();
    let mut expected_number: i32 = 1;
    let mut i: usize = 0;
    let ghost entries = entries_view(move_vec@);
    while i < move_vec.len()
        invariant
            i <= move_vec.len(),
            move_vec.len() < i32::MAX,
            entries == entries_view(move_vec@),
            expected_number == numbered_count(entries.take(i as int)) + 1,
            expected_number <= i + 1,
            moves_view(ret@) == movers(entries.take(i as int)),
        decreases move_vec.len() - i,
    {
        let path = &move_vec[i].0;
        let tokens = &move_vec[i].1;
        proof {
            assert(entries.take(i + 1).drop_last() =~= entries.take(i as int));
            assert(entries.take(i + 1).last() == (path@, tokens@));
        }
        if let Some(actual_number) = tokens.num {
            if actual_number != expected_number {
                let ghost before = moves_view(ret@);
                let target = tokens.make_filename_with_num(expected_number);
                ret.push((path.clone(), target));
                assert(moves_view(ret@) =~= before.push(
                    (path@, renumbered_path(tokens@, expected_number as int)),
                ));
            }
            expected_number += 1;
        }
        i += 1;
    }
    assert(entries.take(move_vec.len() as int) =~= entries);
    ret
}

/// The move plan that renumbers the files of one kind by age: the oldest
/// becomes number 1.
#[verifier::rlimit(40)]
pub fn movers_for_type(files: Vec<PathAndTokens>) -> (plan: Result<RenameActions, TmpNameError>)
    requires
        files.len() < i32::MAX,
    ensures
        is_plan_of(plan_view(plan), movers(by_age(entries_view(files@)))),
{
    let ghost entries = entries_view(files@);
    let mut keys: Vec<i128> = Vec::new();
    let mut i: usize = 0;
    while i < files.len()
        invariant
            i <= files.len(),
            entries == entries_view(files@),
            key_ints(keys@) == ages(entries).take(i as int),
        decreases files.len() - i,
    {
        let ghost before = key_ints(keys@);
        keys.push(files[i].1.mtime);
        assert(key_ints(keys@) =~= before.push(files@[i as int].1.mtime as int));
        assert(ages(entries).take(i + 1) =~= ages(entries).take(i as int).push(
            files@[i as int].1.mtime as int,
        ));
        i += 1;
    }
    assert(ages(entries).take(files.len() as int) =~= ages(entries));
    let order = order_by_key(keys);
    let mut mtime_vec: Vec<PathAndTokens> = Vec::new();
    let mut a: usize = 0;
    while a < order.len()
        invariant
            a <= order.len(),
            order@.len() == files@.len(),
            entries == entries_view(files@),
            is_stable_order(entries.len(), by_key(ages(entries)), order@),
            entries_view(mtime_vec@) == reorder(entries, order@).take(a as int),
        decreases order.len() - a,
    {
        let ghost before = entries_view(mtime_vec@);
        let pos = order[a];
        mtime_vec.push((files[pos].0.clone(), files[pos].1.duplicate()));
        assert(entries_view(mtime_vec@) =~= before.push(entries[pos as int]));
        assert(reorder(entries, order@).take(a + 1) =~= reorder(entries, order@).take(
            a as int,
        ).push(entries[pos as int]));
        a += 1;
    }
    assert(reorder(entries, order@).take(order.len() as int) =~= reorder(entries, order@));
    make_move_list(find_movers(&mtime_vec))
}


/// The plan for the first request with the plan for the second behind it;
/// the first refusal where one of them is refused.
pub open spec fn both_plans(
    first: Result<Seq<Move>, TmpNameError>,
    second: Result<Seq<Move>, TmpNameError>,
) -> Result<Seq<Move>, TmpNameError> {
    match first {
        Err(e) => Err(e),
        Ok(first) => match second {
            Err(e) => Err(e),
            Ok(second) => Ok(first + second),
        },
    }
}

/// What is owed for two requests that are planned one after the other:
/// the plan of the scheduler for the first with its plan for the second
/// behind it, each of them what the scheduler owes; the second is not
/// looked at where the first is refused.
pub open spec fn is_double_plan(
    plan: Result<Seq<Move>, TmpNameError>,
    first: Seq<Move>,
    second: Seq<Move>,
) -> bool {
    &&& plan == both_plans(schedule(first), schedule(second))
    &&& is_schedule(schedule(first), first, parkings_for(first))
    &&& schedule(first) is Ok ==> is_schedule(schedule(second), second, parkings_for(second))
}

/// The move plan that renumbers a directory by age: the plan for the
/// untagged files, then the plan for the tagged files. The directory is
/// taken to be consolidated; files outside the naming scheme stay as they
/// are.
pub fn actions(file_map: crate::dir::FileTokenMap) -> (plan: Result<RenameActions, TmpNameError>)
    requires
        file_map.untagged.len() < i32::MAX,
        file_map.tagged.len() < i32::MAX,
    ensures
        is_double_plan(
            plan_view(plan),
            movers(by_age(file_map@.untagged)),
            movers(by_age(file_map@.tagged)),
        ),
{
    let mut untagged = match movers_for_type(file_map.untagged) {
        Ok(plan) => plan,
        Err(e) => {
            return Err(e);
        },
    };
    let mut tagged = match movers_for_type(file_map.tagged) {
        Ok(plan) => plan,
        Err(e) => {
            return Err(e);
        },
    };
    let ghost first = moves_view(untagged@);
    let ghost second = moves_view(tagged@);
    untagged.append(&mut tagged);
    assert(moves_view(untagged@) =~= first + second);
    Ok(untagged)
}

} // verus!
