//! Consolidation: the renames that close the holes in the numbering of a
//! directory and give every rogue file a number.
//!
//! The numbered files with the highest numbers are pulled down into the
//! lowest holes, and the rogue files follow behind the numbered ones. Tags
//! and extensions are kept.

use crate::dir::{
    classify_listing, hole_list_of, holes_below, is_numbered_name, lemma_holes_below,
    lemma_max_number, max_number, named_files, pick_numbers, pick_paths, BucketView, FilesInDir,
    FilesInDirSubtype, ListedFile, NamedFile,
};
use crate::dir_num_by_age::{is_plan_of, make_move_list, plan_view, TmpNameError};
use crate::file::{name_is_tagged, name_number, path_number, PathExt};
use crate::order::{
    by_key, is_preorder, is_stable_order, key_ints, lemma_reorder, lemma_sorted_numbers,
    lemma_sorted_texts, lemma_stable_order_exists, order_by_key, reorder, stable_order_of,
};
use crate::paths::path_file_name;
use crate::paths::{path_extension, path_join};
use crate::text::views;
use crate::types::{moves_view, Move, RenameActions};
use vstd::prelude::*;

verus! {

/// The key by which numbered files are put in order: the sequence number,
/// and -1 for a file without one, which so comes first.
pub open spec fn index_key(path: Seq<char>) -> int {
    match path_number(path) {
        Some(n) => n,
        None => -1,
    }
}

/// The index keys of a list of files.
pub open spec fn index_keys(files: Seq<Seq<char>>) -> Seq<int> {
    files.map_values(|path: Seq<char>| index_key(path))
}

/// The files in ascending order of their sequence numbers, files with the
/// same number in the order given.
pub open spec fn by_index(files: Seq<Seq<char>>) -> Seq<Seq<char>> {
    reorder(files, stable_order_of(files.len(), by_key(index_keys(files))))
}

/// The path that `file` gets under number `num` in a bucket: the numbered
/// name of the bucket with the extension of the file, in the directory of
/// the bucket.
pub open spec fn target_path(bucket: BucketView, file: Seq<char>, num: int) -> Seq<char> {
    path_join(
        bucket.dirname,
        crate::dir::numbered_name(bucket.basename, num, path_extension(file)),
    )
}

/// The renames that fill the first `count` holes. Hole `i` is offered to
/// the file `i` places from the top, and the file takes it if its number is
/// greater than the hole.
pub open spec fn hole_moves(
    bucket: BucketView,
    files: Seq<Seq<char>>,
    holes: Seq<i32>,
    count: int,
) -> Seq<Move>
    decreases count,
{
    if count <= 0 {
        Seq::<Move>::empty()
    } else {
        let before = hole_moves(bucket, files, holes, count - 1);
        let hole = holes[count - 1];
        let file = files[files.len() - count];
        match path_number(file) {
            Some(n) => if n > hole {
                before.push((file, target_path(bucket, file, hole as int)))
            } else {
                before
            },
            None => before,
        }
    }
}

/// The renames that number the rogue files: in their order, from `start`
/// upwards.
pub open spec fn rogue_moves(bucket: BucketView, start: int) -> Seq<Move> {
    Seq::new(
        bucket.rogue_files.len(),
        |i: int| (bucket.rogue_files[i], target_path(bucket, bucket.rogue_files[i], start + i)),
    )
}

/// How many holes are offered: as many as there are holes and files to
/// take them.
pub open spec fn offered(files: int, holes: int) -> int {
    if files < holes {
        files
    } else {
        holes
    }
}

/// The renames that consolidate one kind of files: the highest numbered
/// files go into the lowest holes, and the rogue files get the numbers
/// behind the numbered files.
pub open spec fn consolidation(bucket: BucketView) -> Seq<Move> {
    let files = by_index(bucket.numbered_files);
    let holes = hole_list_of(bucket.numbers);
    hole_moves(bucket, files, holes, offered(files.len() as int, holes.len() as int))
        + rogue_moves(bucket, files.len() as int + 1)
}

/// The numbered files of a bucket in ascending order of their numbers.
#[verifier::rlimit(40)]
pub fn files_by_index(numbered_files: &Vec<String>) -> (sorted: Vec<String>)
    ensures
        views(sorted@) == by_index(views(numbered_files@)),
        sorted.len() == numbered_files.len(),
{
    let ghost files = views(numbered_files@);
    let mut keys: Vec<i128> = Vec::new();
    let mut i: usize = 0;
    while i < numbered_files.len()
        invariant
            i <= numbered_files.len(),
            files == views(numbered_files@),
            key_ints(keys@) == index_keys(files).take(i as int),
        decreases numbered_files.len() - i,
    {
        let ghost before = key_ints(keys@);
        let key: i128 = match numbered_files[i].get_number() {
            Some(n) => n as i128,
            None => -1,
        };
        keys.push(key);
        assert(key_ints(keys@) =~= before.push(index_key(files[i as int])));
        assert(index_keys(files).take(i + 1) =~= index_keys(files).take(i as int).push(
            index_key(files[i as int]),
        ));
        i += 1;
    }
    assert(index_keys(files).take(numbered_files.len() as int) =~= index_keys(files));
    let order = order_by_key(keys);
    let mut sorted: Vec<String> = Vec::new();
    let mut a: usize = 0;
    while a < order.len()
        invariant
            a <= order.len(),
            order@.len() == numbered_files@.len(),
            files == views(numbered_files@),
            is_stable_order(files.len(), by_key(index_keys(files)), order@),
            views(sorted@) == reorder(files, order@).take(a as int),
        decreases order.len() - a,
    {
        let ghost before = views(sorted@);
        let pos = order[a];
        sorted.push(numbered_files[pos].clone());
        assert(views(sorted@) =~= before.push(files[pos as int]));
        assert(reorder(files, order@).take(a + 1) =~= reorder(files, order@).take(a as int).push(
            files[pos as int],
        ));
        a += 1;
    }
    assert(reorder(files, order@).take(order.len() as int) =~= reorder(files, order@));
    assert(views(sorted@).len() == order.len());
    sorted
}

/// The renames that consolidate one kind of files.
#[verifier::rlimit(40)]
pub fn consolidate_actions_for_base(files: FilesInDirSubtype) -> (actions: RenameActions)
    requires
        files.numbered_files.len() + files.rogue_files.len() < i32::MAX,
    ensures
        moves_view(actions@) == consolidation(files@),
{
    let mut ret: RenameActions = Vec::new();
    let sorted = files_by_index(&files.numbered_files);
    let ghost bucket = files@;
    let ghost ordered = views(sorted@);
    let numbered_len = sorted.len();
    let hole_list = files.hole_list();
    let min_len = if numbered_len < hole_list.len() {
        numbered_len
    } else {
        hole_list.len()
    };
    let mut i: usize = 0;
    while i < min_len
        invariant
            i <= min_len,
            min_len <= numbered_len,
            min_len <= hole_list.len(),
            numbered_len == sorted.len(),
            bucket == files@,
            ordered == views(sorted@),
            moves_view(ret@) == hole_moves(bucket, ordered, hole_list@, i as int),
        decreases min_len - i,
    {
        let hole = hole_list[i];
        let index = numbered_len - 1 - i;
        let source = &sorted[index];
        assert(ordered[ordered.len() - (i + 1)] == source@);
        if let Some(file_num) = source.get_number() {
            if file_num > hole {
                let ghost before = moves_view(ret@);
                let target = files.fname_from_stem(source.as_str(), hole);
                ret.push((source.clone(), target));
                assert(moves_view(ret@) =~= before.push(
                    (source@, target_path(bucket, source@, hole as int)),
                ));
            }
        }
        i += 1;
    }
    let ghost closing = moves_view(ret@);
    let starting_index: i32 = numbered_len as i32 + 1;
    let mut k: usize = 0;
    while k < files.rogue_files.len()
        invariant
            k <= files.rogue_files.len(),
            numbered_len + files.rogue_files.len() < i32::MAX,
            starting_index == numbered_len + 1,
            bucket == files@,
            moves_view(ret@) == closing + rogue_moves(bucket, starting_index as int).take(
                k as int,
            ),
        decreases files.rogue_files.len() - k,
    {
        let file = &files.rogue_files[k];
        let index: i32 = starting_index + k as i32;
        let ghost before = moves_view(ret@);
        let target = files.fname_from_stem(file.as_str(), index);
        ret.push((file.clone(), target));
        proof {
            let all = rogue_moves(bucket, starting_index as int);
            assert(bucket.rogue_files[k as int] == file@);
            assert(all[k as int] == (file@, target_path(bucket, file@, index as int)));
            assert(all.take(k + 1) =~= all.take(k as int).push(all[k as int]));
            assert(moves_view(ret@) =~= before.push(all[k as int]));
            assert(closing + all.take(k + 1) =~= (closing + all.take(k as int)).push(
                all[k as int],
            ));
        }
        k += 1;
    }
    proof {
        let all = rogue_moves(bucket, starting_index as int);
        assert(all.take(files.rogue_files.len() as int) =~= all);
    }
    ret
}

/// The renames that consolidate a directory: those for the untagged files,
/// then those for the tagged files.
pub fn actions(files: FilesInDir) -> (actions: RenameActions)
    requires
        files.untagged.numbered_files.len() + files.untagged.rogue_files.len() < i32::MAX,
        files.tagged.numbered_files.len() + files.tagged.rogue_files.len() < i32::MAX,
    ensures
        moves_view(actions@) == consolidation(files@.untagged) + consolidation(files@.tagged),
{
    let ghost untagged = files@.untagged;
    let ghost tagged = files@.tagged;
    let mut actions = consolidate_actions_for_base(files.untagged);
    let mut tagged_actions = consolidate_actions_for_base(files.tagged);
    let ghost first = moves_view(actions@);
    let ghost second = moves_view(tagged_actions@);
    actions.append(&mut tagged_actions);
    assert(moves_view(actions@) =~= first + second);
    actions
}


/// The move plan that consolidates a directory: the renames for both kinds
/// of files, in an order in which they can be carried out.
pub fn plan(files: FilesInDir) -> (plan: Result<RenameActions, TmpNameError>)
    requires
        files.untagged.numbered_files.len() + files.untagged.rogue_files.len() < i32::MAX,
        files.tagged.numbered_files.len() + files.tagged.rogue_files.len() < i32::MAX,
    ensures
        is_plan_of(
            plan_view(plan),
            consolidation(files@.untagged) + consolidation(files@.tagged),
        ),
{
    make_move_list(actions(files))
}


/// The numbers that the renames into holes give out, in the order of the
/// renames.
pub open spec fn hole_numbers(files: Seq<Seq<char>>, holes: Seq<i32>, count: int) -> Seq<int>
    decreases count,
{
    if count <= 0 {
        Seq::<int>::empty()
    } else {
        let before = hole_numbers(files, holes, count - 1);
        let hole = holes[count - 1];
        match path_number(files[files.len() - count]) {
            Some(n) => if n > hole {
                before.push(hole as int)
            } else {
                before
            },
            None => before,
        }
    }
}

/// The numbers that a consolidation gives out, in the order of its
/// renames: holes first, then the numbers behind the numbered files.
pub open spec fn consolidation_numbers(bucket: BucketView) -> Seq<int> {
    let files = by_index(bucket.numbered_files);
    let holes = hole_list_of(bucket.numbers);
    hole_numbers(files, holes, offered(files.len() as int, holes.len() as int)) + Seq::new(
        bucket.rogue_files.len(),
        |k: int| files.len() + 1 + k,
    )
}

/// How many of the numbers from 1 up to but not including `bound` are in
/// use.
pub open spec fn used_below(numbers: Seq<i32>, bound: int) -> nat
    decreases bound,
{
    if bound <= 1 {
        0
    } else if numbers.contains((bound - 1) as i32) {
        used_below(numbers, bound - 1) + 1
    } else {
        used_below(numbers, bound - 1)
    }
}

/// How many of the first `upto` keys lie below `bound`.
pub open spec fn keys_below(keys: Seq<int>, bound: int, upto: nat) -> nat
    decreases upto,
{
    if upto == 0 || upto > keys.len() {
        0
    } else if keys[upto - 1] < bound {
        keys_below(keys, bound, (upto - 1) as nat) + 1
    } else {
        keys_below(keys, bound, (upto - 1) as nat)
    }
}

/// A number from 1 up to a bound is in use or a hole.
proof fn lemma_used_or_hole(numbers: Seq<i32>, bound: int)
    requires
        1 <= bound <= i32::MAX,
    ensures
        holes_below(numbers, bound).len() + used_below(numbers, bound) == bound - 1,
    decreases bound,
{
    if bound > 1 {
        lemma_used_or_hole(numbers, bound - 1);
    }
}

/// The holes below a bound are the first of the holes below a greater
/// bound.
proof fn lemma_holes_prefix(numbers: Seq<i32>, bound: int, greater: int)
    requires
        bound <= greater <= i32::MAX,
    ensures
        holes_below(numbers, bound).len() <= holes_below(numbers, greater).len(),
        holes_below(numbers, bound) == holes_below(numbers, greater).take(
            holes_below(numbers, bound).len() as int,
        ),
    decreases greater - bound,
{
    let short = holes_below(numbers, bound);
    if bound == greater {
        assert(short.take(short.len() as int) =~= short);
    } else {
        lemma_holes_prefix(numbers, bound, greater - 1);
        let middle = holes_below(numbers, greater - 1);
        let long = holes_below(numbers, greater);
        if greater - 1 <= 0 {
            assert(short =~= long.take(short.len() as int));
        } else {
            assert(middle =~= long.take(middle.len() as int));
            assert(short =~= long.take(short.len() as int));
        }
    }
}

/// The hole at position `i` has `i` holes below it.
#[verifier::rlimit(40)]
proof fn lemma_hole_position(numbers: Seq<i32>, i: int)
    requires
        0 <= i < hole_list_of(numbers).len(),
    ensures
        holes_below(numbers, hole_list_of(numbers)[i] as int).len() == i,
{
    let top = max_number(numbers);
    if numbers.len() > 0 {
        lemma_max_number(numbers);
    }
    let holes = hole_list_of(numbers);
    let h = holes[i] as int;
    lemma_holes_below(numbers, top);
    lemma_holes_below(numbers, h);
    lemma_holes_below(numbers, h + 1);
    lemma_holes_prefix(numbers, h, top);
    lemma_holes_prefix(numbers, h + 1, top);
    let below = holes_below(numbers, h);
    let upto = holes_below(numbers, h + 1);
    assert(holes.contains(holes[i]));
    assert(upto == below.push(h as i32));
    assert(upto[below.len() as int] == h);
    assert(holes[below.len() as int] == upto[below.len() as int]);
    // The holes ascend, so `h` stands at one position only.
    if below.len() < i {
        assert(holes[below.len() as int] < holes[i]);
    }
    if below.len() > i {
        assert(holes[i] < holes[below.len() as int]);
    }
}

/// A key counts once more below the next bound.
proof fn lemma_keys_below_next(keys: Seq<int>, bound: int, upto: nat, at: int)
    requires
        0 <= at < upto <= keys.len(),
        keys[at] == bound,
    ensures
        keys_below(keys, bound + 1, upto) >= keys_below(keys, bound, upto) + 1,
    decreases upto,
{
    if at == upto - 1 {
        lemma_keys_below_grows(keys, bound, (upto - 1) as nat);
    } else {
        lemma_keys_below_next(keys, bound, (upto - 1) as nat, at);
    }
}

/// No fewer keys lie below the next bound.
proof fn lemma_keys_below_grows(keys: Seq<int>, bound: int, upto: nat)
    requires
        upto <= keys.len(),
    ensures
        keys_below(keys, bound + 1, upto) >= keys_below(keys, bound, upto),
    decreases upto,
{
    if upto > 0 {
        lemma_keys_below_grows(keys, bound, (upto - 1) as nat);
    }
}

/// Where every number in use is a key, no more numbers are in use below a
/// bound than keys lie below it.
proof fn lemma_used_are_keys(numbers: Seq<i32>, keys: Seq<int>, bound: int)
    requires
        bound <= i32::MAX,
        forall|v: i32|
            numbers.contains(v) ==> exists|a: int| 0 <= a < keys.len() && #[trigger] keys[a] == v,
    ensures
        used_below(numbers, bound) <= keys_below(keys, bound, keys.len()),
    decreases bound,
{
    if bound > 1 {
        lemma_used_are_keys(numbers, keys, bound - 1);
        lemma_keys_below_grows(keys, bound - 1, keys.len());
        let v = (bound - 1) as i32;
        if numbers.contains(v) {
            let a = choose|a: int| 0 <= a < keys.len() && #[trigger] keys[a] == v;
            lemma_keys_below_next(keys, bound - 1, keys.len(), a);
        }
    }
}

/// In ascending keys, the keys below a bound stand in front of a key that
/// is not below it.
proof fn lemma_keys_below_front(keys: Seq<int>, bound: int, at: int, upto: nat)
    requires
        0 <= at < keys.len(),
        at <= upto <= keys.len(),
        keys[at] >= bound,
        forall|a: int, b: int| 0 <= a < b < keys.len() ==> keys[a] <= keys[b],
    ensures
        keys_below(keys, bound, upto) <= at,
    decreases upto,
{
    if upto > at {
        lemma_keys_below_front(keys, bound, at, (upto - 1) as nat);
        if upto - 1 > at {
            assert(keys[at] <= keys[upto - 1]);
        }
    } else {
        lemma_keys_below_count(keys, bound, upto);
    }
}

/// No more keys lie below a bound than there are keys.
proof fn lemma_keys_below_count(keys: Seq<int>, bound: int, upto: nat)
    requires
        upto <= keys.len(),
    ensures
        keys_below(keys, bound, upto) <= upto,
    decreases upto,
{
    if upto > 0 {
        lemma_keys_below_count(keys, bound, (upto - 1) as nat);
    }
}

/// A hole that a file moves into is no greater than the number of files.
proof fn lemma_taken_hole_is_low(numbers: Seq<i32>, keys: Seq<int>, i: int)
    requires
        0 <= i < hole_list_of(numbers).len(),
        i < keys.len(),
        forall|a: int, b: int| 0 <= a < b < keys.len() ==> keys[a] <= keys[b],
        forall|v: i32|
            numbers.contains(v) ==> exists|a: int| 0 <= a < keys.len() && #[trigger] keys[a] == v,
        keys[keys.len() - 1 - i] > hole_list_of(numbers)[i],
    ensures
        1 <= hole_list_of(numbers)[i] <= keys.len(),
{
    let h = hole_list_of(numbers)[i] as int;
    if numbers.len() > 0 {
        lemma_max_number(numbers);
    }
    lemma_holes_below(numbers, max_number(numbers));
    lemma_hole_position(numbers, i);
    lemma_used_or_hole(numbers, h);
    lemma_used_are_keys(numbers, keys, h);
    lemma_keys_below_front(keys, h, keys.len() - 1 - i, keys.len());
}

/// The files in the order of their numbers have ascending keys, and their
/// keys are the keys of the files.
pub proof fn lemma_by_index(files: Seq<Seq<char>>)
    requires
        files.len() <= usize::MAX,
    ensures
        by_index(files).len() == files.len(),
        forall|a: int, b: int|
            0 <= a < b < files.len() ==> index_key(#[trigger] by_index(files)[a]) <= index_key(
                #[trigger] by_index(files)[b],
            ),
        forall|i: int| 0 <= i < files.len() ==> by_index(files).contains(#[trigger] files[i]),
        forall|a: int| 0 <= a < files.len() ==> files.contains(#[trigger] by_index(files)[a]),
{
    let le = by_key(index_keys(files));
    assert(is_preorder(files.len(), le));
    lemma_stable_order_exists(files.len(), le);
    let order = stable_order_of(files.len(), le);
    lemma_reorder(files, le, order);
    assert forall|a: int, b: int| 0 <= a < b < files.len() implies index_key(
        #[trigger] by_index(files)[a],
    ) <= index_key(#[trigger] by_index(files)[b]) by {
        assert(le(order[a] as int, order[b] as int));
    }
}

/// What is known of the numbers that fill holes: there is one for each
/// rename into a hole, each is the number in the destination of its rename,
/// they ascend, and none is greater than the last hole offered nor than the
/// number of files.
#[verifier::rlimit(40)]
proof fn lemma_hole_numbers(bucket: BucketView, files: Seq<Seq<char>>, count: int)
    requires
        0 <= count <= offered(files.len() as int, hole_list_of(bucket.numbers).len() as int),
        forall|a: int, b: int|
            0 <= a < b < files.len() ==> index_key(#[trigger] files[a]) <= index_key(
                #[trigger] files[b],
            ),
        forall|v: i32|
            bucket.numbers.contains(v) ==> exists|a: int|
                0 <= a < files.len() && #[trigger] index_key(files[a]) == v,
    ensures
        hole_numbers(files, hole_list_of(bucket.numbers), count).len() == hole_moves(
            bucket,
            files,
            hole_list_of(bucket.numbers),
            count,
        ).len(),
        forall|x: int|
            0 <= x < hole_numbers(files, hole_list_of(bucket.numbers), count).len() ==> ({
                let m = #[trigger] hole_moves(
                    bucket,
                    files,
                    hole_list_of(bucket.numbers),
                    count,
                )[x];
                let number = hole_numbers(files, hole_list_of(bucket.numbers), count)[x];
                &&& m.1 == target_path(bucket, m.0, number)
                &&& 1 <= number <= files.len()
                &&& count > 0 ==> number <= hole_list_of(bucket.numbers)[count - 1]
            }),
        forall|x: int, y: int|
            0 <= x < y < hole_numbers(files, hole_list_of(bucket.numbers), count).len()
                ==> hole_numbers(files, hole_list_of(bucket.numbers), count)[x] < hole_numbers(
                files,
                hole_list_of(bucket.numbers),
                count,
            )[y],
    decreases count,
{
    let holes = hole_list_of(bucket.numbers);
    if count > 0 {
        lemma_hole_numbers(bucket, files, count - 1);
        if bucket.numbers.len() > 0 {
            lemma_max_number(bucket.numbers);
        }
        lemma_holes_below(bucket.numbers, max_number(bucket.numbers));
        let before = hole_numbers(files, holes, count - 1);
        let now = hole_numbers(files, holes, count);
        let hole = holes[count - 1];
        let file = files[files.len() - count];
        if count > 1 {
            assert(holes[count - 2] < holes[count - 1]);
        }
        if path_number(file) matches Some(n) && n > hole {
            let keys = index_keys(files);
            assert(keys[keys.len() - 1 - (count - 1)] == index_key(file));
            assert forall|a: int, b: int| 0 <= a < b < keys.len() implies keys[a] <= keys[b] by {
                assert(index_key(files[a]) <= index_key(files[b]));
            }
            assert forall|v: i32| bucket.numbers.contains(v) implies exists|a: int|
                0 <= a < keys.len() && #[trigger] keys[a] == v by {
                let a = choose|a: int| 0 <= a < files.len() && #[trigger] index_key(files[a]) == v;
                assert(keys[a] == v);
            }
            lemma_taken_hole_is_low(bucket.numbers, keys, count - 1);
            assert(now == before.push(hole as int));
            assert forall|x: int, y: int| 0 <= x < y < now.len() implies now[x] < now[y] by {
                if y == before.len() {
                    let m = hole_moves(bucket, files, holes, count - 1)[x];
                    assert(before[x] <= holes[count - 2]);
                } else {
                    assert(before[x] < before[y]);
                }
            }
        }
        let moves_before = hole_moves(bucket, files, holes, count - 1);
        let moves_now = hole_moves(bucket, files, holes, count);
        assert forall|x: int| 0 <= x < now.len() implies ({
            let m = #[trigger] moves_now[x];
            &&& m.1 == target_path(bucket, m.0, now[x])
            &&& 1 <= now[x] <= files.len()
            &&& now[x] <= holes[count - 1]
        }) by {
            if x < before.len() {
                let m = moves_before[x];
                assert(moves_now[x] == m);
                assert(now[x] == before[x]);
                assert(before[x] <= holes[count - 2]);
            }
        }
    }
}

/// Every number in use is the number of one of the numbered files.
pub open spec fn numbers_are_of_files(bucket: BucketView) -> bool {
    forall|v: i32|
        bucket.numbers.contains(v) ==> exists|a: int|
            0 <= a < bucket.numbered_files.len() && #[trigger] index_key(
                bucket.numbered_files[a],
            ) == v
}

/// A consolidation gives every file a number of its own.
///
/// The numbers that a consolidation gives out differ from each other: the
/// holes are different holes, none of them is greater than the number of
/// numbered files, and the rogue files get the numbers behind that. Each
/// rename leads to the path for its number. This holds of a bucket in
/// which every number in use is the number of one of its numbered files.
#[verifier::rlimit(40)]
pub proof fn lemma_consolidation_numbers(bucket: BucketView)
    requires
        bucket.numbered_files.len() <= usize::MAX,
        numbers_are_of_files(bucket),
    ensures
        consolidation_numbers(bucket).len() == consolidation(bucket).len(),
        forall|x: int|
            0 <= x < consolidation(bucket).len() ==> (#[trigger] consolidation(bucket)[x]).1
                == target_path(
                bucket,
                consolidation(bucket)[x].0,
                consolidation_numbers(bucket)[x],
            ),
        forall|x: int, y: int|
            0 <= x < y < consolidation_numbers(bucket).len() ==> consolidation_numbers(bucket)[x]
                != consolidation_numbers(bucket)[y],
{
    let files = by_index(bucket.numbered_files);
    let holes = hole_list_of(bucket.numbers);
    let count = offered(files.len() as int, holes.len() as int);
    lemma_by_index(bucket.numbered_files);
    assert forall|v: i32| bucket.numbers.contains(v) implies exists|a: int|
        0 <= a < files.len() && #[trigger] index_key(files[a]) == v by {
        let i = choose|i: int|
            0 <= i < bucket.numbered_files.len() && #[trigger] index_key(
                bucket.numbered_files[i],
            ) == v;
        assert(files.contains(bucket.numbered_files[i]));
        let a = choose|a: int| 0 <= a < files.len() && files[a] == bucket.numbered_files[i];
        assert(index_key(files[a]) == v);
    }
    lemma_hole_numbers(bucket, files, count);
    let into_holes = hole_numbers(files, holes, count);
    let numbers = consolidation_numbers(bucket);
    let moves = consolidation(bucket);
    assert forall|x: int| 0 <= x < moves.len() implies (#[trigger] moves[x]).1 == target_path(
        bucket,
        moves[x].0,
        numbers[x],
    ) by {
        if x < into_holes.len() {
            assert(moves[x] == hole_moves(bucket, files, holes, count)[x]);
        } else {
            let k = x - into_holes.len();
            assert(moves[x] == rogue_moves(bucket, files.len() as int + 1)[k]);
        }
    }
    assert forall|x: int, y: int| 0 <= x < y < numbers.len() implies numbers[x] != numbers[y] by {
        if y < into_holes.len() {
            assert(into_holes[x] < into_holes[y]);
        } else if x < into_holes.len() {
            let m = hole_moves(bucket, files, holes, count)[x];
            assert(numbers[x] == into_holes[x]);
            assert(numbers[x] <= files.len());
        }
    }
}


/// Each named file carries the final component of its path as its name.
proof fn lemma_named_files(files: Seq<ListedFile>, k: int)
    requires
        named_files(files) is Some,
        0 <= k < named_files(files)->Some_0.len(),
    ensures
        path_file_name(named_files(files)->Some_0[k].0) == Some(named_files(files)->Some_0[k].1),
    decreases files.len(),
{
    if files.len() > 0 {
        let before = named_files(files.drop_last())->Some_0;
        if k < before.len() {
            lemma_named_files(files.drop_last(), k);
        }
    }
}

/// A number that was picked is the number of a file that was picked.
#[verifier::rlimit(40)]
proof fn lemma_picked_number(
    files: Seq<NamedFile>,
    base: Seq<char>,
    tag: Seq<char>,
    tagged: bool,
    v: i32,
) -> (k: int)
    requires
        pick_numbers(files, base, tag, tagged).contains(v),
    ensures
        0 <= k < files.len(),
        is_numbered_name(files[k].1, base, tag),
        name_is_tagged(files[k].1, tag) == tagged,
        name_number(files[k].1) matches Some(n) && n as i32 == v,
        pick_paths(files, base, tag, true, tagged).contains(files[k].0),
    decreases files.len(),
{
    let picked = pick_numbers(files, base, tag, tagged);
    let i = choose|i: int| 0 <= i < picked.len() && picked[i] == v;
    let before = pick_numbers(files.drop_last(), base, tag, tagged);
    let paths = pick_paths(files, base, tag, true, tagged);
    let paths_before = pick_paths(files.drop_last(), base, tag, true, tagged);
    if i < before.len() {
        assert(before[i] == v);
        let k = lemma_picked_number(files.drop_last(), base, tag, tagged, v);
        let a = choose|a: int| 0 <= a < paths_before.len() && paths_before[a] == files[k].0;
        assert(paths[a] == files[k].0);
        k
    } else {
        assert(paths[paths.len() - 1] == files.last().0);
        files.len() - 1
    }
}

/// In a directory that was classified, every number in use is the number
/// of one of the numbered files of its kind. So a consolidation of such a
/// directory gives every file a number of its own.
pub proof fn lemma_classified_numbers(dir: Seq<char>, files: Seq<ListedFile>, tag: Seq<char>)
    requires
        files.len() <= usize::MAX,
        classify_listing(dir, files, tag) is Ok,
    ensures
        numbers_are_of_files(classify_listing(dir, files, tag)->Ok_0.tagged),
        numbers_are_of_files(classify_listing(dir, files, tag)->Ok_0.untagged),
{
    let sorted = classify_listing(dir, files, tag)->Ok_0;
    let base = path_file_name(dir)->Some_0;
    let named = named_files(files)->Some_0;
    lemma_named_count(files);
    lemma_bucket_numbers(files, named, base, tag, true);
    lemma_bucket_numbers(files, named, base, tag, false);
}

/// There are as many named files as files.
proof fn lemma_named_count(files: Seq<ListedFile>)
    requires
        named_files(files) is Some,
    ensures
        named_files(files)->Some_0.len() == files.len(),
    decreases files.len(),
{
    if files.len() > 0 {
        lemma_named_count(files.drop_last());
    }
}

/// No more files are picked than there are.
proof fn lemma_pick_counts(files: Seq<NamedFile>, base: Seq<char>, tag: Seq<char>, tagged: bool)
    ensures
        pick_paths(files, base, tag, true, tagged).len() <= files.len(),
        pick_numbers(files, base, tag, tagged).len() <= files.len(),
    decreases files.len(),
{
    if files.len() > 0 {
        lemma_pick_counts(files.drop_last(), base, tag, tagged);
    }
}

/// The numbers of one kind of a classified directory are numbers of its
/// numbered files.
#[verifier::rlimit(40)]
proof fn lemma_bucket_numbers(
    files: Seq<ListedFile>,
    named: Seq<NamedFile>,
    base: Seq<char>,
    tag: Seq<char>,
    tagged: bool,
)
    requires
        named_files(files) == Some(named),
        named.len() <= usize::MAX,
    ensures
        numbers_are_of_files(crate::dir::bucket_of(Seq::<char>::empty(), base, named, tag, tagged)),
        forall|dirname: Seq<char>|
            numbers_are_of_files(
                #[trigger] crate::dir::bucket_of(dirname, base, named, tag, tagged),
            ),
{
    let numbers = pick_numbers(named, base, tag, tagged);
    let paths = pick_paths(named, base, tag, true, tagged);
    lemma_pick_counts(named, base, tag, tagged);
    lemma_sorted_numbers(numbers);
    lemma_sorted_texts(paths);
    let sorted_numbers = crate::order::sorted_numbers(numbers);
    let sorted_paths = crate::order::sorted_texts(paths);
    assert forall|v: i32| sorted_numbers.contains(v) implies exists|a: int|
        0 <= a < sorted_paths.len() && #[trigger] index_key(sorted_paths[a]) == v by {
        let i = choose|i: int| 0 <= i < sorted_numbers.len() && sorted_numbers[i] == v;
        assert(numbers.contains(sorted_numbers[i]));
        let k = lemma_picked_number(named, base, tag, tagged, v);
        lemma_named_files(files, k);
        let p = choose|p: int| 0 <= p < paths.len() && paths[p] == named[k].0;
        assert(sorted_paths.contains(paths[p]));
        let a = choose|a: int| 0 <= a < sorted_paths.len() && sorted_paths[a] == paths[p];
        assert(index_key(sorted_paths[a]) == v);
    }
    assert forall|dirname: Seq<char>|
        numbers_are_of_files(
            #[trigger] crate::dir::bucket_of(dirname, base, named, tag, tagged),
        ) by {
        let bucket = crate::dir::bucket_of(dirname, base, named, tag, tagged);
        assert(bucket.numbers == sorted_numbers);
        assert(bucket.numbered_files == sorted_paths);
    }
}

} // verus!
