//! A directory of numbered files: which numbers are taken, which are free,
//! and what a file is called once it has a number.

use crate::dir_num_by_age::{entries_view, Entry, PathAndTokens};
use crate::file::{
    name_is_tagged, name_number, name_tagged, number_of_name, path_is_tagged, PathExt,
};
use crate::file_tokens::{padded_number, padded_number_chars, tokenize_path, FileTokens};
use crate::order::{sort_numbers, sort_strings, sorted_numbers, sorted_texts};
use crate::paths::{extension, file_name, join, path_extension, path_file_name, path_join};
use crate::pattern::{escape, escaped_text, regex_compiles, regex_is_match, Pattern};
use crate::text::{append_chars, chars_of, string_of, views};
use crate::types::{moves_view, Move, RenameActions};
use vstd::prelude::*;

verus! {

/// The files of one kind, tagged or untagged, in one directory.
#[derive(Debug)]
pub struct FilesInDirSubtype {
    /// The directory.
    pub dirname: String,
    /// What the name of a numbered file of this kind starts with.
    pub basename: String,
    /// The files that do not follow the naming scheme, in lexical order.
    pub rogue_files: Vec<String>,
    /// The files that follow the naming scheme, in lexical order.
    pub numbered_files: Vec<String>,
    /// The sequence numbers in use, in ascending order.
    pub numbers: Vec<i32>,
}

/// The files of one directory, by kind.
#[derive(Debug)]
pub struct FilesInDir {
    pub tagged: FilesInDirSubtype,
    pub untagged: FilesInDirSubtype,
}

/// Why a path cannot be a managed directory.
#[derive(Debug, Clone, Copy, PartialEq, Eq, Structural)]
pub enum DirError {
    /// The directory's path has no final component to take file names from.
    InvalidDirectoryName,
    /// The path of an entry has no final component.
    InvalidFileName,
    /// The naming scheme of the directory is no pattern.
    InvalidPattern,
}

/// The greatest of the numbers; zero where there are none.
pub open spec fn max_number(numbers: Seq<i32>) -> int
    decreases numbers.len(),
{
    if numbers.len() == 0 {
        0
    } else if numbers.len() == 1 {
        numbers[0] as int
    } else {
        let before = max_number(numbers.drop_last());
        if numbers.last() > before {
            numbers.last() as int
        } else {
            before
        }
    }
}

/// The numbers from 1 up to but not including `bound` that are not in use,
/// in ascending order.
pub open spec fn holes_below(numbers: Seq<i32>, bound: int) -> Seq<i32>
    decreases bound,
{
    if bound <= 1 {
        Seq::<i32>::empty()
    } else {
        let lower = holes_below(numbers, bound - 1);
        if numbers.contains((bound - 1) as i32) {
            lower
        } else {
            lower.push((bound - 1) as i32)
        }
    }
}

/// The holes: the numbers from 1 up to but not including the greatest
/// number in use that are not in use themselves, in ascending order.
pub open spec fn hole_list_of(numbers: Seq<i32>) -> Seq<i32> {
    holes_below(numbers, max_number(numbers))
}

/// The first free slot: the first hole; without a hole, the number after
/// the greatest in use; 1 where no number is in use.
pub open spec fn first_free_slot(numbers: Seq<i32>) -> int {
    let holes = hole_list_of(numbers);
    if holes.len() > 0 {
        holes[0] as int
    } else if numbers.len() == 0 {
        1
    } else {
        max_number(numbers) + 1
    }
}

/// The name of a numbered file: the base name, the padded number and, where
/// there is one, the extension, with dots between them.
pub open spec fn numbered_name(basename: Seq<char>, num: int, ext: Option<Seq<char>>) -> Seq<
    char,
> {
    let stem = basename.push('.') + padded_number(num);
    match ext {
        Some(ext) => stem.push('.') + ext,
        None => stem,
    }
}

/// The greatest number is one of the numbers, and none is greater.
pub proof fn lemma_max_number(numbers: Seq<i32>)
    requires
        numbers.len() > 0,
    ensures
        numbers.contains(max_number(numbers) as i32),
        i32::MIN <= max_number(numbers) <= i32::MAX,
        forall|i: int| 0 <= i < numbers.len() ==> #[trigger] numbers[i] <= max_number(numbers),
    decreases numbers.len(),
{
    if numbers.len() == 1 {
        assert(numbers[0] == max_number(numbers));
    } else {
        let init = numbers.drop_last();
        lemma_max_number(init);
        let m = max_number(init);
        let j = choose|j: int| 0 <= j < init.len() && init[j] == m as i32;
        assert(numbers[j] == init[j]);
        assert(numbers[numbers.len() - 1] == numbers.last());
        assert forall|i: int| 0 <= i < numbers.len() implies #[trigger] numbers[i] <= max_number(
            numbers,
        ) by {
            if i < init.len() {
                assert(numbers[i] == init[i]);
            }
        }
    }
}

/// What the holes below a bound are: they ascend, and a number is among
/// them exactly if it lies from 1 up to but not including the bound and is
/// not in use.
#[verifier::rlimit(40)]
pub proof fn lemma_holes_below(numbers: Seq<i32>, bound: int)
    requires
        bound <= i32::MAX,
    ensures
        forall|v: i32|
            holes_below(numbers, bound).contains(v) <==> (1 <= v < bound && !numbers.contains(v)),
        forall|a: int, b: int|
            0 <= a < b < holes_below(numbers, bound).len() ==> holes_below(numbers, bound)[a]
                < holes_below(numbers, bound)[b],
        forall|a: int|
            0 <= a < holes_below(numbers, bound).len() ==> 1 <= #[trigger] holes_below(
                numbers,
                bound,
            )[a] < bound,
    decreases bound,
{
    let holes = holes_below(numbers, bound);
    if bound <= 1 {
    } else {
        let lower = holes_below(numbers, bound - 1);
        lemma_holes_below(numbers, bound - 1);
        let top = (bound - 1) as i32;
        if numbers.contains(top) {
        } else {
            assert(holes == lower.push(top));
            assert(holes[lower.len() as int] == top);
            assert forall|v: i32| holes.contains(v) <==> (1 <= v < bound && !numbers.contains(
                v,
            )) by {
                if holes.contains(v) {
                    let a = choose|a: int| 0 <= a < holes.len() && holes[a] == v;
                    if a < lower.len() {
                        assert(lower[a] == v);
                        assert(lower.contains(v));
                    }
                }
                if 1 <= v < bound && !numbers.contains(v) {
                    if v == top {
                    } else {
                        assert(lower.contains(v));
                        let a = choose|a: int| 0 <= a < lower.len() && lower[a] == v;
                        assert(holes[a] == v);
                    }
                }
            }
        }
    }
}

/// What the hole list is.
///
/// Every hole is absent from the numbers in use, is at least 1 and lies
/// below the greatest number in use. The holes ascend, and no number from 1
/// up to the greatest is missing from both lists. The first free slot is
/// not in use.
pub proof fn lemma_hole_list(numbers: Seq<i32>)
    ensures
        forall|i: int|
            0 <= i < hole_list_of(numbers).len() ==> !numbers.contains(
                #[trigger] hole_list_of(numbers)[i],
            ),
        forall|i: int|
            0 <= i < hole_list_of(numbers).len() ==> 1 <= #[trigger] hole_list_of(numbers)[i]
                < max_number(numbers),
        forall|a: int, b: int|
            0 <= a < b < hole_list_of(numbers).len() ==> hole_list_of(numbers)[a] < hole_list_of(
                numbers,
            )[b],
        forall|v: i32|
            1 <= v < max_number(numbers) ==> numbers.contains(v) || hole_list_of(
                numbers,
            ).contains(v),
        forall|i: int| 0 <= i < numbers.len() ==> #[trigger] numbers[i] != first_free_slot(numbers),
{
    let holes = hole_list_of(numbers);
    let slot = first_free_slot(numbers);
    if numbers.len() > 0 {
        lemma_max_number(numbers);
    }
    lemma_holes_below(numbers, max_number(numbers));
    assert forall|i: int| 0 <= i < holes.len() implies !numbers.contains(#[trigger] holes[i]) by {
        assert(holes.contains(holes[i]));
    }
    assert forall|i: int| 0 <= i < numbers.len() implies #[trigger] numbers[i] != slot by {
        if holes.len() > 0 {
            assert(holes.contains(holes[0]));
            assert(numbers.contains(numbers[i]));
        }
    }
}

/// Holes, numbers and the first free slot do not repeat below the slot.
///
/// Of the holes, the numbers in use and the first free slot in one list, a
/// value below the slot occurs once. The numbers in use must not repeat
/// below the slot themselves.
#[verifier::rlimit(40)]
pub proof fn lemma_nothing_twice_below_slot(numbers: Seq<i32>)
    requires
        forall|i: int, j: int|
            0 <= i < numbers.len() && 0 <= j < numbers.len() && i != j && numbers[i]
                < first_free_slot(numbers) ==> numbers[i] != numbers[j],
    ensures
        ({
            let all = hole_list_of(numbers).map_values(|v: i32| v as int) + numbers.map_values(
                |v: i32| v as int,
            ) + seq![first_free_slot(numbers)];
            forall|i: int, j: int|
                0 <= i < all.len() && 0 <= j < all.len() && i != j && all[i] < first_free_slot(
                    numbers,
                ) ==> all[i] != all[j]
        }),
{
    let holes = hole_list_of(numbers);
    let slot = first_free_slot(numbers);
    lemma_hole_list(numbers);
    let all = holes.map_values(|v: i32| v as int) + numbers.map_values(|v: i32| v as int) + seq![
        slot,
    ];
    assert forall|i: int, j: int|
        0 <= i < all.len() && 0 <= j < all.len() && i != j && all[i] < slot implies all[i]
        != all[j] by {
        let h = holes.len() as int;
        let n = numbers.len() as int;
        // A hole is never below the slot, so `all[i]` is a number in use.
        if i < h {
            assert(all[i] == holes[i]);
            assert(holes[0] <= holes[i]);
        }
        if h <= i < h + n {
            assert(all[i] == numbers[i - h]);
            if j < h {
                assert(all[j] == holes[j]);
                assert(numbers.contains(numbers[i - h]));
            } else if j < h + n {
                assert(all[j] == numbers[j - h]);
            }
        }
    }
}

/// Whether `v` is among the numbers.
pub fn contains_number(numbers: &Vec<i32>, v: i32) -> (found: bool)
    ensures
        found == numbers@.contains(v),
{
    let mut i: usize = 0;
    while i < numbers.len()
        invariant
            i <= numbers.len(),
            forall|j: int| 0 <= j < i ==> numbers@[j] != v,
        decreases numbers.len() - i,
    {
        if numbers[i] == v {
            return true;
        }
        i += 1;
    }
    false
}

/// The greatest of the numbers; zero where there are none.
pub fn greatest_number(numbers: &Vec<i32>) -> (max: i32)
    ensures
        max == max_number(numbers@),
{
    if numbers.len() == 0 {
        return 0;
    }
    let mut max: i32 = numbers[0];
    let mut i: usize = 1;
    assert(numbers@.take(1) =~= seq![numbers@[0]]);
    while i < numbers.len()
        invariant
            1 <= i <= numbers.len(),
            max == max_number(numbers@.take(i as int)),
        decreases numbers.len() - i,
    {
        assert(numbers@.take(i + 1).drop_last() == numbers@.take(i as int));
        if numbers[i] > max {
            max = numbers[i];
        }
        i += 1;
    }
    assert(numbers@.take(numbers.len() as int) == numbers@);
    max
}

/// A number as it stands in a file name: filled with zeros on the left up
/// to four characters, and never cut.
pub fn pad_num(num: i32) -> (text: String)
    ensures
        text@ == padded_number(num as int),
{
    let chars = padded_number_chars(num);
    string_of(&chars)
}

/// The name of a numbered file: `basename.NNNN`, then a dot and the
/// extension where there is one.
pub fn numbered_file_name(basename: &str, num: i32, ext: Option<&str>) -> (name: String)
    ensures
        name@ == numbered_name(basename@, num as int, crate::file_tokens::opt_str_view(ext)),
{
    let mut chars = chars_of(basename);
    chars.push('.');
    let number = padded_number_chars(num);
    append_chars(&mut chars, &number);
    if let Some(ext) = ext {
        chars.push('.');
        let ext_chars = chars_of(ext);
        append_chars(&mut chars, &ext_chars);
    }
    string_of(&chars)
}

/// The final component of a path, which names the directory or file.
pub fn basename(path: &str) -> (name: Result<String, DirError>)
    ensures
        match name {
            Ok(name) => path_file_name(path@) == Some(name@),
            Err(e) => e == DirError::InvalidDirectoryName && path_file_name(path@) is None,
        },
{
    match file_name(path) {
        Some(name) => Ok(name),
        None => Err(DirError::InvalidDirectoryName),
    }
}

impl FilesInDirSubtype {
    /// A kind of file without any file yet.
    pub fn new(dirname: String, basename: &str) -> (files: Self)
        ensures
            files.dirname@ == dirname@,
            files.basename@ == basename@,
            files.rogue_files@.len() == 0,
            files.numbered_files@.len() == 0,
            files.numbers@.len() == 0,
    {
        FilesInDirSubtype {
            dirname,
            basename: basename.to_owned(),
            rogue_files: Vec::new(),
            numbered_files: Vec::new(),
            numbers: Vec::new(),
        }
    }

    /// The unused numbers below the greatest number in use, ascending.
    pub fn hole_list(&self) -> (holes: Vec<i32>)
        ensures
            holes@ == hole_list_of(self.numbers@),
    {
        let mut ret: Vec<i32> = Vec::new();
        let highest = greatest_number(&self.numbers);
        let mut i: i32 = 1;
        while i < highest
            invariant
                1 <= i,
                i <= highest || i == 1,
                ret@ == holes_below(self.numbers@, i as int),
            decreases highest - i,
        {
            if !contains_number(&self.numbers, i) {
                ret.push(i);
            }
            i += 1;
        }
        assert(holes_below(self.numbers@, i as int) == holes_below(
            self.numbers@,
            highest as int,
        )) by {
            if highest < 1 {
                lemma_no_holes_below_one(self.numbers@, highest as int);
            }
        }
        ret
    }

    /// The number that the next file of this kind gets.
    pub fn first_slot(&self) -> (slot: i32)
        requires
            max_number(self.numbers@) < i32::MAX,
        ensures
            slot == first_free_slot(self.numbers@),
    {
        let holes = self.hole_list();
        if holes.len() == 0 {
            if self.numbers.len() == 0 {
                1
            } else {
                greatest_number(&self.numbers) + 1
            }
        } else {
            holes[0]
        }
    }

    /// The path that `file` gets as number `num` of this kind: the numbered
    /// name with the extension of `file`, in this directory.
    pub fn fname_from_stem(&self, file: &str, num: i32) -> (path: String)
        ensures
            path@ == path_join(
                self.dirname@,
                numbered_name(self.basename@, num as int, path_extension(file@)),
            ),
    {
        let name = match extension(file) {
            Some(ext) => numbered_file_name(self.basename.as_str(), num, Some(ext.as_str())),
            None => numbered_file_name(self.basename.as_str(), num, None),
        };
        join(self.dirname.as_str(), name.as_str())
    }
}

/// Below 1 there are no holes.
pub proof fn lemma_no_holes_below_one(numbers: Seq<i32>, bound: int)
    requires
        bound <= 1,
    ensures
        holes_below(numbers, bound) == holes_below(numbers, 1),
{
}

/// The rename that gives `file` the number `slot` in the bucket named by
/// `dirname` and `basename`.
pub open spec fn retag_move(
    dirname: Seq<char>,
    basename: Seq<char>,
    slot: int,
    file: Seq<char>,
) -> Move {
    (file, path_join(dirname, numbered_name(basename, slot, path_extension(file))))
}

/// The renames that set the tag on `file`: none where it is tagged, else
/// the one that moves it to the first free slot among the tagged files.
pub open spec fn set_tag_moves(files: DirView, file: Seq<char>, tag: Seq<char>) -> Seq<Move> {
    if path_is_tagged(file, tag) {
        Seq::<Move>::empty()
    } else {
        seq![
            retag_move(
                files.tagged.dirname,
                files.tagged.basename,
                first_free_slot(files.tagged.numbers),
                file,
            ),
        ]
    }
}

/// The renames that take the tag off `file`: none where it is not tagged,
/// else the one that moves it to the first free slot among the untagged
/// files.
pub open spec fn unset_tag_moves(files: DirView, file: Seq<char>, tag: Seq<char>) -> Seq<Move> {
    if path_is_tagged(file, tag) {
        seq![
            retag_move(
                files.untagged.dirname,
                files.untagged.basename,
                first_free_slot(files.untagged.numbers),
                file,
            ),
        ]
    } else {
        Seq::<Move>::empty()
    }
}

impl FilesInDir {
    /// The two kinds of a directory, without any file yet: untagged files
    /// are called after the directory, tagged ones after the directory and
    /// the tag.
    pub fn new(dirname: String, dir_basename: &str, tag: &str) -> (files: Self)
        ensures
            files.untagged.dirname@ == dirname@,
            files.tagged.dirname@ == dirname@,
            files.untagged.basename@ == dir_basename@,
            files.tagged.basename@ == dir_basename@.push('.') + tag@,
            files.untagged.rogue_files@.len() == 0,
            files.untagged.numbered_files@.len() == 0,
            files.untagged.numbers@.len() == 0,
            files.tagged.rogue_files@.len() == 0,
            files.tagged.numbered_files@.len() == 0,
            files.tagged.numbers@.len() == 0,
    {
        let mut tagged_name = chars_of(dir_basename);
        tagged_name.push('.');
        let tag_chars = chars_of(tag);
        append_chars(&mut tagged_name, &tag_chars);
        let tagged_name = string_of(&tagged_name);
        FilesInDir {
            untagged: FilesInDirSubtype::new(dirname.clone(), dir_basename),
            tagged: FilesInDirSubtype::new(dirname, tagged_name.as_str()),
        }
    }

    /// Sets the tag on `file` if it has none, and takes it off if it has.
    pub fn flip_tag(&self, file: String, tag: &str) -> (actions: RenameActions)
        requires
            max_number(self.tagged.numbers@) < i32::MAX,
            max_number(self.untagged.numbers@) < i32::MAX,
        ensures
            moves_view(actions@) == if path_is_tagged(file@, tag@) {
                unset_tag_moves(self@, file@, tag@)
            } else {
                set_tag_moves(self@, file@, tag@)
            },
    {
        if file.is_tagged(tag) {
            self.unset_tag(file, tag)
        } else {
            self.set_tag(file, tag)
        }
    }

    /// Sets the tag on `file` unless it is tagged already.
    pub fn set_tag(&self, file: String, tag: &str) -> (actions: RenameActions)
        requires
            max_number(self.tagged.numbers@) < i32::MAX,
        ensures
            moves_view(actions@) == set_tag_moves(self@, file@, tag@),
    {
        let mut ret: RenameActions = Vec::new();
        if !file.is_tagged(tag) {
            let target = self.tagged.fname_from_stem(file.as_str(), self.tagged.first_slot());
            ret.push((file, target));
        }
        assert(moves_view(ret@) =~= set_tag_moves(self@, file@, tag@));
        ret
    }

    /// Takes the tag off `file` if it is tagged.
    pub fn unset_tag(&self, file: String, tag: &str) -> (actions: RenameActions)
        requires
            max_number(self.untagged.numbers@) < i32::MAX,
        ensures
            moves_view(actions@) == unset_tag_moves(self@, file@, tag@),
    {
        let mut ret: RenameActions = Vec::new();
        if file.is_tagged(tag) {
            let target = self.untagged.fname_from_stem(
                file.as_str(),
                self.untagged.first_slot(),
            );
            ret.push((file, target));
        }
        assert(moves_view(ret@) =~= unset_tag_moves(self@, file@, tag@));
        ret
    }
}


/// One entry of a directory, as it was read: its path, the same path
/// resolved, whether it is a directory, and when it was last modified
/// (nanoseconds since the Unix epoch).
#[derive(Debug)]
pub struct DirEntry {
    pub path: String,
    pub canonical: String,
    pub is_dir: bool,
    pub mtime: i128,
}

/// A directory as it was read: its path and its entries, in the order in
/// which they came.
#[derive(Debug)]
pub struct DirListing {
    pub dir: String,
    pub entries: Vec<DirEntry>,
}

/// The tokens of the files of one directory, by kind. No path occurs twice
/// in a kind.
#[derive(Debug)]
pub struct FileTokenMap {
    pub tagged: Vec<PathAndTokens>,
    pub untagged: Vec<PathAndTokens>,
}

/// A file of a listing.
pub struct ListedFile {
    pub path: Seq<char>,
    pub canonical: Seq<char>,
    pub mtime: int,
}

/// A file with its name: the path and its final component.
pub type NamedFile = (Seq<char>, Seq<char>);

/// What a kind of files stands for.
pub struct BucketView {
    pub dirname: Seq<char>,
    pub basename: Seq<char>,
    pub rogue_files: Seq<Seq<char>>,
    pub numbered_files: Seq<Seq<char>>,
    pub numbers: Seq<i32>,
}

/// What the files of a directory stand for.
pub struct DirView {
    pub tagged: BucketView,
    pub untagged: BucketView,
}

/// What the tokens of a directory stand for.
pub struct TokenMapView {
    pub tagged: Seq<Entry>,
    pub untagged: Seq<Entry>,
}

impl View for FilesInDirSubtype {
    type V = BucketView;

    open spec fn view(&self) -> BucketView {
        BucketView {
            dirname: self.dirname@,
            basename: self.basename@,
            rogue_files: views(self.rogue_files@),
            numbered_files: views(self.numbered_files@),
            numbers: self.numbers@,
        }
    }
}

impl View for FilesInDir {
    type V = DirView;

    open spec fn view(&self) -> DirView {
        DirView { tagged: self.tagged@, untagged: self.untagged@ }
    }
}

impl View for FileTokenMap {
    type V = TokenMapView;

    open spec fn view(&self) -> TokenMapView {
        TokenMapView { tagged: entries_view(self.tagged@), untagged: entries_view(self.untagged@) }
    }
}

/// The files of a listing, in its order: the entries that are not
/// directories.
pub open spec fn plain_files(entries: Seq<DirEntry>) -> Seq<ListedFile>
    decreases entries.len(),
{
    if entries.len() == 0 {
        Seq::<ListedFile>::empty()
    } else {
        let before = plain_files(entries.drop_last());
        let last = entries.last();
        if last.is_dir {
            before
        } else {
            before.push(
                ListedFile {
                    path: last.path@,
                    canonical: last.canonical@,
                    mtime: last.mtime as int,
                },
            )
        }
    }
}

/// The pattern of the names that follow the naming scheme of a directory:
/// the base name, then the tag behind a dot or nothing, then a dot, a
/// number, a dot and a suffix, and nothing else. Base name and tag stand
/// for themselves.
pub open spec fn numbered_pattern(base: Seq<char>, tag: Seq<char>) -> Seq<char> {
    "^"@ + escaped_text(base) + "(\\."@ + escaped_text(tag) + ")?\\.\\d+\\.\\w+$"@
}

/// The name follows the naming scheme of the directory: the pattern of the
/// scheme matches it. In short, `base[.tag].NNNN.suffix`, where digits and
/// word characters are those of the pattern language.
pub open spec fn is_numbered_name(name: Seq<char>, base: Seq<char>, tag: Seq<char>) -> bool {
    regex_is_match(numbered_pattern(base, tag), name)
}

/// The paths of the files of one kind, in the order of the list. A file is
/// numbered if its name follows the naming scheme and a rogue if it does
/// not; apart from that it is tagged or it is not.
pub open spec fn pick_paths(
    files: Seq<NamedFile>,
    base: Seq<char>,
    tag: Seq<char>,
    numbered: bool,
    tagged: bool,
) -> Seq<Seq<char>>
    decreases files.len(),
{
    if files.len() == 0 {
        Seq::<Seq<char>>::empty()
    } else {
        let before = pick_paths(files.drop_last(), base, tag, numbered, tagged);
        let (path, name) = files.last();
        if is_numbered_name(name, base, tag) == numbered && name_is_tagged(name, tag) == tagged {
            before.push(path)
        } else {
            before
        }
    }
}

/// The sequence numbers of the numbered files of one kind, in the order of
/// the list.
pub open spec fn pick_numbers(
    files: Seq<NamedFile>,
    base: Seq<char>,
    tag: Seq<char>,
    tagged: bool,
) -> Seq<i32>
    decreases files.len(),
{
    if files.len() == 0 {
        Seq::<i32>::empty()
    } else {
        let before = pick_numbers(files.drop_last(), base, tag, tagged);
        let (path, name) = files.last();
        if is_numbered_name(name, base, tag) && name_is_tagged(name, tag) == tagged {
            match name_number(name) {
                Some(n) => before.push(n as i32),
                None => before,
            }
        } else {
            before
        }
    }
}

/// One kind of the files of a directory: rogues and numbered files in
/// lexical order of their paths, and the numbers in ascending order.
pub open spec fn bucket_of(
    dirname: Seq<char>,
    base: Seq<char>,
    files: Seq<NamedFile>,
    tag: Seq<char>,
    tagged: bool,
) -> BucketView {
    BucketView {
        dirname,
        basename: if tagged {
            base.push('.') + tag
        } else {
            base
        },
        rogue_files: sorted_texts(pick_paths(files, base, tag, false, tagged)),
        numbered_files: sorted_texts(pick_paths(files, base, tag, true, tagged)),
        numbers: sorted_numbers(pick_numbers(files, base, tag, tagged)),
    }
}

/// The files of a directory called `base`, by kind.
pub open spec fn classified(
    dirname: Seq<char>,
    base: Seq<char>,
    files: Seq<NamedFile>,
    tag: Seq<char>,
) -> DirView {
    DirView {
        tagged: bucket_of(dirname, base, files, tag, true),
        untagged: bucket_of(dirname, base, files, tag, false),
    }
}

/// The files with their names; none where a path has no final component.
pub open spec fn named_files(files: Seq<ListedFile>) -> Option<Seq<NamedFile>>
    decreases files.len(),
{
    if files.len() == 0 {
        Some(Seq::<NamedFile>::empty())
    } else {
        match (named_files(files.drop_last()), path_file_name(files.last().path)) {
            (Some(before), Some(name)) => Some(before.push((files.last().path, name))),
            _ => None,
        }
    }
}

/// The files of the directory at `dir`, by kind. The directory must have a
/// name, which is the base name of its files, and so must every file.
pub open spec fn classify_listing(dir: Seq<char>, files: Seq<ListedFile>, tag: Seq<char>) -> Result<
    DirView,
    DirError,
> {
    match path_file_name(dir) {
        None => Err(DirError::InvalidDirectoryName),
        Some(base) => if !regex_compiles(numbered_pattern(base, tag)) {
            Err(DirError::InvalidPattern)
        } else {
            match named_files(files) {
                None => Err(DirError::InvalidFileName),
                Some(named) => Ok(classified(dir, base, named, tag)),
            }
        },
    }
}

/// The entries with `entry` put in: in the place of the entry with the
/// same path, or at the end where there is none.
pub open spec fn upsert(entries: Seq<Entry>, entry: Entry) -> Seq<Entry> {
    if exists|i: int| 0 <= i < entries.len() && #[trigger] entries[i].0 == entry.0 {
        let i = choose|i: int| 0 <= i < entries.len() && #[trigger] entries[i].0 == entry.0;
        entries.update(i, entry)
    } else {
        entries.push(entry)
    }
}

/// The tokens of the files of one kind, by path. A file whose name has
/// fewer than three tokens, or whose resolved path has no name or no
/// parent, is left out.
pub open spec fn token_entries(files: Seq<ListedFile>, tag: Seq<char>, tagged: bool) -> Seq<Entry>
    decreases files.len(),
{
    if files.len() == 0 {
        Seq::<Entry>::empty()
    } else {
        let before = token_entries(files.drop_last(), tag, tagged);
        let last = files.last();
        match tokenize_path(last.canonical, tag, last.mtime) {
            Ok(tokens) => if path_is_tagged(last.path, tag) == tagged {
                upsert(before, (last.path, tokens))
            } else {
                before
            },
            Err(_) => before,
        }
    }
}

/// No path occurs twice among the entries.
pub open spec fn distinct_paths(entries: Seq<Entry>) -> bool {
    forall|i: int, j: int|
        0 <= i < j < entries.len() ==> #[trigger] entries[i].0 != #[trigger] entries[j].0
}

/// What a fallible classification stands for.
pub open spec fn classify_view(r: Result<FilesInDir, DirError>) -> Result<DirView, DirError> {
    match r {
        Ok(files) => Ok(files@),
        Err(e) => Err(e),
    }
}

/// What a list of paths with names stands for.
pub open spec fn named_view(files: Seq<(String, String)>) -> Seq<NamedFile> {
    files.map_values(|f: (String, String)| (f.0@, f.1@))
}

/// The pattern of the naming scheme, compiled. There is none where the
/// pattern language refuses it.
pub fn naming_pattern(base: &str, tag: &str) -> (pattern: Option<Pattern>)
    ensures
        pattern is Some <==> regex_compiles(numbered_pattern(base@, tag@)),
        pattern matches Some(p) ==> p.source() == numbered_pattern(base@, tag@),
{
    let mut text = chars_of("^");
    append_chars(&mut text, &chars_of(escape(base).as_str()));
    append_chars(&mut text, &chars_of("(\\."));
    append_chars(&mut text, &chars_of(escape(tag).as_str()));
    append_chars(&mut text, &chars_of(")?\\.\\d+\\.\\w+$"));
    assert(text@ =~= numbered_pattern(base@, tag@));
    Pattern::new(string_of(&text).as_str())
}

/// A kind of files with one more file: a numbered one, with its number
/// if its name has one, or a rogue.
pub open spec fn with_file(
    bucket: BucketView,
    path: Seq<char>,
    name: Seq<char>,
    numbered: bool,
) -> BucketView {
    if numbered {
        BucketView {
            numbered_files: bucket.numbered_files.push(path),
            numbers: match name_number(name) {
                Some(n) => bucket.numbers.push(n as i32),
                None => bucket.numbers,
            },
            ..bucket
        }
    } else {
        BucketView { rogue_files: bucket.rogue_files.push(path), ..bucket }
    }
}

/// The files of a directory with one more file, which goes to the tagged
/// files if its name is tagged, and to the others if it is not.
pub open spec fn sorted_in(
    files: DirView,
    path: Seq<char>,
    name: Seq<char>,
    tag: Seq<char>,
    numbered: bool,
) -> DirView {
    if name_is_tagged(name, tag) {
        DirView { tagged: with_file(files.tagged, path, name, numbered), ..files }
    } else {
        DirView { untagged: with_file(files.untagged, path, name, numbered), ..files }
    }
}

/// Puts a file with the files of its kind: `numbered` says whether its name
/// follows the naming scheme of the directory.
pub fn add_file(files: &mut FilesInDir, path: String, name: &str, tag: &str, numbered: bool)
    ensures
        final(files)@ == sorted_in(old(files)@, path@, name@, tag@, numbered),
{
    let ghost before = files@;
    let tagged = name_tagged(name, tag);
    let number = if numbered {
        number_of_name(name)
    } else {
        None
    };
    let bucket = if tagged {
        &mut files.tagged
    } else {
        &mut files.untagged
    };
    if numbered {
        bucket.numbered_files.push(path);
        if let Some(num) = number {
            bucket.numbers.push(num);
        }
    } else {
        bucket.rogue_files.push(path);
    }
    proof {
        let after = sorted_in(before, path@, name@, tag@, numbered);
        assert(files@.tagged.numbered_files =~= after.tagged.numbered_files);
        assert(files@.tagged.rogue_files =~= after.tagged.rogue_files);
        assert(files@.untagged.numbered_files =~= after.untagged.numbered_files);
        assert(files@.untagged.rogue_files =~= after.untagged.rogue_files);
        assert(files@.tagged.numbers =~= after.tagged.numbers);
        assert(files@.untagged.numbers =~= after.untagged.numbers);
    }
}

/// Sorts the files of a directory called `dir_basename` into kinds, by the
/// pattern of its naming scheme. Each file comes as its path and its name.
#[verifier::rlimit(40)]
pub fn classify_names(
    dirname: String,
    dir_basename: &str,
    files: &Vec<(String, String)>,
    tag: &str,
    scheme: &Pattern,
) -> (sorted: FilesInDir)
    requires
        scheme.source() == numbered_pattern(dir_basename@, tag@),
    ensures
        sorted@ == classified(dirname@, dir_basename@, named_view(files@), tag@),
{
    let mut ret = FilesInDir::new(dirname, dir_basename, tag);
    let ghost named = named_view(files@);
    let mut i: usize = 0;
    while i < files.len()
        invariant
            i <= files.len(),
            named == named_view(files@),
            scheme.source() == numbered_pattern(dir_basename@, tag@),
            ret.untagged.dirname@ == dirname@,
            ret.tagged.dirname@ == dirname@,
            ret.untagged.basename@ == dir_basename@,
            ret.tagged.basename@ == dir_basename@.push('.') + tag@,
            views(ret.tagged.numbered_files@) == pick_paths(
                named.take(i as int),
                dir_basename@,
                tag@,
                true,
                true,
            ),
            views(ret.untagged.numbered_files@) == pick_paths(
                named.take(i as int),
                dir_basename@,
                tag@,
                true,
                false,
            ),
            views(ret.tagged.rogue_files@) == pick_paths(
                named.take(i as int),
                dir_basename@,
                tag@,
                false,
                true,
            ),
            views(ret.untagged.rogue_files@) == pick_paths(
                named.take(i as int),
                dir_basename@,
                tag@,
                false,
                false,
            ),
            ret.tagged.numbers@ == pick_numbers(named.take(i as int), dir_basename@, tag@, true),
            ret.untagged.numbers@ == pick_numbers(named.take(i as int), dir_basename@, tag@, false),
        decreases files.len() - i,
    {
        let path = &files[i].0;
        let name = &files[i].1;
        proof {
            assert(named.take(i + 1).drop_last() =~= named.take(i as int));
            assert(named.take(i + 1).last() == (path@, name@));
        }
        let numbered = scheme.is_match(name.as_str());
        add_file(&mut ret, path.clone(), name.as_str(), tag, numbered);
        i += 1;
    }
    assert(named.take(files.len() as int) =~= named);
    ret.tagged.rogue_files = sort_strings(&ret.tagged.rogue_files);
    ret.untagged.rogue_files = sort_strings(&ret.untagged.rogue_files);
    ret.tagged.numbered_files = sort_strings(&ret.tagged.numbered_files);
    ret.untagged.numbered_files = sort_strings(&ret.untagged.numbered_files);
    ret.tagged.numbers = sort_numbers(&ret.tagged.numbers);
    ret.untagged.numbers = sort_numbers(&ret.untagged.numbers);
    ret
}

/// Puts an entry in: in the place of the entry with the same path, or at
/// the end where there is none.
#[verifier::rlimit(40)]
pub fn upsert_entry(entries: &mut Vec<PathAndTokens>, path: String, tokens: FileTokens)
    requires
        distinct_paths(entries_view(old(entries)@)),
    ensures
        entries_view(final(entries)@) == upsert(entries_view(old(entries)@), (path@, tokens@)),
        distinct_paths(entries_view(final(entries)@)),
{
    let ghost before = entries_view(entries@);
    let mut i: usize = 0;
    while i < entries.len()
        invariant
            i <= entries.len(),
            entries@ == old(entries)@,
            before == entries_view(entries@),
            distinct_paths(before),
            forall|j: int| 0 <= j < i ==> #[trigger] before[j].0 != path@,
        decreases entries.len() - i,
    {
        if entries[i].0 == path {
            assert(before[i as int].0 == path@);
            let ghost chosen = choose|k: int|
                0 <= k < before.len() && #[trigger] before[k].0 == path@;
            assert(chosen == i) by {
                if chosen < i {
                    assert(before[chosen].0 != path@);
                }
                if chosen > i {
                    assert(before[i as int].0 != before[chosen].0);
                }
            }
            entries.set(i, (path, tokens));
            assert(entries_view(entries@) =~= before.update(i as int, (path@, tokens@)));
            return ;
        }
        i += 1;
    }
    entries.push((path, tokens));
    assert(entries_view(entries@) =~= before.push((path@, tokens@)));
}

/// What the rest of the library asks of a directory that was read.
pub trait DirExt {
    /// The path of the directory.
    spec fn dir_path(&self) -> Seq<char>;

    /// The files of the directory, in the order in which they were read.
    spec fn files(&self) -> Seq<ListedFile>;

    /// The files of the directory by kind: tagged or not, numbered or
    /// rogue. Subdirectories are passed over. Fails where the directory or
    /// one of the files has a path without a final component.
    fn categorise_files(&self, tag: String) -> (sorted: Result<FilesInDir, DirError>)
        ensures
            classify_view(sorted) == classify_listing(self.dir_path(), self.files(), tag@),
    ;

    /// The tokens of the files of the directory, by path, tagged and
    /// untagged apart. Subdirectories are passed over, and so are files
    /// whose names have fewer than three tokens.
    fn file_token_map(&self, tag: &str) -> (map: FileTokenMap)
        ensures
            map@.tagged == token_entries(self.files(), tag@, true),
            map@.untagged == token_entries(self.files(), tag@, false),
            distinct_paths(map@.tagged),
            distinct_paths(map@.untagged),
    ;
}

impl DirExt for DirListing {
    open spec fn dir_path(&self) -> Seq<char> {
        self.dir@
    }

    open spec fn files(&self) -> Seq<ListedFile> {
        plain_files(self.entries@)
    }

    #[verifier::rlimit(40)]
    fn categorise_files(&self, tag: String) -> (sorted: Result<FilesInDir, DirError>) {
        let dir_basename = match basename(self.dir.as_str()) {
            Ok(name) => name,
            Err(e) => {
                return Err(e);
            },
        };
        let scheme = match naming_pattern(dir_basename.as_str(), tag.as_str()) {
            Some(scheme) => scheme,
            None => {
                return Err(DirError::InvalidPattern);
            },
        };
        let mut named: Vec<(String, String)> = Vec::new();
        let mut i: usize = 0;
        while i < self.entries.len()
            invariant
                i <= self.entries.len(),
                path_file_name(self.dir@) == Some(dir_basename@),
                regex_compiles(numbered_pattern(dir_basename@, tag@)),
                scheme.source() == numbered_pattern(dir_basename@, tag@),
                named_files(plain_files(self.entries@.take(i as int))) == Some(
                    named_view(named@),
                ),
            decreases self.entries.len() - i,
        {
            let entry = &self.entries[i];
            proof {
                assert(self.entries@.take(i + 1).drop_last() =~= self.entries@.take(i as int));
                assert(self.entries@.take(i + 1).last() == self.entries@[i as int]);
            }
            if !entry.is_dir {
                let ghost files = plain_files(self.entries@.take(i + 1));
                proof {
                    assert(files.drop_last() =~= plain_files(self.entries@.take(i as int)));
                }
                match file_name(entry.path.as_str()) {
                    Some(name) => {
                        let ghost before = named_view(named@);
                        named.push((entry.path.clone(), name));
                        assert(named_view(named@) =~= before.push((entry.path@, name@)));
                    },
                    None => {
                        proof {
                            lemma_plain_files_prefix(self.entries@, i + 1);
                            assert(files.last().path == entry.path@);
                            assert(named_files(files) is None);
                            lemma_unnamed_file(plain_files(self.entries@), files.len() as int);
                        }
                        return Err(DirError::InvalidFileName);
                    },
                }
            }
            i += 1;
        }
        assert(self.entries@.take(self.entries.len() as int) =~= self.entries@);
        Ok(classify_names(self.dir.clone(), dir_basename.as_str(), &named, tag.as_str(), &scheme))
    }

    #[verifier::rlimit(40)]
    fn file_token_map(&self, tag: &str) -> (map: FileTokenMap) {
        let mut ret = FileTokenMap { tagged: Vec::new(), untagged: Vec::new() };
        let mut i: usize = 0;
        while i < self.entries.len()
            invariant
                i <= self.entries.len(),
                entries_view(ret.tagged@) == token_entries(
                    plain_files(self.entries@.take(i as int)),
                    tag@,
                    true,
                ),
                entries_view(ret.untagged@) == token_entries(
                    plain_files(self.entries@.take(i as int)),
                    tag@,
                    false,
                ),
                distinct_paths(entries_view(ret.tagged@)),
                distinct_paths(entries_view(ret.untagged@)),
            decreases self.entries.len() - i,
        {
            let entry = &self.entries[i];
            proof {
                assert(self.entries@.take(i + 1).drop_last() =~= self.entries@.take(i as int));
                assert(self.entries@.take(i + 1).last() == self.entries@[i as int]);
            }
            if !entry.is_dir {
                proof {
                    let files = plain_files(self.entries@.take(i + 1));
                    assert(files.drop_last() =~= plain_files(self.entries@.take(i as int)));
                }
                if let Ok(tokens) = FileTokens::new(entry.canonical.as_str(), tag, entry.mtime) {
                    if entry.path.is_tagged(tag) {
                        upsert_entry(&mut ret.tagged, entry.path.clone(), tokens);
                    } else {
                        upsert_entry(&mut ret.untagged, entry.path.clone(), tokens);
                    }
                }
            }
            i += 1;
        }
        assert(self.entries@.take(self.entries.len() as int) =~= self.entries@);
        ret
    }
}

/// The files of the first entries of a listing are the first files of the
/// listing.
pub proof fn lemma_plain_files_prefix(entries: Seq<DirEntry>, k: int)
    requires
        0 <= k <= entries.len(),
    ensures
        plain_files(entries.take(k)).len() <= plain_files(entries).len(),
        plain_files(entries.take(k)) == plain_files(entries).take(
            plain_files(entries.take(k)).len() as int,
        ),
    decreases entries.len() - k,
{
    if k == entries.len() {
        assert(entries.take(k) =~= entries);
        assert(plain_files(entries).take(plain_files(entries).len() as int) =~= plain_files(
            entries,
        ));
    } else {
        lemma_plain_files_prefix(entries, k + 1);
        assert(entries.take(k + 1).drop_last() =~= entries.take(k));
        let longer = plain_files(entries.take(k + 1));
        let shorter = plain_files(entries.take(k));
        assert(shorter =~= plain_files(entries).take(shorter.len() as int));
    }
}

/// Where one of the first `k` files has no name, the files cannot be named.
pub proof fn lemma_unnamed_file(files: Seq<ListedFile>, k: int)
    requires
        0 <= k <= files.len(),
        named_files(files.take(k)) is None,
    ensures
        named_files(files) is None,
    decreases files.len() - k,
{
    if k == files.len() {
        assert(files.take(k) =~= files);
    } else {
        assert(files.take(k + 1).drop_last() =~= files.take(k));
        lemma_unnamed_file(files, k + 1);
    }
}

} // verus!
