//! Picking files at random and linking, copying or moving them: what is
//! decided before anything is done.

use crate::decimal::padded_decimal;
use crate::paths::{diff, extension, file_name, path_diff, path_extension, path_file_name};
use crate::pattern::{regex_is_match, Pattern};
use crate::text::{
    append_chars, chars_of, decimal_digits, opt_view, pad_left, same_chars, split, split_chars,
    string_of, views,
};
use vstd::prelude::*;

verus! {

/// How an action is to be carried out.
#[derive(Debug)]
pub struct ActionOpts {
    /// The action, by name.
    pub action: String,
    /// Only say what would be done.
    pub noop: bool,
    /// Make symbolic links relative.
    pub relative_links: bool,
    /// Say what is done.
    pub verbose: bool,
}

/// What can be done with a source and a destination.
#[derive(Debug, Clone, Copy, PartialEq, Eq, Structural)]
pub enum ActionKind {
    /// Copy the file.
    Copy,
    /// Rename the file.
    Move,
    /// Copy the file and remove the source: a move between file systems.
    MoveAcross,
    /// Make a hard link.
    HardLink,
    /// Make a symbolic link.
    Symlink,
}

/// The action that a name stands for. Each action has a short and a long
/// name, and every other name stands for a symbolic link.
pub open spec fn action_of(name: Seq<char>) -> ActionKind {
    if name == "cp"@ || name == "copy"@ {
        ActionKind::Copy
    } else if name == "mv"@ || name == "move"@ {
        ActionKind::Move
    } else if name == "mvx"@ || name == "movexfs"@ {
        ActionKind::MoveAcross
    } else if name == "lnh"@ || name == "hardlink"@ {
        ActionKind::HardLink
    } else {
        ActionKind::Symlink
    }
}

/// Whether the text is one of the two names.
fn is_either(text: &Vec<char>, short: &str, long: &str) -> (b: bool)
    ensures
        b == (text@ == short@ || text@ == long@),
{
    let short_chars = chars_of(short);
    let long_chars = chars_of(long);
    same_chars(text, &short_chars) || same_chars(text, &long_chars)
}

impl ActionOpts {
    /// Whether the action is to be announced: in a verbose run and in a
    /// dry run.
    pub fn announces(&self) -> (b: bool)
        ensures
            b == (self.verbose || self.noop),
    {
        self.verbose || self.noop
    }

    /// What is to be done: nothing in a dry run, else the action that the
    /// name stands for.
    pub fn kind(&self) -> (kind: Option<ActionKind>)
        ensures
            kind == if self.noop {
                None
            } else {
                Some(action_of(self.action@))
            },
    {
        if self.noop {
            return None;
        }
        let name = chars_of(self.action.as_str());
        if is_either(&name, "cp", "copy") {
            Some(ActionKind::Copy)
        } else if is_either(&name, "mv", "move") {
            Some(ActionKind::Move)
        } else if is_either(&name, "mvx", "movexfs") {
            Some(ActionKind::MoveAcross)
        } else if is_either(&name, "lnh", "hardlink") {
            Some(ActionKind::HardLink)
        } else {
            Some(ActionKind::Symlink)
        }
    }
}


/// Which files are wanted.
pub struct FilterOpts {
    /// Only files with one of these extensions.
    pub extensions: Option<Vec<String>>,
    /// Only files modified at or after this time, in seconds since the
    /// Unix epoch.
    pub newer: Option<u64>,
    /// Only files modified at or before this time.
    pub older: Option<u64>,
    /// Only files whose name the pattern matches.
    pub regex: Option<Pattern>,
}

/// What is known of a path that may be picked: whether it is a regular
/// file, and when it was last modified, in seconds since the Unix epoch.
#[derive(Debug)]
pub struct Candidate {
    pub path: String,
    pub is_file: bool,
    pub mtime: u64,
}

/// The extension is one of those asked for.
pub open spec fn extension_wanted(path: Seq<char>, wanted: Seq<Seq<char>>) -> bool {
    match path_extension(path) {
        Some(ext) => wanted.contains(ext),
        None => false,
    }
}

/// The name of the file is one that the pattern matches. A path without a
/// file name passes.
pub open spec fn name_wanted(path: Seq<char>, pattern: Seq<char>) -> bool {
    match path_file_name(path) {
        Some(name) => regex_is_match(pattern, name),
        None => true,
    }
}

/// A path may be picked if it is a regular file and passes every filter
/// that is set: its extension is asked for, the pattern matches its name,
/// and its age lies within the limits.
pub open spec fn is_wanted(file: &Candidate, opts: &FilterOpts) -> bool {
    &&& file.is_file
    &&& opts.extensions matches Some(wanted) ==> extension_wanted(file.path@, views(wanted@))
    &&& opts.regex matches Some(rx) ==> name_wanted(file.path@, rx.source())
    &&& opts.older matches Some(limit) ==> file.mtime <= limit
    &&& opts.newer matches Some(limit) ==> file.mtime >= limit
}

/// Whether one of the texts is `text`.
fn contains_text(list: &Vec<String>, text: &str) -> (found: bool)
    ensures
        found == views(list@).contains(text@),
{
    let wanted = chars_of(text);
    let mut i: usize = 0;
    while i < list.len()
        invariant
            i <= list.len(),
            wanted@ == text@,
            forall|j: int| 0 <= j < i ==> #[trigger] views(list@)[j] != text@,
        decreases list.len() - i,
    {
        let item = chars_of(list[i].as_str());
        if same_chars(&item, &wanted) {
            assert(views(list@)[i as int] == text@);
            return true;
        }
        i += 1;
    }
    false
}

/// Whether the file may be picked.
#[verifier::rlimit(40)]
pub fn is_candidate(file: &Candidate, opts: &FilterOpts) -> (wanted: bool)
    ensures
        wanted == is_wanted(file, opts),
{
    if !file.is_file {
        return false;
    }
    if let Some(extensions) = &opts.extensions {
        match extension(file.path.as_str()) {
            Some(file_ext) => {
                if !contains_text(extensions, file_ext.as_str()) {
                    return false;
                }
            },
            None => {
                return false;
            },
        }
    }
    if let Some(rx) = &opts.regex {
        if let Some(name) = file_name(file.path.as_str()) {
            if !rx.is_match(name.as_str()) {
                return false;
            }
        }
    }
    if let Some(timestamp) = &opts.older {
        if file.mtime > *timestamp {
            return false;
        }
    }
    if let Some(timestamp) = &opts.newer {
        if file.mtime < *timestamp {
            return false;
        }
    }
    true
}

/// The extensions of a list that is separated by commas.
pub fn parse_extensions(cli_ext_list: Option<String>) -> (extensions: Option<Vec<String>>)
    ensures
        match extensions {
            Some(list) => cli_ext_list matches Some(text) && views(list@) == split(text@, ','),
            None => cli_ext_list is None,
        },
{
    match cli_ext_list {
        Some(text) => {
            let chars = chars_of(text.as_str());
            let parts = split_chars(&chars, ',');
            Some(crate::file::strings_of(&parts))
        },
        None => None,
    }
}

/// What `sha1_smol` gives as the SHA-1 digest of the text, in hexadecimal.
pub uninterp spec fn sha1_hex(text: Seq<char>) -> Seq<char>;

/// Calls `sha1_smol::Sha1::from` and `digest`, and writes the digest out
/// in hexadecimal. The contract only gives the result its name,
/// [`sha1_hex`].
#[verifier::external_body]
fn hash_hex(text: &str) -> (hex: String)
    ensures
        hex@ == sha1_hex(text@),
{
    sha1_smol::Sha1::from(text).digest().to_string()
}

/// How many characters a random stem has.
pub const STEM_LENGTH: usize = 32;

/// Text of ASCII letters and digits alone.
pub open spec fn is_alphanumeric(text: Seq<char>) -> bool {
    forall|i: int|
        0 <= i < text.len() ==> crate::chars::is_ascii_letter(#[trigger] text[i])
            || crate::text::is_digit_char(text[i])
}

/// A random stem: 32 characters, each an ASCII letter or digit.
pub open spec fn is_random_stem(stem: Seq<char>) -> bool {
    &&& stem.len() == STEM_LENGTH
    &&& is_alphanumeric(stem)
}

/// Samples `count` characters from `rand::distr::Alphanumeric` with the
/// generator of the thread. The contract says what holds of every
/// outcome: there are `count` characters, and each is an ASCII letter or
/// digit.
#[verifier::external_body]
fn random_text(count: usize) -> (text: String)
    ensures
        text@.len() == count,
        is_alphanumeric(text@),
{
    rand::Rng::sample_iter(rand::rng(), &rand::distr::Alphanumeric)
        .take(count)
        .map(char::from)
        .collect()
}

/// The extension of a path, or nothing where it has none.
pub open spec fn extension_or_nothing(path: Seq<char>) -> Seq<char> {
    match path_extension(path) {
        Some(ext) => ext,
        None => Seq::<char>::empty(),
    }
}

/// A stem with the extension of a path behind a dot.
pub open spec fn stem_with_extension(stem: Seq<char>, path: Seq<char>) -> Seq<char> {
    stem.push('.') + extension_or_nothing(path)
}

/// A number as eight digits or more.
pub open spec fn sequence_stem(seq_no: nat) -> Seq<char> {
    pad_left(decimal_digits(seq_no), 8, '0')
}

/// A path in which every slash has become a dash.
pub open spec fn dashed(path: Seq<char>) -> Seq<char> {
    path.map_values(|c: char| if c == '/' {
        '-'
    } else {
        c
    })
}

/// The text without the dashes at its start.
pub open spec fn without_leading_dashes(text: Seq<char>) -> Seq<char>
    decreases text.len(),
{
    if text.len() > 0 && text[0] == '-' {
        without_leading_dashes(text.skip(1))
    } else {
        text
    }
}

/// The name of a path under the scheme `expand`: the whole path with
/// dashes for slashes, and without the dashes that would lead it.
pub open spec fn expanded(path: Seq<char>) -> Seq<char> {
    without_leading_dashes(dashed(path))
}

/// The name that a target gets under a scheme, `stem` being the random
/// stem for the scheme `random`: the digest of the path, the random stem
/// or the sequence number, each with the extension of the path; the path
/// itself with dashes; or, for any other scheme and for none, the file
/// name as it is.
pub open spec fn scheme_name(
    path: Seq<char>,
    basename: Seq<char>,
    seq_no: nat,
    scheme: Option<Seq<char>>,
    stem: Seq<char>,
) -> Seq<char> {
    match scheme {
        Some(s) => if s == "hash"@ {
            stem_with_extension(sha1_hex(path), path)
        } else if s == "random"@ {
            stem_with_extension(stem, path)
        } else if s == "sequential"@ {
            stem_with_extension(sequence_stem(seq_no), path)
        } else if s == "expand"@ {
            expanded(path)
        } else {
            basename
        },
        None => basename,
    }
}

/// A stem with the extension of the path behind a dot.
pub fn with_extension(stem: &str, path: &str) -> (name: String)
    ensures
        name@ == stem_with_extension(stem@, path@),
{
    let mut chars = chars_of(stem);
    chars.push('.');
    if let Some(ext) = extension(path) {
        let ext_chars = chars_of(ext.as_str());
        append_chars(&mut chars, &ext_chars);
    }
    assert(chars@ =~= stem_with_extension(stem@, path@));
    string_of(&chars)
}

/// The file name as it is.
pub fn plain(name: &str) -> (same: String)
    ensures
        same@ == name@,
{
    name.to_owned()
}

/// The name of a path under the scheme `sequential`.
pub fn sequential(path: &str, seq_no: usize) -> (name: String)
    ensures
        name@ == stem_with_extension(sequence_stem(seq_no as nat), path@),
{
    let stem = padded_decimal(seq_no as u64, 8);
    let stem = string_of(&stem);
    with_extension(stem.as_str(), path)
}

/// Dropping one leading dash does not change what is left without leading
/// dashes.
proof fn lemma_drop_dash(text: Seq<char>, start: int)
    requires
        0 <= start < text.len(),
        text[start] == '-',
    ensures
        without_leading_dashes(text.skip(start)) == without_leading_dashes(text.skip(start + 1)),
{
    let rest = text.skip(start);
    assert(rest[0] == '-');
    assert(rest.skip(1) =~= text.skip(start + 1));
}

/// A text that does not start with a dash has no leading dashes to lose.
proof fn lemma_no_dash(text: Seq<char>, start: int)
    requires
        0 <= start <= text.len(),
        start < text.len() ==> text[start] != '-',
    ensures
        without_leading_dashes(text.skip(start)) == text.skip(start),
{
    let rest = text.skip(start);
    if rest.len() > 0 {
        assert(rest[0] == text[start]);
    }
}

/// The path with dashes for slashes.
fn dashes_for_slashes(path: &str) -> (out: Vec<char>)
    ensures
        out@ == dashed(path@),
{
    let chars = chars_of(path);
    let mut out: Vec<char> = Vec::new();
    let mut i: usize = 0;
    while i < chars.len()
        invariant
            i <= chars.len(),
            chars@ == path@,
            out@ == dashed(path@).take(i as int),
        decreases chars.len() - i,
    {
        let c = if chars[i] == '/' {
            '-'
        } else {
            chars[i]
        };
        out.push(c);
        assert(dashed(path@).take(i + 1) =~= dashed(path@).take(i as int).push(c));
        i += 1;
    }
    assert(dashed(path@).take(chars.len() as int) =~= dashed(path@));
    out
}

/// The name of a path under the scheme `expand`.
pub fn expand(path: &str) -> (name: String)
    ensures
        name@ == expanded(path@),
{
    let text = dashes_for_slashes(path);
    let mut start: usize = 0;
    assert(text@.skip(0) =~= text@);
    while start < text.len() && text[start] == '-'
        invariant
            start <= text.len(),
            without_leading_dashes(text@) == without_leading_dashes(text@.skip(start as int)),
        decreases text.len() - start,
    {
        proof {
            lemma_drop_dash(text@, start as int);
        }
        start += 1;
    }
    proof {
        lemma_no_dash(text@, start as int);
    }
    let out = crate::text::skip_chars(&text, start);
    string_of(&out)
}

/// The name of a path under a scheme, with the random stem to use for the
/// scheme `random`. A path without a file name has none.
#[verifier::rlimit(40)]
pub fn name_with_stem(path: &str, seq_no: usize, scheme: &Option<String>, stem: &str) -> (name:
    Option<String>)
    ensures
        opt_view(name) == match path_file_name(path@) {
            Some(basename) => Some(
                scheme_name(path@, basename, seq_no as nat, opt_view(*scheme), stem@),
            ),
            None => None,
        },
{
    let basename = match file_name(path) {
        Some(name) => name,
        None => {
            return None;
        },
    };
    let ret = match scheme {
        Some(s) => {
            let s_chars = chars_of(s.as_str());
            if same_chars(&s_chars, &chars_of("hash")) {
                let digest = hash_hex(path);
                with_extension(digest.as_str(), path)
            } else if same_chars(&s_chars, &chars_of("random")) {
                with_extension(stem, path)
            } else if same_chars(&s_chars, &chars_of("sequential")) {
                sequential(path, seq_no)
            } else if same_chars(&s_chars, &chars_of("expand")) {
                expand(path)
            } else {
                plain(basename.as_str())
            }
        },
        None => plain(basename.as_str()),
    };
    Some(ret)
}

/// The name of a path under a scheme. A path without a file name has
/// none. Under the scheme `random` the stem is drawn at random, so that two
/// calls need not agree.
pub fn name_from(path: &str, seq_no: usize, scheme: &Option<String>) -> (name: Option<String>)
    ensures
        name is Some <==> path_file_name(path@) is Some,
        name matches Some(name) ==> exists|stem: Seq<char>|
            is_random_stem(stem) && name@ == #[trigger] scheme_name(
                path@,
                path_file_name(path@)->Some_0,
                seq_no as nat,
                opt_view(*scheme),
                stem,
            ),
{
    let stem = random_text(STEM_LENGTH);
    name_with_stem(path, seq_no, scheme, stem.as_str())
}

/// How many files are to be picked: as many as were asked for, if there
/// are so many.
pub fn required_sources(count: usize, candidates: usize) -> (required: usize)
    ensures
        required == if count <= candidates {
            count
        } else {
            candidates
        },
{
    if count <= candidates {
        count
    } else {
        candidates
    }
}


/// What a symbolic link at `target` holds to point to `source`: the path
/// of the source, or for a relative link the way from the target to the
/// source where there is one.
pub open spec fn link_source_of(source: Seq<char>, target: Seq<char>, relative: bool) -> Seq<char> {
    if relative {
        match path_diff(source, target) {
            Some(way) => way,
            None => source,
        }
    } else {
        source
    }
}

/// What a symbolic link at `target` holds to point to `source`.
pub fn symlink(source: &str, target: &str, relative: bool) -> (held: String)
    ensures
        held@ == link_source_of(source@, target@, relative),
{
    if relative {
        match diff(source, target) {
            Some(path) => path,
            None => source.to_owned(),
        }
    } else {
        source.to_owned()
    }
}

} // verus!
