//! Linking dotfiles: the files of a directory are linked into a root
//! directory under a dot, a dash in a name standing for a level of
//! directories.

use crate::paths::{
    diff, file_name, join, parent, path_diff, path_file_name, path_join, path_parent,
};
use crate::text::{chars_of, has_prefix, starts_with, string_of};
use vstd::prelude::*;

verus! {

/// Why a file cannot be linked.
#[derive(Debug, Clone, Copy, PartialEq, Eq, Structural)]
pub enum LinkError {
    /// The path of the file has no final component.
    NoFileName,
    /// The path of the link has no parent.
    NoParent,
    /// There is no relative path from the link to the file.
    NoRelativePath,
}

/// A link that is to be made.
#[derive(Debug)]
pub struct Link {
    /// Where the link is made.
    pub link_from: String,
    /// What the link holds: the way from its directory to the file.
    pub relative_link: String,
    /// The directory of the link, where it lies below the root and may
    /// have to be made first.
    pub parent: Option<String>,
}

/// What a link stands for.
pub struct LinkView {
    pub link_from: Seq<char>,
    pub relative_link: Seq<char>,
    pub parent: Option<Seq<char>>,
}

impl View for Link {
    type V = LinkView;

    open spec fn view(&self) -> LinkView {
        LinkView {
            link_from: self.link_from@,
            relative_link: self.relative_link@,
            parent: crate::text::opt_view(self.parent),
        }
    }
}

/// What is to be done about a link that is there already.
#[derive(Debug, Clone, Copy, PartialEq, Eq, Structural)]
pub enum Existing {
    /// Remove the link and go on.
    Remove,
    /// Leave this file out.
    Skip,
}

/// A file is passed over if its name starts with a dot or with `README`.
pub open spec fn is_passed_over(name: Seq<char>) -> bool {
    starts_with(name, seq!['.']) || starts_with(name, "README"@)
}

/// The path of the link below the root: a dot, then the name with a slash
/// for every dash.
pub open spec fn dotted(name: Seq<char>) -> Seq<char> {
    seq!['.'] + name.map_values(|c: char| if c == '-' {
        '/'
    } else {
        c
    })
}

/// The link for the file at `link_to`, or none where the file is passed
/// over.
pub open spec fn link_for(root: Seq<char>, link_to: Seq<char>) -> Result<
    Option<LinkView>,
    LinkError,
> {
    match path_file_name(link_to) {
        None => Err(LinkError::NoFileName),
        Some(name) => if is_passed_over(name) {
            Ok(None)
        } else {
            let target = dotted(name);
            let link_from = path_join(root, target);
            match path_parent(link_from) {
                None => Err(LinkError::NoParent),
                Some(dir) => match path_diff(link_to, dir) {
                    None => Err(LinkError::NoRelativePath),
                    Some(relative_link) => Ok(
                        Some(
                            LinkView {
                                link_from,
                                relative_link,
                                parent: if target.contains('/') {
                                    Some(dir)
                                } else {
                                    None
                                },
                            },
                        ),
                    ),
                },
            }
        },
    }
}

/// What a fallible link stands for.
pub open spec fn link_view(r: Result<Option<Link>, LinkError>) -> Result<
    Option<LinkView>,
    LinkError,
> {
    match r {
        Ok(Some(link)) => Ok(Some(link@)),
        Ok(None) => Ok(None),
        Err(e) => Err(e),
    }
}

/// The path of the link below the root, and whether it has a slash in it.
#[verifier::rlimit(40)]
pub fn dotted_name(name: &str) -> (target: (String, bool))
    ensures
        target.0@ == dotted(name@),
        target.1 == dotted(name@).contains('/'),
{
    let chars = chars_of(name);
    let mut out: Vec<char> = Vec::new();
    out.push('.');
    let mut nested = false;
    let mut i: usize = 0;
    while i < chars.len()
        invariant
            i <= chars.len(),
            chars@ == name@,
            out@ == dotted(name@).take(i + 1),
            nested == out@.contains('/'),
        decreases chars.len() - i,
    {
        let c = if chars[i] == '-' {
            '/'
        } else {
            chars[i]
        };
        let ghost before = out@;
        out.push(c);
        proof {
            assert(dotted(name@).take(i + 2) =~= dotted(name@).take(i + 1).push(c));
            if c == '/' {
                assert(out@[out.len() - 1] == '/');
            } else if out@.contains('/') {
                let k = choose|k: int| 0 <= k < out@.len() && out@[k] == '/';
                assert(before[k] == '/');
            } else if before.contains('/') {
                let k = choose|k: int| 0 <= k < before.len() && before[k] == '/';
                assert(out@[k] == '/');
            }
        }
        if c == '/' {
            nested = true;
        }
        i += 1;
    }
    assert(dotted(name@).take(chars.len() + 1) =~= dotted(name@));
    (string_of(&out), nested)
}

/// Whether a file of this name is passed over.
pub fn passed_over(name: &str) -> (b: bool)
    ensures
        b == is_passed_over(name@),
{
    let chars = chars_of(name);
    let mut dot: Vec<char> = Vec::new();
    dot.push('.');
    assert(dot@ =~= seq!['.']);
    has_prefix(&chars, &dot) || has_prefix(&chars, &chars_of("README"))
}

/// The link that is to be made for the file at `link_to`, or none where
/// the file is passed over.
#[verifier::rlimit(40)]
pub fn link_from_dir(root: &str, link_to: &str) -> (link: Result<Option<Link>, LinkError>)
    ensures
        link_view(link) == link_for(root@, link_to@),
{
    let raw_fname = match file_name(link_to) {
        Some(name) => name,
        None => {
            return Err(LinkError::NoFileName);
        },
    };
    if passed_over(raw_fname.as_str()) {
        return Ok(None);
    }
    let (target_relative_path, nested) = dotted_name(raw_fname.as_str());
    let link_from = join(root, target_relative_path.as_str());
    let dir = match parent(link_from.as_str()) {
        Some(dir) => dir,
        None => {
            return Err(LinkError::NoParent);
        },
    };
    let relative_link = match diff(link_to, dir.as_str()) {
        Some(relative) => relative,
        None => {
            return Err(LinkError::NoRelativePath);
        },
    };
    let parent = if nested {
        Some(dir)
    } else {
        None
    };
    Ok(Some(Link { link_from, relative_link, parent }))
}

/// What is to be done where the link is there already as a link: it is
/// removed if links are to be made anew, else the file is left out.
pub fn on_existing_link(force: bool) -> (choice: Existing)
    ensures
        choice == if force {
            Existing::Remove
        } else {
            Existing::Skip
        },
{
    if force {
        Existing::Remove
    } else {
        Existing::Skip
    }
}

} // verus!
