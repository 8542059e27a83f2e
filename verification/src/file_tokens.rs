//! The filename codec: a file name read into its fields, and fields written
//! out as a file name.

use crate::decimal::{
    lemma_decimal_digits_value, lemma_leading_zeros, lemma_padded_digits_of_value, pad_chars,
    signed_decimal,
};
use crate::file::{max_index, name_tokens, opt_int, parse_index, segment_index};
use crate::paths::{file_name, join, parent, path_file_name, path_join, path_parent};
use crate::text::{
    all_digits, chars_of, decimal_digits, decimal_text, digits_value, is_digit_char,
    join as join_text, join_chars, lemma_join_concat, lemma_join_split, lemma_split_concat,
    lemma_split_join, lemma_split_nonempty, pad_left, same_chars, split_chars,
    string_of, vec_views,
};
use vstd::prelude::*;

verus! {

/// Why a file could not be read into tokens.
#[derive(Debug, Clone, Copy, PartialEq, Eq, Structural)]
pub enum TokenizeError {
    /// The path has no final component.
    NoBaseName,
    /// The path has no parent directory.
    NoDirName,
    /// The file name has fewer than three dot-separated tokens.
    TooFewTokens,
}

/// The fields of one file: where it is, what its name is made of, and when
/// it was last modified (nanoseconds since the Unix epoch).
#[derive(Debug)]
pub struct FileTokens {
    pub dir: String,
    pub stem: String,
    pub num: Option<i32>,
    pub suffix: String,
    pub tag: String,
    pub is_tagged: bool,
    pub mtime: i128,
}

/// The fields that a file name holds.
pub struct NameFields {
    pub stem: Seq<char>,
    pub tagged: bool,
    pub index: Option<int>,
    pub suffix: Seq<char>,
}

/// What a `FileTokens` value stands for.
pub struct TokensView {
    pub dir: Seq<char>,
    pub fields: NameFields,
    pub tag: Seq<char>,
    pub mtime: int,
}

/// A number as it stands in a file name: its decimal text, filled with
/// zeros on the left up to four characters. Longer text is never cut.
pub open spec fn padded_number(num: int) -> Seq<char> {
    pad_left(decimal_text(num), 4, '0')
}

/// Reads a file name into its fields. A name with fewer than three tokens
/// has none. The last token is the suffix, the one before it is read as the
/// sequence number, the name is tagged if the one before that is the tag,
/// and the tokens in front of these, joined by dots, are the stem.
pub open spec fn tokenize(name: Seq<char>, tag: Seq<char>) -> Option<NameFields> {
    let tokens = name_tokens(name);
    let n = tokens.len() as int;
    if n < 3 {
        None
    } else {
        let tagged = tokens[n - 3] == tag;
        let stem_count = if tagged {
            n - 3
        } else {
            n - 2
        };
        Some(
            NameFields {
                stem: join_text(tokens.take(stem_count), '.'),
                tagged,
                index: segment_index(tokens[n - 2]),
                suffix: tokens[n - 1],
            },
        )
    }
}

/// The tokens that a rendered name is joined from: the stem, the tag if
/// there is one, the padded number if there is one, and the suffix.
pub open spec fn render_tokens(
    stem: Seq<char>,
    tag: Option<Seq<char>>,
    index: Option<int>,
    suffix: Seq<char>,
) -> Seq<Seq<char>> {
    let tag_part = match tag {
        Some(tag) => seq![tag],
        None => Seq::<Seq<char>>::empty(),
    };
    let index_part = match index {
        Some(index) => seq![padded_number(index)],
        None => Seq::<Seq<char>>::empty(),
    };
    seq![stem] + tag_part + index_part + seq![suffix]
}

/// Writes fields out as a file name: `stem[.tag][.NNNN].suffix`.
pub open spec fn render(
    stem: Seq<char>,
    tag: Option<Seq<char>>,
    index: Option<int>,
    suffix: Seq<char>,
) -> Seq<char> {
    join_text(render_tokens(stem, tag, index, suffix), '.')
}

/// The tag that a rendered name carries: the tag itself where the name is
/// tagged, and none where it is not.
pub open spec fn tag_if(tagged: bool, tag: Seq<char>) -> Option<Seq<char>> {
    if tagged {
        Some(tag)
    } else {
        None
    }
}

/// Reads the file at `path` into tokens: the parent directory, the fields
/// of the file name, the tag that was looked for, and the time given.
pub open spec fn tokenize_path(path: Seq<char>, tag: Seq<char>, mtime: int) -> Result<
    TokensView,
    TokenizeError,
> {
    match path_file_name(path) {
        None => Err(TokenizeError::NoBaseName),
        Some(name) => match path_parent(path) {
            None => Err(TokenizeError::NoDirName),
            Some(dir) => tokenize_in(dir, name, tag, mtime),
        },
    }
}

/// Reads the file called `name` in `dir` into tokens.
pub open spec fn tokenize_in(dir: Seq<char>, name: Seq<char>, tag: Seq<char>, mtime: int) -> Result<
    TokensView,
    TokenizeError,
> {
    match tokenize(name, tag) {
        None => Err(TokenizeError::TooFewTokens),
        Some(fields) => Ok(TokensView { dir, fields, tag, mtime }),
    }
}

/// What a fallible `FileTokens` stands for.
pub open spec fn tokens_result_view(r: Result<FileTokens, TokenizeError>) -> Result<
    TokensView,
    TokenizeError,
> {
    match r {
        Ok(tokens) => Ok(tokens@),
        Err(e) => Err(e),
    }
}

/// The view of an optional string slice.
pub open spec fn opt_str_view(s: Option<&str>) -> Option<Seq<char>> {
    match s {
        Some(s) => Some(s@),
        None => None,
    }
}

impl View for FileTokens {
    type V = TokensView;

    open spec fn view(&self) -> TokensView {
        TokensView {
            dir: self.dir@,
            fields: NameFields {
                stem: self.stem@,
                tagged: self.is_tagged,
                index: opt_int(self.num),
                suffix: self.suffix@,
            },
            tag: self.tag@,
            mtime: self.mtime as int,
        }
    }
}

/// Reading a name and writing the fields out again gives the name back,
/// for every name of at least three tokens whose number token is written
/// the way numbers are written: four digits, or more without a leading
/// zero. A tagged name needs a stem, so a fourth token, in front of the tag.
#[verifier::rlimit(40)]
pub proof fn lemma_render_tokenize(name: Seq<char>, tag: Seq<char>)
    requires
        name_tokens(name).len() >= 3,
        ({
            let tokens = name_tokens(name);
            let number = tokens[tokens.len() - 2];
            &&& number.len() >= 4
            &&& all_digits(number)
            &&& digits_value(number) <= max_index()
            &&& number.len() == 4 || number[0] != '0'
            &&& tokens[tokens.len() - 3] == tag ==> tokens.len() >= 4
        }),
    ensures
        tokenize(name, tag) matches Some(fields) && fields.index is Some && render(
            fields.stem,
            tag_if(fields.tagged, tag),
            fields.index,
            fields.suffix,
        ) == name,
{
    let tokens = name_tokens(name);
    let n = tokens.len() as int;
    let number = tokens[n - 2];
    let fields = tokenize(name, tag).unwrap();
    lemma_join_split(name, '.');
    lemma_padded_digits_of_value(number, 4);
    assert(fields.index == Some(digits_value(number) as int));
    assert(padded_number(digits_value(number) as int) == number);
    let stem_count = if fields.tagged {
        n - 3
    } else {
        n - 2
    };
    let front = tokens.take(stem_count);
    let back = tokens.skip(stem_count);
    assert(tokens =~= front + back);
    lemma_join_concat(front, back, '.');
    let written = render_tokens(
        fields.stem,
        tag_if(fields.tagged, tag),
        fields.index,
        fields.suffix,
    );
    assert(written =~= seq![fields.stem] + back);
    lemma_join_concat(seq![fields.stem], back, '.');
}

/// A padded number is a run of four or more digits that denotes the
/// number.
#[verifier::rlimit(40)]
pub proof fn lemma_padded_number(index: int)
    requires
        0 <= index,
    ensures
        padded_number(index).len() >= 4,
        all_digits(padded_number(index)),
        digits_value(padded_number(index)) == index,
        !padded_number(index).contains('.'),
{
    let digits = decimal_digits(index as nat);
    let padded = padded_number(index);
    lemma_decimal_digits_value(index as nat);
    if digits.len() < 4 {
        let zeros = (4 - digits.len()) as nat;
        lemma_leading_zeros(zeros, digits);
        assert forall|i: int| 0 <= i < padded.len() implies is_digit_char(#[trigger] padded[i]) by {
            if i >= zeros {
                assert(padded[i] == digits[i - zeros]);
            }
        }
    }
    if padded.contains('.') {
        let i = choose|i: int| 0 <= i < padded.len() && padded[i] == '.';
        assert(is_digit_char(padded[i]));
    }
}

/// The tokens of a stem and of pieces without dots, joined by dots, are
/// the tokens of the stem and then the pieces.
proof fn lemma_tokens_of_joined(stem: Seq<char>, back: Seq<Seq<char>>)
    requires
        back.len() >= 1,
        forall|i: int| 0 <= i < back.len() ==> !(#[trigger] back[i]).contains('.'),
    ensures
        name_tokens(join_text(seq![stem] + back, '.')) == name_tokens(stem) + back,
{
    lemma_join_concat(seq![stem], back, '.');
    assert(join_text(seq![stem], '.') == stem);
    lemma_split_concat(stem, join_text(back, '.'), '.');
    lemma_split_join(back, '.');
}

/// Writing fields out and reading the name again gives the fields back.
///
/// This holds where the fields can stand in a name at all: the number is
/// none that a name cannot carry, there is no dot in the suffix nor in the
/// tag of a tagged name, and the stem of an untagged name does not end in
/// the tag.
#[verifier::rlimit(40)]
pub proof fn lemma_tokenize_render(
    stem: Seq<char>,
    tagged: bool,
    tag: Seq<char>,
    index: int,
    suffix: Seq<char>,
)
    requires
        0 <= index <= max_index(),
        !suffix.contains('.'),
        tagged ==> !tag.contains('.'),
        !tagged ==> name_tokens(stem).last() != tag,
    ensures
        tokenize(render(stem, tag_if(tagged, tag), Some(index), suffix), tag) == Some(
            NameFields { stem, tagged, index: Some(index), suffix },
        ),
{
    let number = padded_number(index);
    lemma_padded_number(index);
    assert(segment_index(number) == Some(index));
    let back = if tagged {
        seq![tag, number, suffix]
    } else {
        seq![number, suffix]
    };
    let written = render_tokens(stem, tag_if(tagged, tag), Some(index), suffix);
    assert(written =~= seq![stem] + back);
    let name = render(stem, tag_if(tagged, tag), Some(index), suffix);
    lemma_tokens_of_joined(stem, back);
    lemma_split_nonempty(stem, '.');
    lemma_join_split(stem, '.');
    let stem_tokens = name_tokens(stem);
    let tokens = name_tokens(name);
    let n = tokens.len() as int;
    let m = stem_tokens.len() as int;
    assert(tokens == stem_tokens + back);
    assert(tokens.take(m) =~= stem_tokens);
    if tagged {
        assert(n == m + 3);
        assert(tokens[n - 1] == back[2]);
        assert(tokens[n - 2] == back[1]);
        assert(tokens[n - 3] == back[0]);
    } else {
        assert(n == m + 2);
        assert(tokens[n - 1] == back[1]);
        assert(tokens[n - 2] == back[0]);
        assert(tokens[n - 3] == stem_tokens[m - 1]);
    }
}

/// The number as it stands in a file name.
pub fn padded_number_chars(num: i32) -> (out: Vec<char>)
    ensures
        out@ == padded_number(num as int),
{
    let text = signed_decimal(num);
    pad_chars(&text, 4, '0')
}

/// Writes fields out as a file name: `stem[.tag][.NNNN].suffix`, the number
/// filled with zeros to four digits and never cut. Without a number the
/// number token is left out together with its dot.
#[verifier::rlimit(40)]
pub fn render_name(stem: &str, tag: Option<&str>, index: Option<i32>, suffix: &str) -> (name:
    String)
    ensures
        name@ == render(stem@, opt_str_view(tag), opt_int(index), suffix@),
{
    let mut bits: Vec<Vec<char>> = Vec::new();
    bits.push(chars_of(stem));
    assert(vec_views(bits@) =~= seq![stem@]);
    if let Some(tag) = tag {
        bits.push(chars_of(tag));
        assert(vec_views(bits@) =~= seq![stem@] + seq![tag@]);
    }
    let ghost with_tag = vec_views(bits@);
    if let Some(index) = index {
        bits.push(padded_number_chars(index));
        assert(vec_views(bits@) =~= with_tag + seq![padded_number(index as int)]);
    }
    let ghost with_index = vec_views(bits@);
    bits.push(chars_of(suffix));
    assert(vec_views(bits@) =~= with_index + seq![suffix@]);
    assert(vec_views(bits@) =~= render_tokens(
        stem@,
        opt_str_view(tag),
        opt_int(index),
        suffix@,
    ));
    let joined = join_chars(&bits, '.');
    string_of(&joined)
}

impl FileTokens {
    /// Reads the file at `file` into tokens. `file` is the canonical path
    /// and `mtime` the modification time, both as the caller found them.
    /// Fails where the path has no file name, has no parent, or the name has
    /// fewer than three tokens.
    pub fn new(file: &str, tag: &str, mtime: i128) -> (tokens: Result<FileTokens, TokenizeError>)
        ensures
            tokens_result_view(tokens) == tokenize_path(file@, tag@, mtime as int),
    {
        let basename = match file_name(file) {
            Some(name) => name,
            None => {
                return Err(TokenizeError::NoBaseName);
            },
        };
        let dirname = match parent(file) {
            Some(dir) => dir,
            None => {
                return Err(TokenizeError::NoDirName);
            },
        };
        FileTokens::from_name(dirname, basename.as_str(), tag, mtime)
    }

    /// Reads the file called `name` in `dir` into tokens. Fails where the
    /// name has fewer than three tokens.
    #[verifier::rlimit(40)]
    pub fn from_name(dir: String, name: &str, tag: &str, mtime: i128) -> (tokens: Result<
        FileTokens,
        TokenizeError,
    >)
        ensures
            tokens_result_view(tokens) == tokenize_in(dir@, name@, tag@, mtime as int),
    {
        let chars = chars_of(name);
        let parts = split_chars(&chars, '.');
        let count = parts.len();
        if count < 3 {
            return Err(TokenizeError::TooFewTokens);
        }
        let tag_chars = chars_of(tag);
        let ghost tokens = vec_views(parts@);
        assert(tokens[count - 3] == parts@[count - 3]@);
        assert(tokens[count - 2] == parts@[count - 2]@);
        assert(tokens[count - 1] == parts@[count - 1]@);
        let number = parse_index(&parts[count - 2]);
        let is_tagged = same_chars(&parts[count - 3], &tag_chars);
        let stem_count = if is_tagged {
            count - 3
        } else {
            count - 2
        };
        let suffix = string_of(&parts[count - 1]);
        let mut stem_parts = parts;
        stem_parts.truncate(stem_count);
        assert(vec_views(stem_parts@) =~= tokens.take(stem_count as int));
        let stem_chars = join_chars(&stem_parts, '.');
        Ok(
            FileTokens {
                dir,
                stem: string_of(&stem_chars),
                num: number,
                suffix,
                tag: tag.to_owned(),
                is_tagged,
                mtime,
            },
        )
    }

    /// The name of this file with another sequence number, or with none.
    pub fn render(&self, index: Option<i32>) -> (name: String)
        ensures
            name@ == render(
                self.stem@,
                tag_if(self.is_tagged, self.tag@),
                opt_int(index),
                self.suffix@,
            ),
    {
        if self.is_tagged {
            render_name(self.stem.as_str(), Some(self.tag.as_str()), index, self.suffix.as_str())
        } else {
            render_name(self.stem.as_str(), None, index, self.suffix.as_str())
        }
    }

    /// The path of this file with another sequence number: the rendered
    /// name, adjoined to the directory.
    pub fn make_filename_with_num(&self, num: i32) -> (path: String)
        ensures
            path@ == path_join(
                self.dir@,
                render(
                    self.stem@,
                    tag_if(self.is_tagged, self.tag@),
                    Some(num as int),
                    self.suffix@,
                ),
            ),
    {
        let name = self.render(Some(num));
        join(self.dir.as_str(), name.as_str())
    }

    /// A copy of these tokens.
    pub fn duplicate(&self) -> (copy: FileTokens)
        ensures
            copy@ == self@,
    {
        FileTokens {
            dir: self.dir.clone(),
            stem: self.stem.clone(),
            num: self.num,
            suffix: self.suffix.clone(),
            tag: self.tag.clone(),
            is_tagged: self.is_tagged,
            mtime: self.mtime,
        }
    }
}

} // verus!
