//! Flattening file names: a name that collides with an existing file gets
//! a number, or the next number.

use crate::chars::{
    ascii_lower, char_is_alphabetic, char_is_numeric, char_is_whitespace, is_ascii_letter,
    is_letter, lower,
};
use crate::decimal::{padded_decimal, parse_digits, parse_number};
use crate::text::{
    append_chars, chars_of, decimal_digits, join, join_chars, pad_left, same_chars, skip_chars,
    split, split_chars, string_of, vec_views,
};
use vstd::prelude::*;

verus! {

/// Why a name cannot get the next number.
#[derive(Debug, Clone, Copy, PartialEq, Eq, Structural)]
pub enum NumberingError {
    /// The name carries the largest number there is.
    NumbersExhausted,
}

/// The first number that a name gets, as it stands in the name.
pub open spec fn first_number() -> Seq<char> {
    seq!['0', '0', '1']
}

/// The number that a token of a name denotes, if it denotes one: an
/// optional plus sign and then one or more ASCII digits, with a value of no
/// more than 65535.
pub open spec fn counter_of(token: Seq<char>) -> Option<nat> {
    if token.len() > 0 && token[0] == '+' {
        parse_number(token.skip(1), 65535)
    } else {
        parse_number(token, 65535)
    }
}

/// A counter as it stands in a name: filled with zeros to three digits.
pub open spec fn counter_text(n: nat) -> Seq<char> {
    pad_left(decimal_digits(n), 3, '0')
}

/// The next name after `name`.
///
/// A name without a dot gets `.001` behind it. Else the last token is the
/// extension and stays last. If the token before it is a counter, the
/// counter is raised by one; if it is not, `001` is put in between the two.
pub open spec fn next_numbered(name: Seq<char>) -> Result<Seq<char>, NumberingError> {
    let tokens = split(name, '.');
    let n = tokens.len() as int;
    if n <= 1 {
        Ok(name.push('.') + first_number())
    } else {
        let front = tokens.take(n - 2);
        match counter_of(tokens[n - 2]) {
            Some(counter) => if counter == 65535 {
                Err(NumberingError::NumbersExhausted)
            } else {
                Ok(join(front + seq![counter_text(counter + 1), tokens[n - 1]], '.'))
            },
            None => Ok(join(front + seq![tokens[n - 2], first_number(), tokens[n - 1]], '.')),
        }
    }
}

/// What a fallible name stands for.
pub open spec fn numbering_view(r: Result<String, NumberingError>) -> Result<
    Seq<char>,
    NumberingError,
> {
    match r {
        Ok(name) => Ok(name@),
        Err(e) => Err(e),
    }
}

/// Reads a token as a counter.
pub fn parse_counter(token: &Vec<char>) -> (counter: Option<u32>)
    ensures
        match counter {
            Some(n) => counter_of(token@) == Some(n as nat),
            None => counter_of(token@) is None,
        },
{
    if token.len() > 0 && token[0] == '+' {
        let digits = skip_chars(token, 1);
        parse_digits(&digits, 65535)
    } else {
        parse_digits(token, 65535)
    }
}

/// The next name to try where `file_name` is taken.
#[verifier::rlimit(40)]
pub fn numbered_filename(file_name: &str) -> (next: Result<String, NumberingError>)
    ensures
        numbering_view(next) == next_numbered(file_name@),
{
    let name = chars_of(file_name);
    let chunks = split_chars(&name, '.');
    let count = chunks.len();
    if count == 1 {
        let mut out = name;
        out.push('.');
        out.push('0');
        out.push('0');
        out.push('1');
        assert(out@ =~= file_name@.push('.') + first_number());
        return Ok(string_of(&out));
    }
    let ghost tokens = vec_views(chunks@);
    assert(tokens[count - 2] == chunks@[count - 2]@);
    assert(tokens[count - 1] == chunks@[count - 1]@);
    let mut first_digits: Vec<char> = Vec::new();
    first_digits.push('0');
    first_digits.push('0');
    first_digits.push('1');
    assert(first_digits@ =~= first_number());
    let mut ret_chunks: Vec<Vec<char>> = Vec::new();
    let mut i: usize = 0;
    while i < count - 2
        invariant
            i <= count - 2,
            count == chunks.len(),
            tokens == vec_views(chunks@),
            vec_views(ret_chunks@) == tokens.take(i as int),
        decreases count - 2 - i,
    {
        let ghost before = vec_views(ret_chunks@);
        ret_chunks.push(chunks[i].clone());
        assert(vec_views(ret_chunks@) =~= before.push(tokens[i as int]));
        assert(tokens.take(i + 1) =~= tokens.take(i as int).push(tokens[i as int]));
        i += 1;
    }
    let ghost front = vec_views(ret_chunks@);
    match parse_counter(&chunks[count - 2]) {
        Some(num) => {
            if num == 65535 {
                return Err(NumberingError::NumbersExhausted);
            }
            ret_chunks.push(padded_decimal((num + 1) as u64, 3));
            ret_chunks.push(chunks[count - 1].clone());
            assert(vec_views(ret_chunks@) =~= front + seq![
                counter_text((num + 1) as nat),
                tokens[count - 1],
            ]);
        },
        None => {
            ret_chunks.push(chunks[count - 2].clone());
            ret_chunks.push(first_digits);
            ret_chunks.push(chunks[count - 1].clone());
            assert(vec_views(ret_chunks@) =~= front + seq![
                tokens[count - 2],
                first_number(),
                tokens[count - 1],
            ]);
        },
    }
    let joined = join_chars(&ret_chunks, '.');
    Ok(string_of(&joined))
}


/// What `unidecode::unidecode_char` gives for the character: its
/// transliteration into ASCII.
pub uninterp spec fn unidecode_of(c: char) -> Seq<char>;

/// Calls `unidecode::unidecode_char`. The contract only gives the result
/// its name, [`unidecode_of`].
#[verifier::external_body]
fn transliterate(c: char) -> (ascii: String)
    ensures
        ascii@ == unidecode_of(c),
{
    unidecode::unidecode_char(c).to_owned()
}

/// How far the flattening of a name has come: what has been written, and
/// the character that was last taken note of.
pub struct Flattening {
    pub written: Seq<char>,
    pub last: char,
}

/// The name of a file of which nothing is left.
pub open spec fn untranslatable() -> Seq<char> {
    "UNTRANSLATABLE"@
}

/// The flattening of a text, character by character.
///
/// An ASCII letter is written in lower case. Any other letter is written as
/// the flattened form of its transliteration; where `deep` is false, which
/// is how a transliteration is flattened, such a letter is left out. Digits
/// and other numbers, dots and underscores are written as they are. A dash
/// is written too, but in the place of an underscore if an underscore was
/// the last thing noted. White space is written as one underscore, but not
/// at the start and not after an underscore. Anything else is left out.
pub open spec fn flat_fold(text: Seq<char>, deep: bool) -> Flattening
    decreases
            (if deep {
                1int
            } else {
                0int
            }),
            text.len(),
            0int,
{
    if text.len() == 0 {
        Flattening { written: Seq::<char>::empty(), last: '!' }
    } else {
        let before = flat_fold(text.drop_last(), deep);
        let c = text.last();
        let written = before.written;
        if is_ascii_letter(c) {
            Flattening { written: written.push(ascii_lower(c)), last: c }
        } else if char_is_alphabetic(c) {
            if deep {
                Flattening { written: written + flattened(unidecode_of(c), false), ..before }
            } else {
                before
            }
        } else if char_is_numeric(c) || c == '.' || c == '_' {
            Flattening { written: written.push(c), last: c }
        } else if c == '-' {
            if before.last == '_' {
                if written.len() > 0 {
                    Flattening { written: written.update(written.len() - 1, '-'), last: '_' }
                } else {
                    before
                }
            } else {
                Flattening { written: written.push('-'), ..before }
            }
        } else if char_is_whitespace(c) && written.len() > 0 && before.last != '_' {
            Flattening { written: written.push('_'), last: '_' }
        } else {
            before
        }
    }
}

/// The flattened form of a text: what its flattening has written, with an
/// underscore in the place of a leading dot, or `UNTRANSLATABLE` where
/// nothing was written.
pub open spec fn flattened(text: Seq<char>, deep: bool) -> Seq<char>
    decreases
            (if deep {
                1int
            } else {
                0int
            }),
            text.len(),
            1int,
{
    let written = flat_fold(text, deep).written;
    if written.len() == 0 {
        untranslatable()
    } else if written[0] == '.' {
        written.update(0, '_')
    } else {
        written
    }
}

/// The ASCII name for a file name.
pub open spec fn ascii_name(file_name: Seq<char>) -> Seq<char> {
    flattened(file_name, true)
}

/// Flattens a text; see [`flat_fold`].
#[verifier::rlimit(40)]
fn flatten(text: &Vec<char>, deep: bool) -> (flat: Vec<char>)
    ensures
        flat@ == flattened(text@, deep),
    decreases
            (if deep {
                1int
            } else {
                0int
            }),
{
    let mut ret: Vec<char> = Vec::new();
    let mut last_char = '!';
    let mut i: usize = 0;
    while i < text.len()
        invariant
            i <= text.len(),
            ret@ == flat_fold(text@.take(i as int), deep).written,
            last_char == flat_fold(text@.take(i as int), deep).last,
        decreases text.len() - i,
    {
        let c = text[i];
        proof {
            assert(text@.take(i + 1).drop_last() =~= text@.take(i as int));
            assert(text@.take(i + 1).last() == c);
        }
        if is_letter(c) {
            ret.push(lower(c));
            last_char = c;
        } else if c.is_alphabetic() {
            if deep {
                let ascii = transliterate(c);
                let ascii_chars = chars_of(ascii.as_str());
                let uc = flatten(&ascii_chars, false);
                append_chars(&mut ret, &uc);
            }
        } else if c.is_numeric() || c == '.' || c == '_' {
            ret.push(c);
            last_char = c;
        } else if c == '-' {
            if last_char == '_' {
                let len = ret.len();
                if len > 0 {
                    ret.set(len - 1, c);
                    last_char = '_';
                }
            } else {
                ret.push('-');
            }
        } else if c.is_whitespace() && ret.len() > 0 && last_char != '_' {
            ret.push('_');
            last_char = '_';
        }
        i += 1;
    }
    assert(text@.take(text.len() as int) =~= text@);
    if ret.len() == 0 {
        return chars_of("UNTRANSLATABLE");
    }
    if ret[0] == '.' {
        ret.set(0, '_');
    }
    ret
}

/// The ASCII name for a file name: lower case, transliterated, without
/// anything but letters, numbers, dots, dashes and underscores.
pub fn ascii_filename(file_name: &str) -> (name: String)
    ensures
        name@ == ascii_name(file_name@),
{
    let chars = chars_of(file_name);
    let flat = flatten(&chars, true);
    string_of(&flat)
}

/// How the flattener was asked to behave.
#[derive(Debug)]
pub struct Opts {
    /// Say what would be done, and do nothing.
    pub noop: bool,
    /// Overwrite an existing file rather than adding a number.
    pub clobber: bool,
    /// Fail on an existing file rather than adding a number.
    pub nonumber: bool,
    /// Say what is done.
    pub verbose: bool,
}

/// What to do where the new name is taken.
#[derive(Debug, Clone, Copy, PartialEq, Eq, Structural)]
pub enum Collision {
    /// Rename onto the existing file.
    Overwrite,
    /// Give up on this file.
    Refuse,
    /// Try the next numbered name.
    Number,
}

/// The new name for a file, or none where its name is acceptable as it is.
pub fn new_name(basename: &str) -> (name: Option<String>)
    ensures
        match name {
            Some(name) => name@ == ascii_name(basename@) && name@ != basename@,
            None => ascii_name(basename@) == basename@,
        },
{
    let new_name = ascii_filename(basename);
    let old_chars = chars_of(basename);
    let new_chars = chars_of(new_name.as_str());
    if same_chars(&old_chars, &new_chars) {
        None
    } else {
        Some(new_name)
    }
}

impl Opts {
    /// What to do where the first choice of a new name is taken: overwrite
    /// if that was asked for, else refuse if numbering was ruled out, else
    /// go on to numbered names.
    pub fn on_collision(&self) -> (choice: Collision)
        ensures
            choice == if self.clobber {
                Collision::Overwrite
            } else if self.nonumber {
                Collision::Refuse
            } else {
                Collision::Number
            },
    {
        if self.clobber {
            Collision::Overwrite
        } else if self.nonumber {
            Collision::Refuse
        } else {
            Collision::Number
        }
    }

    /// Whether a rename is announced, and whether it is carried out.
    pub fn rename_file(&self) -> (steps: (bool, bool))
        ensures
            steps.0 == (self.verbose || self.noop),
            steps.1 == !self.noop,
    {
        (self.verbose || self.noop, !self.noop)
    }
}

} // verus!
