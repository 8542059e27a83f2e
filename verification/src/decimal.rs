//! Numbers as runs of decimal digits: reading them, writing them, and the
//! facts that tie the two together.

use crate::text::{
    all_digits, decimal_digits, decimal_text, digit_char, digit_value, digits_value, is_digit,
    is_digit_char, pad_left, repeat_char,
};
use vstd::prelude::*;

verus! {

/// What a run of characters denotes as a number no greater than `limit`:
/// it must be a non-empty run of ASCII digits whose value fits.
pub open spec fn parse_number(s: Seq<char>, limit: nat) -> Option<nat> {
    if s.len() >= 1 && all_digits(s) && digits_value(s) <= limit {
        Some(digits_value(s))
    } else {
        None
    }
}

/// A digit character denotes the digit it was made from.
pub proof fn lemma_digit_char_value(d: int)
    requires
        0 <= d < 10,
    ensures
        is_digit_char(digit_char(d)),
        digit_value(digit_char(d)) == d,
{
}

/// A digit is the character of its own value.
pub proof fn lemma_digit_value_char(c: char)
    requires
        is_digit_char(c),
    ensures
        0 <= digit_value(c) < 10,
        digit_char(digit_value(c)) == c,
{
}

/// The digits written for a number are digits, at least one of them, and
/// they denote that number.
pub proof fn lemma_decimal_digits_value(n: nat)
    ensures
        decimal_digits(n).len() >= 1,
        all_digits(decimal_digits(n)),
        digits_value(decimal_digits(n)) == n,
        n >= 10 ==> decimal_digits(n)[0] != '0',
    decreases n,
{
    if n < 10 {
        lemma_digit_char_value(n as int);
        let s = decimal_digits(n);
        assert(s.drop_last() =~= Seq::<char>::empty());
        assert(digits_value(s.drop_last()) == 0);
    } else {
        lemma_decimal_digits_value(n / 10);
        lemma_digit_char_value((n % 10) as int);
        let s = decimal_digits(n);
        assert(s.drop_last() =~= decimal_digits(n / 10));
        assert(s[0] == decimal_digits(n / 10)[0]);
        if n / 10 < 10 {
            assert(decimal_digits(n / 10)[0] == digit_char((n / 10) as int));
        }
    }
}

/// A run of digits that does not start with zero denotes at least one.
pub proof fn lemma_leading_digit_counts(s: Seq<char>)
    requires
        s.len() >= 1,
        all_digits(s),
        s[0] != '0',
    ensures
        digits_value(s) >= 1,
    decreases s.len(),
{
    if s.len() == 1 {
        assert(s.drop_last() =~= Seq::<char>::empty());
        assert(digits_value(s.drop_last()) == 0);
    } else {
        lemma_leading_digit_counts(s.drop_last());
    }
}

/// Writing the value of a run of digits gives the run back, provided the run
/// has no superfluous leading zero.
#[verifier::rlimit(40)]
pub proof fn lemma_decimal_digits_of_value(s: Seq<char>)
    requires
        s.len() >= 1,
        all_digits(s),
        s.len() == 1 || s[0] != '0',
    ensures
        decimal_digits(digits_value(s)) == s,
    decreases s.len(),
{
    lemma_digit_value_char(s.last());
    if s.len() == 1 {
        assert(s.drop_last() =~= Seq::<char>::empty());
        assert(digits_value(s.drop_last()) == 0);
        assert(decimal_digits(digits_value(s)) =~= s);
    } else {
        let init = s.drop_last();
        lemma_decimal_digits_of_value(init);
        lemma_leading_digit_counts(init);
        let v = digits_value(init);
        let d = digit_value(s.last());
        assert(digits_value(s) == v * 10 + d);
        assert((v * 10 + d) / 10 == v && (v * 10 + d) % 10 == d) by (nonlinear_arith)
            requires
                0 <= d < 10,
                v >= 0,
        ;
        assert(decimal_digits(digits_value(s)) =~= s);
    }
}

/// Zeros in front of a run of digits do not change what it denotes.
pub proof fn lemma_leading_zeros(zeros: nat, s: Seq<char>)
    ensures
        digits_value(repeat_char('0', zeros) + s) == digits_value(s),
    decreases s.len(), zeros,
{
    let padded = repeat_char('0', zeros) + s;
    if s.len() == 0 {
        if zeros == 0 {
            assert(padded =~= s);
        } else {
            lemma_leading_zeros((zeros - 1) as nat, s);
            assert(padded.drop_last() =~= repeat_char('0', (zeros - 1) as nat) + s);
        }
    } else {
        lemma_leading_zeros(zeros, s.drop_last());
        assert(padded.drop_last() =~= repeat_char('0', zeros) + s.drop_last());
    }
}

/// A run of exactly `width` digits, or a longer one without a leading zero,
/// is what its own value looks like when written and filled with zeros up to
/// `width`.
#[verifier::rlimit(40)]
pub proof fn lemma_padded_digits_of_value(s: Seq<char>, width: nat)
    requires
        width >= 1,
        s.len() >= width,
        all_digits(s),
        s.len() == width || s[0] != '0',
    ensures
        pad_left(decimal_digits(digits_value(s)), width, '0') == s,
    decreases s.len(),
{
    if s.len() == 1 || s[0] != '0' {
        lemma_decimal_digits_of_value(s);
    } else {
        // `s` has exactly `width` characters and starts with a zero.
        let rest = s.skip(1);
        assert(s =~= repeat_char('0', 1) + rest);
        lemma_leading_zeros(1, rest);
        assert(all_digits(rest)) by {
            assert forall|i: int| 0 <= i < rest.len() implies is_digit_char(
                #[trigger] rest[i],
            ) by {
                assert(rest[i] == s[i + 1]);
            }
        }
        lemma_padded_digits_of_value(rest, (width - 1) as nat);
        let written = decimal_digits(digits_value(s));
        lemma_decimal_digits_value(digits_value(s));
        assert(written == decimal_digits(digits_value(rest)));
        assert(pad_left(written, (width - 1) as nat, '0') == rest);
        if written.len() >= width - 1 {
            assert(written == rest);
            assert(pad_left(written, width, '0') =~= s);
        } else {
            let fill = repeat_char('0', (width - 1 - written.len()) as nat);
            assert(rest == fill + written);
            assert(pad_left(written, width, '0') =~= s);
        }
    }
}

/// The character for a digit value.
pub fn digit_to_char(d: u32) -> (c: char)
    requires
        d < 10,
    ensures
        c == digit_char(d as int),
{
    if d == 0 {
        '0'
    } else if d == 1 {
        '1'
    } else if d == 2 {
        '2'
    } else if d == 3 {
        '3'
    } else if d == 4 {
        '4'
    } else if d == 5 {
        '5'
    } else if d == 6 {
        '6'
    } else if d == 7 {
        '7'
    } else if d == 8 {
        '8'
    } else {
        '9'
    }
}

/// Appends the decimal digits of `n` to `out`.
pub fn push_decimal(n: u64, out: &mut Vec<char>)
    ensures
        final(out)@ == old(out)@ + decimal_digits(n as nat),
    decreases n,
{
    if n >= 10 {
        push_decimal(n / 10, out);
    }
    let d: u32 = (n % 10) as u32;
    out.push(digit_to_char(d));
    assert(out@ =~= old(out)@ + decimal_digits(n as nat));
}

/// Appends `count` copies of `fill` to `out`.
pub fn push_repeated(fill: char, count: usize, out: &mut Vec<char>)
    ensures
        final(out)@ == old(out)@ + repeat_char(fill, count as nat),
{
    let mut i: usize = 0;
    while i < count
        invariant
            i <= count,
            out@ == old(out)@ + repeat_char(fill, i as nat),
        decreases count - i,
    {
        out.push(fill);
        i += 1;
        assert(out@ =~= old(out)@ + repeat_char(fill, i as nat));
    }
}

/// `text` filled on the left with `fill` up to `width` characters.
pub fn pad_chars(text: &Vec<char>, width: usize, fill: char) -> (out: Vec<char>)
    ensures
        out@ == pad_left(text@, width as nat, fill),
{
    let mut out: Vec<char> = Vec::new();
    if text.len() < width {
        push_repeated(fill, width - text.len(), &mut out);
    }
    crate::text::append_chars(&mut out, text);
    assert(out@ =~= pad_left(text@, width as nat, fill));
    out
}

/// The decimal digits of `n`, filled on the left with zeros up to `width`
/// characters.
pub fn padded_decimal(n: u64, width: usize) -> (out: Vec<char>)
    ensures
        out@ == pad_left(decimal_digits(n as nat), width as nat, '0'),
{
    let mut digits: Vec<char> = Vec::new();
    push_decimal(n, &mut digits);
    assert(digits@ =~= decimal_digits(n as nat));
    pad_chars(&digits, width, '0')
}

/// The text of a signed number: a minus sign where it is negative, then its
/// digits.
pub fn signed_decimal(n: i32) -> (out: Vec<char>)
    ensures
        out@ == decimal_text(n as int),
{
    let mut out: Vec<char> = Vec::new();
    if n < 0 {
        out.push('-');
        let magnitude: u64 = (-(n as i64)) as u64;
        push_decimal(magnitude, &mut out);
    } else {
        push_decimal(n as u64, &mut out);
    }
    assert(out@ =~= decimal_text(n as int));
    out
}

/// Reads a run of digits as a number no greater than `limit`.
#[verifier::rlimit(40)]
pub fn parse_digits(s: &Vec<char>, limit: u32) -> (value: Option<u32>)
    ensures
        match value {
            Some(v) => parse_number(s@, limit as nat) == Some(v as nat),
            None => parse_number(s@, limit as nat) is None,
        },
{
    if s.len() == 0 {
        return None;
    }
    let mut acc: u32 = 0;
    let mut i: usize = 0;
    while i < s.len()
        invariant
            i <= s.len(),
            all_digits(s@.take(i as int)),
            acc == digits_value(s@.take(i as int)),
            acc <= limit,
        decreases s.len() - i,
    {
        let c = s[i];
        if !is_digit(c) {
            return None;
        }
        let d: u64 = (c as u32 - '0' as u32) as u64;
        let next: u64 = acc as u64 * 10 + d;
        proof {
            let grown = s@.take(i + 1);
            assert(grown.drop_last() == s@.take(i as int));
            assert(grown.last() == c);
            assert(digits_value(grown) == next);
        }
        if next > limit as u64 {
            proof {
                if all_digits(s@) {
                    lemma_prefix_value(s@, i + 1);
                }
            }
            return None;
        }
        acc = next as u32;
        i += 1;
    }
    assert(s@.take(s.len() as int) == s@);
    Some(acc)
}

/// A run of digits denotes at least what any of its prefixes denotes.
pub proof fn lemma_prefix_value(s: Seq<char>, k: int)
    requires
        all_digits(s),
        0 <= k <= s.len(),
    ensures
        digits_value(s.take(k)) <= digits_value(s),
    decreases s.len() - k,
{
    if k == s.len() {
        assert(s.take(k) == s);
    } else {
        lemma_prefix_value(s, k + 1);
        let grown = s.take(k + 1);
        assert(grown.drop_last() == s.take(k));
        assert(is_digit_char(grown.last()));
    }
}

} // verus!
