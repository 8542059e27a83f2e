//! Mixing up text: its characters, its words, its lines, or whole files.
//!
//! The order comes from a random shuffle, so two calls need not agree. What
//! every outcome has in common is said here: the output is the input in
//! some other order.

use crate::order::reorder;
use crate::chars::char_is_whitespace;
use crate::text::{
    append_chars, chars_of, join, join_chars, split, string_of, vec_views, views,
};
use vstd::prelude::*;

verus! {

/// A line without the carriage return at its end, if it has one.
pub open spec fn without_return(line: Seq<char>) -> Seq<char> {
    if line.len() > 0 && line.last() == '\r' {
        line.drop_last()
    } else {
        line
    }
}

/// The lines of a text. The text is cut at every line feed. A line that a
/// line feed ends loses one carriage return in front of the line feed;
/// what follows the last line feed is a line only if it is not empty, and
/// keeps a carriage return at its end.
pub open spec fn lines_of(text: Seq<char>) -> Seq<Seq<char>> {
    let parts = split(text, '\n');
    let ended = parts.drop_last().map_values(|line: Seq<char>| without_return(line));
    if parts.last().len() == 0 {
        ended
    } else {
        ended.push(parts.last())
    }
}

/// The words of a text: the longest runs of characters that are not white
/// space, in their order. None of them is empty.
pub open spec fn words_of(text: Seq<char>) -> Seq<Seq<char>>
    decreases text.len(),
{
    if text.len() == 0 {
        Seq::<Seq<char>>::empty()
    } else {
        let before = words_of(text.drop_last());
        if char_is_whitespace(text.last()) {
            before
        } else if text.len() >= 2 && !char_is_whitespace(text[text.len() - 2]) {
            before.drop_last().push(before.last().push(text.last()))
        } else {
            before.push(seq![text.last()])
        }
    }
}

/// Calls `str::lines`, which cuts the text at its line feeds, takes the
/// line feed and a carriage return before it off each line, and gives no
/// empty line after the last line feed. The contract says so.
#[verifier::external_body]
fn lines(text: &str) -> (lines: Vec<String>)
    ensures
        views(lines@) == lines_of(text@),
{
    text.lines().map(|line| line.to_owned()).collect()
}

/// Calls `str::split_whitespace`, which gives the runs of characters
/// between white space, as `char::is_whitespace` knows it, and no empty
/// one. The contract says so.
#[verifier::external_body]
fn words(text: &str) -> (words: Vec<String>)
    ensures
        views(words@) == words_of(text@),
{
    text.split_whitespace().map(|word| word.to_owned()).collect()
}

/// Calls `rand::seq::SliceRandom::shuffle` with the generator of the
/// thread. The contract says what holds of every outcome: nothing is added
/// and nothing is lost, only the order may have changed.
#[verifier::external_body]
fn shuffle(order: &mut Vec<usize>)
    ensures
        final(order)@.to_multiset() == old(order)@.to_multiset(),
{
    rand::seq::SliceRandom::shuffle(order.as_mut_slice(), &mut rand::rng());
}

/// The positions below `n`, in order.
pub open spec fn positions(n: nat) -> Seq<usize> {
    Seq::new(n, |i: int| i as usize)
}

/// `order` is the positions below `n` in some order.
pub open spec fn is_shuffle(order: Seq<usize>, n: nat) -> bool {
    order.to_multiset() == positions(n).to_multiset()
}

/// `mixed` is `items` in some other order.
pub open spec fn is_shuffled<T>(mixed: Seq<T>, items: Seq<T>) -> bool {
    exists|order: Seq<usize>|
        is_shuffle(order, items.len()) && mixed == #[trigger] reorder(items, order)
}

/// `line` is the words of `text` in some other order, with single spaces
/// between them.
pub open spec fn is_word_mix(line: Seq<char>, text: Seq<char>) -> bool {
    exists|mixed: Seq<Seq<char>>|
        is_shuffled(mixed, words_of(text)) && line == #[trigger] join(mixed, ' ')
}

/// The texts put together without anything between them.
pub open spec fn concat(texts: Seq<Seq<char>>) -> Seq<char>
    decreases texts.len(),
{
    if texts.len() == 0 {
        Seq::<char>::empty()
    } else {
        concat(texts.drop_last()) + texts.last()
    }
}

/// What is mixed up: each source for itself, or all of them as one.
pub open spec fn sources_of(raw: Seq<Seq<char>>, interleave: bool) -> Seq<Seq<char>> {
    if interleave {
        seq![concat(raw)]
    } else {
        raw
    }
}

/// A shuffle has as many positions as there are, and each is a position.
#[verifier::rlimit(40)]
pub proof fn lemma_shuffle(order: Seq<usize>, n: nat)
    requires
        is_shuffle(order, n),
        n <= usize::MAX,
    ensures
        order.len() == n,
        forall|i: int| 0 <= i < order.len() ==> #[trigger] order[i] < n,
{
    broadcast use vstd::seq_lib::group_to_multiset_ensures;

    assert(order.to_multiset().len() == order.len());
    assert(positions(n).to_multiset().len() == positions(n).len());
    assert forall|i: int| 0 <= i < order.len() implies #[trigger] order[i] < n by {
        assert(order.contains(order[i]));
        assert(order.to_multiset().count(order[i]) > 0);
        assert(positions(n).contains(order[i]));
        let k = choose|k: int| 0 <= k < positions(n).len() && positions(n)[k] == order[i];
        assert(positions(n)[k] == k);
    }
}

/// The positions below `n` in a random order.
fn shuffled_order(n: usize) -> (order: Vec<usize>)
    ensures
        is_shuffle(order@, n as nat),
        order.len() == n,
        forall|i: int| 0 <= i < order.len() ==> #[trigger] order@[i] < n,
{
    let mut order: Vec<usize> = Vec::new();
    let mut i: usize = 0;
    while i < n
        invariant
            i <= n,
            order@ == positions(i as nat),
        decreases n - i,
    {
        order.push(i);
        assert(order@ =~= positions((i + 1) as nat));
        i += 1;
    }
    shuffle(&mut order);
    proof {
        lemma_shuffle(order@, n as nat);
    }
    order
}

/// The characters in a random order.
fn shuffled_chars(items: &Vec<char>) -> (mixed: Vec<char>)
    ensures
        is_shuffled(mixed@, items@),
{
    let order = shuffled_order(items.len());
    let mut mixed: Vec<char> = Vec::new();
    let mut a: usize = 0;
    while a < order.len()
        invariant
            a <= order.len(),
            order.len() == items.len(),
            forall|i: int| 0 <= i < order.len() ==> #[trigger] order@[i] < items.len(),
            mixed@ == reorder(items@, order@).take(a as int),
        decreases order.len() - a,
    {
        mixed.push(items[order[a]]);
        assert(reorder(items@, order@).take(a + 1) =~= reorder(items@, order@).take(
            a as int,
        ).push(items@[order@[a as int] as int]));
        a += 1;
    }
    assert(reorder(items@, order@).take(order.len() as int) =~= reorder(items@, order@));
    mixed
}

/// The strings in a random order.
fn shuffled_strings(items: &Vec<String>) -> (mixed: Vec<String>)
    ensures
        is_shuffled(views(mixed@), views(items@)),
{
    let order = shuffled_order(items.len());
    let ghost texts = views(items@);
    let mut mixed: Vec<String> = Vec::new();
    let mut a: usize = 0;
    while a < order.len()
        invariant
            a <= order.len(),
            order.len() == items.len(),
            texts == views(items@),
            forall|i: int| 0 <= i < order.len() ==> #[trigger] order@[i] < items.len(),
            views(mixed@) == reorder(texts, order@).take(a as int),
        decreases order.len() - a,
    {
        let ghost before = views(mixed@);
        mixed.push(items[order[a]].clone());
        assert(views(mixed@) =~= before.push(texts[order@[a as int] as int]));
        assert(reorder(texts, order@).take(a + 1) =~= reorder(texts, order@).take(a as int).push(
            texts[order@[a as int] as int],
        ));
        a += 1;
    }
    assert(reorder(texts, order@).take(order.len() as int) =~= reorder(texts, order@));
    mixed
}

/// The strings joined with `sep` between neighbours.
fn join_strings(items: &Vec<String>, sep: char) -> (joined: String)
    ensures
        joined@ == join(views(items@), sep),
{
    let mut parts: Vec<Vec<char>> = Vec::new();
    let mut i: usize = 0;
    while i < items.len()
        invariant
            i <= items.len(),
            vec_views(parts@) == views(items@).take(i as int),
        decreases items.len() - i,
    {
        let ghost before = vec_views(parts@);
        parts.push(chars_of(items[i].as_str()));
        assert(vec_views(parts@) =~= before.push(items@[i as int]@));
        assert(views(items@).take(i + 1) =~= views(items@).take(i as int).push(
            items@[i as int]@,
        ));
        i += 1;
    }
    assert(views(items@).take(items.len() as int) =~= views(items@));
    let joined = join_chars(&parts, sep);
    string_of(&joined)
}

/// What is mixed up: each source for itself, or all of them as one.
fn sources(raw_sources: Vec<String>, interleave: bool) -> (sources: Vec<String>)
    ensures
        views(sources@) == sources_of(views(raw_sources@), interleave),
{
    if !interleave {
        return raw_sources;
    }
    let mut all: Vec<char> = Vec::new();
    let mut i: usize = 0;
    while i < raw_sources.len()
        invariant
            i <= raw_sources.len(),
            all@ == concat(views(raw_sources@).take(i as int)),
        decreases raw_sources.len() - i,
    {
        let text = chars_of(raw_sources[i].as_str());
        proof {
            let texts = views(raw_sources@);
            assert(texts.take(i + 1).drop_last() =~= texts.take(i as int));
            assert(texts.take(i + 1).last() == text@);
        }
        append_chars(&mut all, &text);
        i += 1;
    }
    assert(views(raw_sources@).take(raw_sources.len() as int) =~= views(raw_sources@));
    let mut out: Vec<String> = Vec::new();
    out.push(string_of(&all));
    assert(views(out@) =~= seq![all@]);
    out
}

/// The words of a line in a random order, with single spaces between them.
pub fn shuffle_line(line: &str) -> (mixed: String)
    ensures
        is_word_mix(mixed@, line@),
{
    let words = words(line);
    let mixed = shuffled_strings(&words);
    join_strings(&mixed, ' ')
}

/// For each source, its characters in a random order.
#[verifier::rlimit(40)]
pub fn mixup_chars(raw_sources: Vec<String>, interleave: bool) -> (output: Vec<String>)
    ensures
        output.len() == sources_of(views(raw_sources@), interleave).len(),
        forall|i: int|
            0 <= i < output.len() ==> is_shuffled(
                #[trigger] output@[i]@,
                sources_of(views(raw_sources@), interleave)[i],
            ),
{
    let ghost wanted = sources_of(views(raw_sources@), interleave);
    let sources = sources(raw_sources, interleave);
    let mut output: Vec<String> = Vec::new();
    let mut i: usize = 0;
    while i < sources.len()
        invariant
            i <= sources.len(),
            wanted == views(sources@),
            output.len() == i,
            forall|j: int| 0 <= j < i ==> is_shuffled(#[trigger] output@[j]@, wanted[j]),
        decreases sources.len() - i,
    {
        let chars = chars_of(sources[i].as_str());
        let mixed = shuffled_chars(&chars);
        assert(wanted[i as int] == sources@[i as int]@);
        output.push(string_of(&mixed));
        i += 1;
    }
    output
}

/// For each source, its words in a random order, with single spaces
/// between them.
#[verifier::rlimit(40)]
pub fn mixup_words(raw_sources: Vec<String>, interleave: bool) -> (output: Vec<String>)
    ensures
        output.len() == sources_of(views(raw_sources@), interleave).len(),
        forall|i: int|
            0 <= i < output.len() ==> is_word_mix(
                #[trigger] output@[i]@,
                sources_of(views(raw_sources@), interleave)[i],
            ),
{
    let ghost wanted = sources_of(views(raw_sources@), interleave);
    let sources = sources(raw_sources, interleave);
    let mut output: Vec<String> = Vec::new();
    let mut i: usize = 0;
    while i < sources.len()
        invariant
            i <= sources.len(),
            wanted == views(sources@),
            output.len() == i,
            forall|j: int| 0 <= j < i ==> is_word_mix(#[trigger] output@[j]@, wanted[j]),
        decreases sources.len() - i,
    {
        assert(wanted[i as int] == sources@[i as int]@);
        output.push(shuffle_line(sources[i].as_str()));
        i += 1;
    }
    output
}

/// For each source, its lines in a random order.
#[verifier::rlimit(40)]
pub fn mixup_lines(raw_sources: Vec<String>, interleave: bool) -> (output: Vec<Vec<String>>)
    ensures
        output.len() == sources_of(views(raw_sources@), interleave).len(),
        forall|i: int|
            0 <= i < output.len() ==> is_shuffled(
                views(#[trigger] output@[i]@),
                lines_of(sources_of(views(raw_sources@), interleave)[i]),
            ),
{
    let ghost wanted = sources_of(views(raw_sources@), interleave);
    let sources = sources(raw_sources, interleave);
    let mut output: Vec<Vec<String>> = Vec::new();
    let mut i: usize = 0;
    while i < sources.len()
        invariant
            i <= sources.len(),
            wanted == views(sources@),
            output.len() == i,
            forall|j: int|
                0 <= j < i ==> is_shuffled(views(#[trigger] output@[j]@), lines_of(wanted[j])),
        decreases sources.len() - i,
    {
        let all = lines(sources[i].as_str());
        let mixed = shuffled_strings(&all);
        assert(wanted[i as int] == sources@[i as int]@);
        output.push(mixed);
        i += 1;
    }
    output
}

/// The lines of a text, each with its words in a random order.
#[verifier::rlimit(40)]
pub fn mixup_line_words(source: &str) -> (output: Vec<String>)
    ensures
        output.len() == lines_of(source@).len(),
        forall|k: int|
            0 <= k < output.len() ==> is_word_mix(#[trigger] output@[k]@, lines_of(source@)[k]),
{
    let all_lines = lines(source);
    let ghost wanted = lines_of(source@);
    let mut output: Vec<String> = Vec::new();
    let mut k: usize = 0;
    while k < all_lines.len()
        invariant
            k <= all_lines.len(),
            wanted == views(all_lines@),
            output.len() == k,
            forall|j: int| 0 <= j < k ==> is_word_mix(#[trigger] output@[j]@, wanted[j]),
        decreases all_lines.len() - k,
    {
        assert(wanted[k as int] == all_lines@[k as int]@);
        output.push(shuffle_line(all_lines[k].as_str()));
        k += 1;
    }
    output
}

/// The lines of all sources as one text in a random order, with line feeds
/// between them.
pub fn interleaved_lines(raw_sources: Vec<String>) -> (combined: String)
    ensures
        exists|mixed: Seq<Seq<char>>|
            is_shuffled(mixed, lines_of(concat(views(raw_sources@)))) && combined@
                == #[trigger] join(mixed, '\n'),
{
    let ghost all = concat(views(raw_sources@));
    let sources = sources(raw_sources, true);
    assert(views(sources@).len() == 1);
    assert(views(sources@)[0] == sources@[0]@);
    let lines = lines(sources[0].as_str());
    let mixed = shuffled_strings(&lines);
    join_strings(&mixed, '\n')
}

/// The files in a random order.
pub fn mixup_files(files: &Vec<String>) -> (mixed: Vec<String>)
    ensures
        is_shuffled(views(mixed@), views(files@)),
{
    shuffled_strings(files)
}

} // verus!
