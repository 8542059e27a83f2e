use std::collections::HashSet;

use filetools::mixup::{
    interleaved_lines, mixup_chars, mixup_files, mixup_line_words, mixup_lines, mixup_words,
    shuffle_line,
};

/// So many tries that an order that can come does come.
const TRIES: usize = 50_000;

fn found_all(expected: &[&str], mut tries: usize, run: &dyn Fn() -> String) -> bool {
    let mut outputs: HashSet<String> = expected.iter().map(|s| s.to_string()).collect();
    loop {
        let output = run();
        if outputs.contains(&output) {
            outputs.remove(&output);
        }
        if outputs.is_empty() {
            return true;
        }
        tries -= 1;
        if tries == 0 {
            return false;
        }
    }
}

fn printed(lines: Vec<String>) -> String {
    lines.iter().map(|l| format!("{}\n", l)).collect()
}

fn all_words() -> Vec<String> {
    vec!["a1 a2 a3\n".to_string(), "b1 b2\n".to_string()]
}

fn lines() -> Vec<String> {
    vec!["abc def\nghi jkl\n".to_string(), "123 456\n789\n".to_string()]
}

fn line_words(interleave: bool) -> String {
    let sources = if interleave { vec![interleaved_lines(lines())] } else { lines() };
    sources.iter().map(|s| printed(mixup_line_words(s))).collect()
}

#[test]
fn words_of_all_sources_come_in_every_order() {
    assert!(found_all(
        &["a1 a2 a3 b1 b2\n", "a2 b2 a3 a1 b1\n", "b1 a2 a3 b2 a1\n", "b2 b1 a3 a1 a2\n"],
        TRIES,
        &|| printed(mixup_words(all_words(), true)),
    ));
}

#[test]
fn words_of_each_source_come_in_every_order() {
    assert!(found_all(
        &["a1 a2 a3\nb1 b2\n", "a2 a1 a3\nb2 b1\n", "a3 a2 a1\nb2 b1\n"],
        TRIES,
        &|| printed(mixup_words(all_words(), false)),
    ));
}

#[test]
fn one_file_stays_one_file() {
    assert_eq!(vec!["f1".to_string()], mixup_files(&vec!["f1".to_string()]));
}

#[test]
fn files_come_in_every_order() {
    let files = vec!["f1".to_string(), "f2".to_string(), "f3".to_string()];
    assert!(found_all(
        &[
            "f1\nf2\nf3\n",
            "f1\nf3\nf2\n",
            "f2\nf1\nf3\n",
            "f2\nf3\nf1\n",
            "f3\nf1\nf2\n",
            "f3\nf2\nf1\n",
        ],
        TRIES,
        &|| printed(mixup_files(&files)),
    ));
}

#[test]
fn lines_and_their_words_come_in_every_order() {
    assert!(found_all(
        &[
            "abc def\nghi jkl\n123 456\n789\n",
            "def abc\nghi jkl\n123 456\n789\n",
            "ghi jkl\n456 123\ndef abc\n789\n",
            "456 123\ndef abc\nghi jkl\n789\n",
            "789\nabc def\njkl ghi\n456 123\n",
            "123 456\ndef abc\n789\njkl ghi\n",
        ],
        TRIES,
        &|| line_words(true),
    ));
}

#[test]
fn words_of_each_line_come_in_every_order() {
    assert!(found_all(
        &[
            "abc def\nghi jkl\n123 456\n789\n",
            "def abc\nghi jkl\n123 456\n789\n",
            "def abc\nghi jkl\n456 123\n789\n",
            "abc def\njkl ghi\n123 456\n789\n",
            "abc def\njkl ghi\n456 123\n789\n",
            "def abc\njkl ghi\n123 456\n789\n",
            "def abc\njkl ghi\n456 123\n789\n",
        ],
        TRIES,
        &|| line_words(false),
    ));
}

#[test]
fn lines_of_all_sources_come_in_every_order() {
    assert!(found_all(
        &[
            "abc def\nghi jkl\n123 456\n789\n",
            "ghi jkl\n123 456\nabc def\n789\n",
            "abc def\n123 456\n789\nghi jkl\n",
            "789\n123 456\nabc def\nghi jkl\n",
        ],
        TRIES,
        &|| mixup_lines(lines(), true).into_iter().map(printed).collect(),
    ));
}

#[test]
fn lines_of_each_source_come_in_every_order() {
    assert!(found_all(
        &[
            "abc def\nghi jkl\n123 456\n789\n",
            "abc def\nghi jkl\n789\n123 456\n",
            "ghi jkl\nabc def\n123 456\n789\n",
            "ghi jkl\nabc def\n789\n123 456\n",
        ],
        TRIES,
        &|| mixup_lines(lines(), false).into_iter().map(printed).collect(),
    ));
}

fn sorted_chars(s: &str) -> Vec<char> {
    let mut chars: Vec<char> = s.chars().collect();
    chars.sort();
    chars
}

#[test]
fn nothing_is_lost_in_the_mix() {
    for _ in 0..50 {
        let out = mixup_chars(vec!["hello, wörld".to_string(), "".to_string()], false);
        assert_eq!(2, out.len());
        assert_eq!(sorted_chars("hello, wörld"), sorted_chars(&out[0]));
        assert_eq!("", out[1]);
        let out = mixup_chars(vec!["ab".to_string(), "cd".to_string()], true);
        assert_eq!(1, out.len());
        assert_eq!(sorted_chars("abcd"), sorted_chars(&out[0]));
        let line = shuffle_line("  one\ttwo   three ");
        let mut words: Vec<&str> = line.split(' ').collect();
        words.sort();
        assert_eq!(vec!["one", "three", "two"], words);
    }
    assert_eq!("", shuffle_line("   "));
    assert!(mixup_line_words("").is_empty());
    assert_eq!(vec!["a".to_string(), "".to_string(), "b".to_string()], mixup_line_words("a\r\n\nb\r"));
}

#[test]
fn lines_end_at_line_feeds() {
    let one = |text: &str| mixup_lines(vec![text.to_string()], false).remove(0);
    assert_eq!(Vec::<String>::new(), one(""));
    assert_eq!(vec!["a".to_string()], one("a"));
    assert_eq!(vec!["a".to_string()], one("a\n"));
    assert_eq!(vec!["a".to_string()], one("a\r\n"));
    assert_eq!(vec!["a\r".to_string()], one("a\r"));
    assert_eq!(vec!["a\r".to_string()], one("a\r\r\n"));
    assert_eq!(vec!["".to_string()], one("\n"));
    assert_eq!(vec!["".to_string(), "".to_string()], one("\n\r\n"));
    assert_eq!(2, mixup_line_words("a b\r\nc\rd").len());
}

#[test]
fn words_are_runs_without_white_space() {
    assert_eq!("", shuffle_line(""));
    assert_eq!("", shuffle_line(" \t\r\n"));
    assert_eq!("ab", shuffle_line("ab"));
    assert_eq!("ab", shuffle_line("  ab\u{a0}\u{2003}"));
    assert_eq!("a-b", shuffle_line("\na-b "));
    assert_eq!(vec!["x".to_string(), "y,z".to_string()], mixup_line_words(" x \ny,z\u{3000}"));
}
