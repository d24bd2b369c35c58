use askalono::fingerprint::Fingerprint;
use askalono::text::{lines_of, normalized, tokenize, words_of};
use askalono::{normalize, TextData};

fn text(s: &str) -> Vec<char> {
    s.chars().collect()
}

fn shown(line: &Vec<char>) -> String {
    line.iter().collect()
}

fn rejoined(data: &TextData) -> String {
    let lines: Vec<String> = data.lines().iter().map(shown).collect();
    lines.join("\n")
}

#[test]
fn lines_are_folded_and_collapsed() {
    let data = normalize("  Hello   WORLD \n\nSecond\tLine\n");
    let lines = data.lines();
    assert_eq!(lines.len(), 4);
    assert_eq!(lines[0], text("hello world"));
    assert_eq!(lines[1], text(""));
    assert_eq!(lines[2], text("second line"));
    assert_eq!(lines[3], text(""));
    assert_eq!(data.raw(), "  Hello   WORLD \n\nSecond\tLine\n");
}

#[test]
fn empty_text_has_one_empty_line_and_no_shingles() {
    let data = normalize("");
    assert!(data.is_empty());
    assert_eq!(data.lines().len(), 1);
    assert_eq!(data.lines()[0], text(""));
    assert!(data.fingerprint().is_empty());
    assert_eq!(data.fingerprint().len(), 0);
}

#[test]
fn one_word_has_no_shingle() {
    let data = normalize("license");
    assert!(!data.is_empty());
    assert!(data.fingerprint().is_empty());
}

#[test]
fn line_count_follows_line_feeds() {
    assert_eq!(normalize("a").lines().len(), 1);
    assert_eq!(normalize("a\n").lines().len(), 2);
    assert_eq!(normalize("a\nb").lines().len(), 2);
    assert_eq!(normalize("\n\n\n").lines().len(), 4);
}

#[test]
fn only_ascii_letters_are_folded() {
    let data = normalize("ÀB Éc Z");
    assert_eq!(data.lines()[0], text("Àb Éc z"));
}

#[test]
fn carriage_returns_and_tabs_separate_words() {
    let data = normalize("a\tb\r\n\x0bc\x0cd  ");
    assert_eq!(data.lines()[0], text("a b"));
    assert_eq!(data.lines()[1], text("c d"));
}

#[test]
fn shingles_are_pairs_of_words_across_lines() {
    let data = normalize("The quick\nbrown fox the quick");
    let fp = data.fingerprint();
    assert_eq!(fp.len(), 4);
    assert_eq!(fp.count(&text("the quick")), 2);
    assert_eq!(fp.count(&text("quick brown")), 1);
    assert_eq!(fp.count(&text("brown fox")), 1);
    assert_eq!(fp.count(&text("fox the")), 1);
    assert_eq!(fp.count(&text("quick the")), 0);
    assert_eq!(fp.count(&text("the")), 0);
}

#[test]
fn normalizing_normalized_text_changes_nothing() {
    let first = normalize("  The  MIT License\t(MIT)\r\n\n   Copyright (c)  2018\n");
    let second = normalize(&rejoined(&first));
    assert_eq!(first.lines(), second.lines());
    assert_eq!(second.raw().as_str(), rejoined(&second));
    assert_eq!(first.fingerprint().len(), second.fingerprint().len());
    assert_eq!(first.fingerprint().shared_with(second.fingerprint()), first.fingerprint().len());
}

#[test]
fn normalizing_the_raw_text_again_gives_the_same() {
    let first = normalize("Some  Text\nOf two LINES");
    let second = normalize(first.raw());
    assert_eq!(first.raw(), second.raw());
    assert_eq!(first.lines(), second.lines());
    assert_eq!(first.fingerprint().shared_with(second.fingerprint()), second.fingerprint().len());
}

#[test]
fn normalizing_is_repeatable() {
    let a = normalize("Permission is hereby granted,\nfree of charge");
    let b = normalize("Permission is hereby granted,\nfree of charge");
    assert_eq!(a.lines(), b.lines());
    assert_eq!(a.lines().len(), 2);
}

#[test]
fn words_lines_and_tokens() {
    assert_eq!(words_of(&text("  two  words ")), vec![text("two"), text("words")]);
    assert_eq!(words_of(&text("   ")), Vec::<Vec<char>>::new());
    assert_eq!(lines_of(&text("a\n\nb")), vec![text("a"), text(""), text("b")]);
    assert_eq!(normalized(&text("\tMixed   CASE here ")), text("mixed case here"));
    let (tokens, starts) = tokenize(&vec![text("a b"), text(""), text("c")]);
    assert_eq!(tokens, vec![text("a"), text("b"), text("c")]);
    assert_eq!(starts, vec![0, 2, 2, 3]);
}

#[test]
fn fingerprint_of_a_stretch_of_tokens() {
    let tokens = vec![text("a"), text("b"), text("c"), text("d")];
    let all = Fingerprint::of_tokens(&tokens, 0, 4);
    assert_eq!(all.len(), 3);
    let part = Fingerprint::of_tokens(&tokens, 1, 3);
    assert_eq!(part.len(), 1);
    assert_eq!(part.count(&text("b c")), 1);
    assert_eq!(Fingerprint::of_tokens(&tokens, 2, 3).len(), 0);
    assert_eq!(all.shared_with(&part), 1);
}
