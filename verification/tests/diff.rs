use askalono::diff::{
    compared_side, joined, mark, records_of, reference_side, same_lines, settle, small_enough, Chunk,
};
use askalono::{diff, normalize, DiffKind, DiffRecord};

const APACHE: &str = "Apache License
Version 2.0, January 2004

2. Grant of Copyright License. Subject to the terms and conditions of
this License, each Contributor hereby grants to You a perpetual,
worldwide, non-exclusive, no-charge, royalty-free, irrevocable
copyright license to reproduce, prepare Derivative Works of,
publicly display, publicly perform, sublicense, and distribute the
Work and such Derivative Works in Source or Object form.

9. Accepting Warranty or Additional Liability.";

fn text(s: &str) -> Vec<char> {
    s.chars().collect()
}

fn shown(records: &[DiffRecord]) -> Vec<(DiffKind, String)> {
    records.iter().map(|r| (r.kind, r.line.iter().collect())).collect()
}

fn expect(kind: DiffKind, line: &str) -> (DiffKind, String) {
    (kind, line.to_string())
}

#[test]
fn modified_license() {
    let reference = normalize(APACHE);
    let changed = APACHE.replace(
        "worldwide, non-exclusive, no-charge, royalty-free, irrevocable",
        "worldwide, exclusive, costly, royalty-bearing, revocable",
    );
    let query = normalize(&changed);
    let records = diff(&reference, query.lines());
    let found = shown(&records);
    let mut expected: Vec<(DiffKind, String)> = Vec::new();
    for (i, line) in reference.lines().iter().enumerate() {
        let line: String = line.iter().collect();
        if i == 5 {
            expected.push(expect(
                DiffKind::Removed,
                "worldwide, non-exclusive, no-charge, royalty-free, irrevocable",
            ));
            expected.push(expect(
                DiffKind::Added,
                "worldwide, exclusive, costly, royalty-bearing, revocable",
            ));
        } else {
            expected.push((DiffKind::Same, line));
        }
    }
    assert_eq!(found, expected);
    assert_eq!(found.iter().filter(|r| r.0 != DiffKind::Same).count(), 2);
}

#[test]
fn a_changed_line_is_removed_and_added() {
    let reference = normalize("a\nb\nc");
    let query = normalize("a\nx\nc");
    let records = diff(&reference, query.lines());
    assert_eq!(
        shown(&records),
        vec![
            expect(DiffKind::Same, "a"),
            expect(DiffKind::Removed, "b"),
            expect(DiffKind::Added, "x"),
            expect(DiffKind::Same, "c"),
        ]
    );
}

#[test]
fn lines_only_added_or_only_removed() {
    let reference = normalize("first\nsecond\nthird\nfourth");
    let shorter = normalize("first\nfourth");
    assert_eq!(
        shown(&diff(&reference, shorter.lines())),
        vec![
            expect(DiffKind::Same, "first"),
            expect(DiffKind::Removed, "second"),
            expect(DiffKind::Removed, "third"),
            expect(DiffKind::Same, "fourth"),
        ]
    );
    assert_eq!(
        shown(&diff(&shorter, reference.lines())),
        vec![
            expect(DiffKind::Same, "first"),
            expect(DiffKind::Added, "second"),
            expect(DiffKind::Added, "third"),
            expect(DiffKind::Same, "fourth"),
        ]
    );
}

#[test]
fn equal_texts_have_every_line_the_same() {
    let reference = normalize("One\n\nTwo  words\n");
    let query = normalize("one\n\ntwo words\n");
    assert_eq!(
        shown(&diff(&reference, query.lines())),
        vec![
            expect(DiffKind::Same, "one"),
            expect(DiffKind::Same, ""),
            expect(DiffKind::Same, "two words"),
            expect(DiffKind::Same, ""),
        ]
    );
    let empty = normalize("");
    assert_eq!(shown(&diff(&empty, empty.lines())), vec![expect(DiffKind::Same, "")]);
}

#[test]
fn a_diff_of_a_range_of_lines() {
    let reference = normalize("a b\nc d");
    let query = normalize("x\ny\na b\nc e\nz");
    let records = diff(&reference, &query.lines()[2..4]);
    assert_eq!(
        shown(&records),
        vec![
            expect(DiffKind::Same, "a b"),
            expect(DiffKind::Removed, "c d"),
            expect(DiffKind::Added, "c e"),
        ]
    );
}

#[test]
fn every_diff_replays_both_texts() {
    let texts = ["", "a", "a\nb", "\n", "a\n\nb\n", "b\na", "x\ny\nz", "a\n\n\nb", "\n\na"];
    for a in texts {
        for b in texts {
            let (reference, query) = (normalize(a), normalize(b));
            let records = diff(&reference, query.lines());
            assert_eq!(&reference_side(&records), reference.lines());
            assert_eq!(&compared_side(&records), query.lines());
        }
    }
}

#[test]
fn an_empty_text_against_lines_is_a_plain_rewrite() {
    let empty = normalize("");
    let query = normalize("a\nb");
    assert_eq!(
        shown(&diff(&empty, query.lines())),
        vec![
            expect(DiffKind::Removed, ""),
            expect(DiffKind::Added, "a"),
            expect(DiffKind::Added, "b"),
        ]
    );
    assert_eq!(shown(&diff(&query, &[])), vec![
        expect(DiffKind::Removed, "a"),
        expect(DiffKind::Removed, "b"),
    ]);
}

#[test]
fn chunks_are_taken_apart_into_lines() {
    let chunks = vec![
        Chunk { text: text("a\nb"), kind: DiffKind::Same },
        Chunk { text: text(""), kind: DiffKind::Added },
        Chunk { text: text("c\n"), kind: DiffKind::Removed },
    ];
    assert_eq!(
        shown(&records_of(&chunks)),
        vec![
            expect(DiffKind::Same, "a"),
            expect(DiffKind::Same, "b"),
            expect(DiffKind::Added, ""),
            expect(DiffKind::Removed, "c"),
            expect(DiffKind::Removed, ""),
        ]
    );
}

#[test]
fn an_answer_that_does_not_replay_is_not_passed_on() {
    let a = vec![text("a"), text("b")];
    let b = vec![text("a"), text("c")];
    let good = vec![
        Chunk { text: text("a"), kind: DiffKind::Same },
        Chunk { text: text("b"), kind: DiffKind::Removed },
        Chunk { text: text("c"), kind: DiffKind::Added },
    ];
    assert_eq!(
        shown(&settle(&good, &a, &b)),
        vec![
            expect(DiffKind::Same, "a"),
            expect(DiffKind::Removed, "b"),
            expect(DiffKind::Added, "c"),
        ]
    );
    let rewrite = vec![
        expect(DiffKind::Removed, "a"),
        expect(DiffKind::Removed, "b"),
        expect(DiffKind::Added, "a"),
        expect(DiffKind::Added, "c"),
    ];
    let lost = vec![
        Chunk { text: text("a"), kind: DiffKind::Same },
        Chunk { text: text("c"), kind: DiffKind::Added },
    ];
    assert_eq!(shown(&settle(&lost, &a, &b)), rewrite);
    let unchanged = vec![Chunk { text: text("a\nb"), kind: DiffKind::Same }];
    assert_eq!(shown(&settle(&unchanged, &a, &b)), rewrite);
    assert_eq!(shown(&settle(&Vec::new(), &a, &b)), rewrite);
}

#[test]
fn sides_joins_and_marks() {
    let lines = vec![text("a"), text(""), text("b c")];
    assert_eq!(joined(&lines), text("a\n\nb c"));
    assert_eq!(joined(&[]), text(""));
    assert_eq!(joined(&[text("only")]), text("only"));
    assert!(same_lines(&lines, &lines.clone()));
    assert!(!same_lines(&lines, &lines[..2]));
    assert!(!same_lines(&lines, &[text("a"), text(""), text("b d")]));
    let mut records = vec![DiffRecord { line: text("kept"), kind: DiffKind::Same }];
    mark(&lines[..2], DiffKind::Added, &mut records);
    mark(&lines[2..], DiffKind::Removed, &mut records);
    assert_eq!(
        shown(&records),
        vec![
            expect(DiffKind::Same, "kept"),
            expect(DiffKind::Added, "a"),
            expect(DiffKind::Added, ""),
            expect(DiffKind::Removed, "b c"),
        ]
    );
    assert_eq!(reference_side(&records), vec![text("kept"), text("b c")]);
    assert_eq!(compared_side(&records), vec![text("kept"), text("a"), text("")]);
    assert!(small_enough(&text("some text"), &text("some other text")));
}
