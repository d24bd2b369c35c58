use askalono::{normalize, optimize, LicenseEntry, LineRange, Score, Store, Threshold, Variant};

const APACHE_HEADER: &str = "Licensed under the Apache License, Version 2.0 (the \"License\");
you may not use this file except in compliance with the License.
You may obtain a copy of the License at
    http://www.apache.org/licenses/LICENSE-2.0";

fn value(s: &Score) -> f64 {
    s.num() as f64 / s.den() as f64
}

fn code(lines: usize) -> String {
    let mut out = String::new();
    for i in 0..lines {
        out.push_str(&format!("    let value_{} = compute_{}(input_{}, state_{});\n", i, i, i, i));
    }
    out
}

fn source_file() -> String {
    let mut file = String::new();
    for line in APACHE_HEADER.lines() {
        file.push_str("// ");
        file.push_str(line);
        file.push('\n');
    }
    file.push_str(&code(200));
    file
}

#[test]
fn embedded_header() {
    let mut store = Store::new();
    let mut apache = LicenseEntry::new(normalize("Apache License\nVersion 2.0, January 2004"));
    let header: String =
        APACHE_HEADER.lines().map(|l| format!("// {}", l)).collect::<Vec<_>>().join("\n");
    apache.add_header(normalize(&header));
    store.insert("Apache-2.0".to_string(), apache);
    let query = normalize(&source_file());
    assert_eq!(query.lines().len(), 205);

    let whole = store.analyze(&query);
    assert!(whole.id.is_none());
    assert!(value(&whole.score) < 0.2);

    let reference = normalize(&header);
    let (score, range) = optimize(&query, &reference, &store.floor());
    assert_eq!(range, LineRange { first: 0, last: 3 });
    assert!(value(&score) >= 0.8);
    assert!(score.is_one());

    let found = store.locate(&query);
    assert_eq!(found.id.as_deref(), Some("Apache-2.0"));
    assert_eq!(found.variant, Variant::Header(0));
    assert_eq!(found.matched_range, Some(LineRange { first: 0, last: 3 }));
    assert!(found.score.is_one());
}

#[test]
fn a_header_in_the_middle_is_found() {
    let mut file = code(40);
    file.push_str(APACHE_HEADER);
    file.push('\n');
    file.push_str(&code(30).replace("value", "other"));
    let query = normalize(&file);
    let reference = normalize(APACHE_HEADER);
    let (score, range) = optimize(&query, &reference, &Threshold::standard());
    assert_eq!(range, LineRange { first: 40, last: 43 });
    assert!(score.is_one());
}

#[test]
fn the_window_shrinks_to_a_shorter_match() {
    // The reference ends in two lines that the text does not have.
    let reference = normalize("one two three\nfour five six\nseven eight nine\nzz yy xx\nww vv uu");
    let text = "one two three\nfour five six\nseven eight nine\ngamma delta\nepsilon zeta\neta theta\n";
    let (score, range) = optimize(&normalize(text), &reference, &Threshold::new(1, 2).unwrap());
    assert_eq!(range, LineRange { first: 0, last: 2 });
    // Eight shingles in the window, all of them among the fourteen of the reference.
    assert_eq!((score.num(), score.den()), (16, 22));
}

#[test]
fn only_the_end_of_the_window_is_moved() {
    // Two starts score the same with a window of five lines; the first is kept,
    // and the line before the match stays in the range.
    let reference = normalize("one two three\nfour five six\nseven eight nine\nzz yy xx\nww vv uu");
    let text = "alpha beta\none two three\nfour five six\nseven eight nine\ngamma delta\nepsilon zeta\neta theta\n";
    let (score, range) = optimize(&normalize(text), &reference, &Threshold::new(1, 2).unwrap());
    assert_eq!(range, LineRange { first: 0, last: 3 });
    assert_eq!((score.num(), score.den()), (16, 24));
}

#[test]
fn the_range_lies_within_the_text() {
    let reference = normalize(APACHE_HEADER);
    let texts = [
        String::new(),
        "one line".to_string(),
        "a\nb".to_string(),
        "a\nb\nc".to_string(),
        "a\nb\nc\nd\ne\nf\ng\nh\ni\nj\nk\nl".to_string(),
        APACHE_HEADER.to_string(),
        source_file(),
    ];
    for floor in [Threshold::new(0, 1).unwrap(), Threshold::standard(), Threshold::new(1, 1).unwrap()] {
        for text in texts.iter() {
            let query = normalize(text);
            let (score, range) = optimize(&query, &reference, &floor);
            assert!(range.first <= range.last);
            assert!(range.last < query.lines().len());
            assert!(score.num() <= score.den());
        }
    }
}

#[test]
fn a_reference_longer_than_the_text_falls_back_to_the_whole() {
    let reference = normalize("l1 a\nl2 b\nl3 c\nl4 d\nl5 e\nl6 f");
    let query = normalize("l1 a\nl2 b\nl3 c\nl4 d");
    let (score, range) = optimize(&query, &reference, &Threshold::new(0, 1).unwrap());
    assert_eq!(range, LineRange { first: 0, last: 3 });
    let whole = askalono::score::similar(&query, &reference);
    assert_eq!((score.num(), score.den()), (whole.num(), whole.den()));
    assert_eq!((score.num(), score.den()), (14, 18));
}

#[test]
fn a_short_text_is_compared_as_a_whole() {
    let reference = normalize("x y z");
    let query = normalize("noise here\nx y z");
    let (score, range) = optimize(&query, &reference, &Threshold::new(0, 1).unwrap());
    assert_eq!(range, LineRange { first: 0, last: 1 });
    assert_eq!((score.num(), score.den()), (4, 6));
}

#[test]
fn a_window_below_the_floor_falls_back_to_the_whole() {
    let reference = normalize("one two three four\nfive six seven eight");
    let query = normalize("nothing\nof\nthe\nkind\nis\nhere\nat\nall");
    let (score, range) = optimize(&query, &reference, &Threshold::standard());
    assert_eq!(range, LineRange { first: 0, last: 7 });
    assert!(score.is_zero());
}

#[test]
fn of_equal_windows_the_first_is_taken() {
    let reference = normalize("a b c");
    let query = normalize("x\na b c\ny\na b c\nz");
    let (score, range) = optimize(&query, &reference, &Threshold::standard());
    assert_eq!(range, LineRange { first: 1, last: 1 });
    assert!(score.is_one());
}
