use askalono::order::{place, precedes, Place};
use askalono::score::similar;
use askalono::{normalize, score, Score, Threshold};

fn value(s: &Score) -> f64 {
    s.num() as f64 / s.den() as f64
}

#[test]
fn score_is_twice_the_shared_over_the_sizes() {
    let a = normalize("a b c d");
    let b = normalize("a b c e");
    let s = score(a.fingerprint(), b.fingerprint());
    assert_eq!(s.num(), 4);
    assert_eq!(s.den(), 6);
    assert!(!s.is_one());
    assert!(!s.is_zero());
}

#[test]
fn score_ignores_how_often_a_shingle_occurs() {
    let a = normalize("a b a b a b");
    let b = normalize("a b");
    let s = similar(&a, &b);
    // The shingles of the first text are "a b" and "b a".
    assert_eq!(s.num(), 2);
    assert_eq!(s.den(), 3);
}

#[test]
fn score_is_symmetric() {
    let a = normalize("permission is hereby granted free of charge");
    let b = normalize("permission is granted free of any charge");
    let ab = similar(&a, &b);
    let ba = similar(&b, &a);
    assert_eq!(ab.num(), ba.num());
    assert_eq!(ab.den(), ba.den());
    assert!(ab.le(&ba) && ba.le(&ab));
}

#[test]
fn score_lies_between_zero_and_one() {
    let texts = ["", "one", "one two", "one two three", "three two one", "One  TWO\nthree"];
    for a in texts.iter() {
        for b in texts.iter() {
            let s = similar(&normalize(a), &normalize(b));
            assert!(s.num() <= s.den());
            assert!(s.den() > 0);
            assert!(0.0 <= value(&s) && value(&s) <= 1.0);
        }
    }
}

#[test]
fn score_of_a_text_with_itself_is_one() {
    let a = normalize("redistribution and use in source and binary forms");
    let s = similar(&a, &a);
    assert!(s.is_one());
    assert_eq!(value(&s), 1.0);
}

#[test]
fn score_of_empty_texts_is_zero() {
    let empty = normalize("");
    let other = normalize("some words here");
    assert!(similar(&empty, &empty).is_zero());
    assert_eq!(value(&similar(&empty, &empty)), 0.0);
    assert!(similar(&empty, &other).is_zero());
    assert!(similar(&other, &empty).is_zero());
    assert!(!similar(&empty, &empty).is_one());
}

#[test]
fn score_of_disjoint_texts_is_zero() {
    let a = normalize("alpha beta gamma");
    let b = normalize("delta epsilon zeta");
    assert!(similar(&a, &b).is_zero());
    // The same words in another order share no pair.
    let c = normalize("gamma beta alpha");
    assert!(similar(&a, &c).is_zero());
}

#[test]
fn scores_compare_as_fractions() {
    let q = normalize("a b c d");
    let third = similar(&q, &normalize("a b x y z w v"));
    let most = similar(&q, &normalize("a b c e"));
    let all = similar(&q, &q);
    assert!(third.le(&most) && !most.le(&third));
    assert!(most.le(&all) && !all.le(&most));
    assert!(Score::zero().le(&third) && !third.le(&Score::zero()));
    assert!(Score::zero().le(&Score::zero()));
    assert!(all.le(&all));
}

#[test]
fn floors_are_fractions_between_zero_and_one() {
    assert!(Threshold::new(4, 5).is_some());
    assert!(Threshold::new(0, 1).is_some());
    assert!(Threshold::new(1, 1).is_some());
    assert!(Threshold::new(1, 0).is_none());
    assert!(Threshold::new(6, 5).is_none());
    let standard = Threshold::standard();
    assert_eq!((standard.num(), standard.den()), (4, 5));
}

#[test]
fn a_score_meets_the_floors_at_or_below_it() {
    let q = normalize("a b c d");
    let two_thirds = similar(&q, &normalize("a b c e"));
    assert!(two_thirds.meets(&Threshold::new(2, 3).unwrap()));
    assert!(two_thirds.meets(&Threshold::new(1, 2).unwrap()));
    assert!(!two_thirds.meets(&Threshold::new(4, 5).unwrap()));
    assert!(Score::zero().meets(&Threshold::new(0, 1).unwrap()));
    assert!(!Score::zero().meets(&Threshold::new(1, 100).unwrap()));
}

#[test]
fn identifiers_are_ordered_by_their_characters() {
    assert!(precedes("Apache-2.0", "MIT"));
    assert!(!precedes("MIT", "Apache-2.0"));
    assert!(precedes("MIT", "MIT-0"));
    assert!(!precedes("MIT", "MIT"));
    assert!(precedes("", "a"));
    assert!(!precedes("", ""));
    assert!(precedes("Z", "a"));
}

#[test]
fn texts_are_placed_by_their_characters() {
    let t = |s: &str| -> Vec<char> { s.chars().collect() };
    assert_eq!(place(&t("abc"), &t("abd")), Place::Before);
    assert_eq!(place(&t("abd"), &t("abc")), Place::After);
    assert_eq!(place(&t("abc"), &t("abc")), Place::Same);
    assert_eq!(place(&t("ab"), &t("abc")), Place::Before);
    assert_eq!(place(&t("abc"), &t("ab")), Place::After);
    assert_eq!(place(&t(""), &t("")), Place::Same);
    assert_eq!(place(&t(""), &t("a")), Place::Before);
    assert_eq!(place(&t("é"), &t("z")), Place::After);
}

#[test]
fn shingles_are_counted_whatever_their_order() {
    let data = normalize("z y x w z y a b a b z y");
    let fp = data.fingerprint();
    let t = |s: &str| -> Vec<char> { s.chars().collect() };
    assert_eq!(fp.len(), 8);
    assert_eq!(fp.count(&t("z y")), 3);
    assert_eq!(fp.count(&t("a b")), 2);
    assert_eq!(fp.count(&t("b a")), 1);
    assert_eq!(fp.count(&t("y x")), 1);
    assert_eq!(fp.count(&t("x w")), 1);
    assert_eq!(fp.count(&t("w z")), 1);
    assert_eq!(fp.count(&t("y a")), 1);
    assert_eq!(fp.count(&t("b z")), 1);
    assert_eq!(fp.count(&t("y z")), 0);
    let other = normalize("b a x w q r");
    assert_eq!(fp.shared_with(other.fingerprint()), 2);
    assert_eq!(other.fingerprint().shared_with(fp), 2);
}
