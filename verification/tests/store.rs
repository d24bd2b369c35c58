use askalono::store::analyze::form;
use askalono::{normalize, LicenseEntry, Score, Store, Threshold, Variant};

const MIT: &str = "MIT License

Copyright (c) <year> <copyright holders>

Permission is hereby granted, free of charge, to any person obtaining a copy
of this software and associated documentation files (the \"Software\"), to deal
in the Software without restriction, including without limitation the rights
to use, copy, modify, merge, publish, distribute, sublicense, and/or sell
copies of the Software, and to permit persons to whom the Software is
furnished to do so, subject to the following conditions:

The above copyright notice and this permission notice shall be included in all
copies or substantial portions of the Software.

THE SOFTWARE IS PROVIDED \"AS IS\", WITHOUT WARRANTY OF ANY KIND, EXPRESS OR
IMPLIED, INCLUDING BUT NOT LIMITED TO THE WARRANTIES OF MERCHANTABILITY,
FITNESS FOR A PARTICULAR PURPOSE AND NONINFRINGEMENT. IN NO EVENT SHALL THE
AUTHORS OR COPYRIGHT HOLDERS BE LIABLE FOR ANY CLAIM, DAMAGES OR OTHER
LIABILITY, WHETHER IN AN ACTION OF CONTRACT, TORT OR OTHERWISE, ARISING FROM,
OUT OF OR IN CONNECTION WITH THE SOFTWARE OR THE USE OR OTHER DEALINGS IN THE
SOFTWARE.
";

const ISC: &str = "ISC License

Copyright (c) <year> <copyright holders>

Permission to use, copy, modify, and/or distribute this software for any
purpose with or without fee is hereby granted, provided that the above
copyright notice and this permission notice appear in all copies.

THE SOFTWARE IS PROVIDED \"AS IS\" AND THE AUTHOR DISCLAIMS ALL WARRANTIES WITH
REGARD TO THIS SOFTWARE INCLUDING ALL IMPLIED WARRANTIES OF MERCHANTABILITY
AND FITNESS. IN NO EVENT SHALL THE AUTHOR BE LIABLE FOR ANY SPECIAL, DIRECT,
INDIRECT, OR CONSEQUENTIAL DAMAGES OR ANY DAMAGES WHATSOEVER RESULTING FROM
LOSS OF USE, DATA OR PROFITS, WHETHER IN AN ACTION OF CONTRACT, NEGLIGENCE OR
OTHER TORTIOUS ACTION, ARISING OUT OF OR IN CONNECTION WITH THE USE OR
PERFORMANCE OF THIS SOFTWARE.
";

const APACHE_HEADER: &str = "Licensed under the Apache License, Version 2.0 (the \"License\");
you may not use this file except in compliance with the License.
You may obtain a copy of the License at
    http://www.apache.org/licenses/LICENSE-2.0";

const APACHE: &str = "Apache License
Version 2.0, January 2004
http://www.apache.org/licenses/

TERMS AND CONDITIONS FOR USE, REPRODUCTION, AND DISTRIBUTION

2. Grant of Copyright License. Subject to the terms and conditions of
this License, each Contributor hereby grants to You a perpetual,
worldwide, non-exclusive, no-charge, royalty-free, irrevocable
copyright license to reproduce, prepare Derivative Works of,
publicly display, publicly perform, sublicense, and distribute the
Work and such Derivative Works in Source or Object form.
";

fn value(s: &Score) -> f64 {
    s.num() as f64 / s.den() as f64
}

fn known() -> Store {
    let mut store = Store::new();
    store.insert("MIT".to_string(), LicenseEntry::new(normalize(MIT)));
    store.insert("ISC".to_string(), LicenseEntry::new(normalize(ISC)));
    let mut apache = LicenseEntry::new(normalize(APACHE));
    apache.add_alias("Apache License 2.0".to_string());
    apache.add_header(normalize(APACHE_HEADER));
    store.insert("Apache-2.0".to_string(), apache);
    store
}

#[test]
fn a_new_store_is_empty_and_matches_nothing() {
    let store = Store::new();
    assert_eq!(store.len(), 0);
    assert_eq!((store.floor().num(), store.floor().den()), (4, 5));
    let result = store.analyze(&normalize(MIT));
    assert!(result.id.is_none());
    assert!(result.score.is_zero());
    assert!(result.matched_range.is_none());
    assert!(store.best_candidate(&normalize(MIT)).is_none());
}

#[test]
fn a_new_entry_holds_the_canonical_text_only() {
    let entry = LicenseEntry::new(normalize(MIT));
    assert_eq!(entry.original().raw(), MIT);
    assert!(entry.aliases().is_empty());
    assert!(entry.headers().is_empty());
    assert!(entry.alternates().is_empty());
}

#[test]
fn exact_match() {
    let store = known();
    let result = store.analyze(&normalize(MIT));
    assert_eq!(result.id.as_deref(), Some("MIT"));
    assert_eq!(value(&result.score), 1.0);
    assert!(result.score.is_one());
    assert_eq!(result.variant, Variant::Original);
    assert!(result.matched_range.is_none());
}

#[test]
fn reflexive_best_match_for_every_entry() {
    let store = known();
    for (id, text) in [("MIT", MIT), ("ISC", ISC), ("Apache-2.0", APACHE)] {
        let result = store.analyze(&normalize(text));
        assert_eq!(result.id.as_deref(), Some(id));
        assert!(result.score.is_one());
        assert_eq!(result.variant, Variant::Original);
    }
}

#[test]
fn formatting_and_case_do_not_matter() {
    let store = known();
    let shouted = MIT.to_uppercase().replace(' ', "   ").replace('\n', " \n\t");
    let result = store.analyze(&normalize(&shouted));
    assert_eq!(result.id.as_deref(), Some("MIT"));
    assert!(result.score.is_one());
}

#[test]
fn no_match() {
    let store = known();
    let prose = "It was the best of times, it was the worst of times, it was the age of
wisdom, it was the age of foolishness, it was the epoch of belief, it was the
epoch of incredulity, it was the season of Light, it was the season of Darkness";
    let result = store.analyze(&normalize(prose));
    assert!(result.id.is_none());
    assert!(value(&result.score) < 0.8);
    assert!(!result.score.meets(&store.floor()));
    assert!(result.aliases.is_empty());
    assert_eq!(result.variant, Variant::Original);
}

#[test]
fn a_header_matches_by_the_header_variant() {
    let store = known();
    let result = store.analyze(&normalize(APACHE_HEADER));
    assert_eq!(result.id.as_deref(), Some("Apache-2.0"));
    assert_eq!(result.variant, Variant::Header(0));
    assert!(result.score.is_one());
    assert_eq!(result.aliases, vec!["Apache License 2.0".to_string()]);
}

#[test]
fn an_alternate_matches_by_the_alternate_variant() {
    let mut entry = LicenseEntry::new(normalize("first wording of the license text"));
    entry.add_alternate(normalize("an unrelated rendering"));
    entry.add_alternate(normalize("second wording of the very same terms"));
    let mut store = Store::new();
    store.insert("X".to_string(), entry);
    let result = store.analyze(&normalize("second wording of the very same terms"));
    assert_eq!(result.id.as_deref(), Some("X"));
    assert_eq!(result.variant, Variant::Alternate(1));
    let entry = store.get(&"X".to_string()).unwrap();
    assert_eq!(
        form(entry, Variant::Alternate(1)).unwrap().raw(),
        "second wording of the very same terms"
    );
    assert_eq!(form(entry, Variant::Original).unwrap().raw(), "first wording of the license text");
    assert!(form(entry, Variant::Alternate(2)).is_none());
    assert!(form(entry, Variant::Header(0)).is_none());
}

#[test]
fn of_equal_forms_the_first_is_named() {
    let mut entry = LicenseEntry::new(normalize("the same text twice"));
    entry.add_header(normalize("the same text twice"));
    entry.add_alternate(normalize("the same text twice"));
    let mut store = Store::new();
    store.insert("twice".to_string(), entry);
    let result = store.analyze(&normalize("the same text twice"));
    assert_eq!(result.variant, Variant::Original);
}

#[test]
fn ties_go_to_the_identifier_that_comes_first() {
    let text = "one and the same license text";
    for order in [["B", "A", "C"], ["C", "B", "A"], ["A", "C", "B"]] {
        let mut store = Store::new();
        for id in order {
            store.insert(id.to_string(), LicenseEntry::new(normalize(text)));
        }
        let result = store.analyze(&normalize(text));
        assert_eq!(result.id.as_deref(), Some("A"));
    }
}

#[test]
fn the_order_of_insertion_does_not_matter() {
    let texts = [("MIT", MIT), ("ISC", ISC), ("Apache-2.0", APACHE)];
    let queries = [MIT, ISC, APACHE, "permission is hereby granted provided that", ""];
    let mut forward = Store::new();
    let mut backward = Store::new();
    for (id, text) in texts.iter() {
        forward.insert(id.to_string(), LicenseEntry::new(normalize(text)));
    }
    for (id, text) in texts.iter().rev() {
        backward.insert(id.to_string(), LicenseEntry::new(normalize(text)));
    }
    forward.set_floor(Threshold::new(0, 1).unwrap());
    backward.set_floor(Threshold::new(0, 1).unwrap());
    for q in queries {
        let a = forward.analyze(&normalize(q));
        let b = backward.analyze(&normalize(q));
        assert_eq!(a.id, b.id);
        assert_eq!(a.variant, b.variant);
        assert_eq!((a.score.num(), a.score.den()), (b.score.num(), b.score.den()));
    }
}

#[test]
fn inserting_under_a_known_identifier_replaces() {
    let mut store = Store::new();
    store.insert("L".to_string(), LicenseEntry::new(normalize("the old text of it")));
    store.insert("M".to_string(), LicenseEntry::new(normalize("another license text")));
    store.insert("L".to_string(), LicenseEntry::new(normalize("the new text of it")));
    assert_eq!(store.len(), 2);
    assert_eq!(store.index_of(&"L".to_string()), Some(0));
    assert_eq!(store.index_of(&"M".to_string()), Some(1));
    assert_eq!(store.index_of(&"N".to_string()), None);
    assert_eq!(store.id_at(1), "M");
    assert_eq!(store.entry_at(0).original().raw(), "the new text of it");
    assert_eq!(store.get(&"L".to_string()).unwrap().original().raw(), "the new text of it");
    assert!(store.get(&"N".to_string()).is_none());
}

#[test]
fn the_floor_decides_what_is_reported() {
    let mut store = known();
    let close = MIT.replace("Permission is hereby granted", "Leave is given");
    let strict = store.analyze(&normalize(&close));
    assert_eq!(strict.id.as_deref(), Some("MIT"));
    store.set_floor(Threshold::new(1, 1).unwrap());
    let exact_only = store.analyze(&normalize(&close));
    assert!(exact_only.id.is_none());
    assert_eq!(
        (exact_only.score.num(), exact_only.score.den()),
        (strict.score.num(), strict.score.den())
    );
    assert_eq!(store.analyze(&normalize(MIT)).id.as_deref(), Some("MIT"));
}

#[test]
fn scoring_by_entry_and_choosing_gives_the_analysis() {
    let store = known();
    for q in [MIT, ISC, APACHE_HEADER, "nothing like a license"] {
        let query = normalize(q);
        // Choose among the candidates from last to first.
        let mut best = None;
        for i in (0..store.len()).rev() {
            best = store.prefer(Some(store.score_entry(i, &query)), best);
        }
        let combined = store.conclude(best);
        let direct = store.analyze(&query);
        assert_eq!(combined.id, direct.id);
        assert_eq!(combined.variant, direct.variant);
        assert_eq!(combined.aliases, direct.aliases);
        assert_eq!(
            (combined.score.num(), combined.score.den()),
            (direct.score.num(), direct.score.den())
        );
    }
}

#[test]
fn locating_finds_a_license_inside_a_longer_text() {
    let store = known();
    let mut document = String::from("Project notes\nwritten by someone\n\n");
    document.push_str(MIT);
    for i in 0..60 {
        document.push_str(&format!("chapter {} speaks of matter {} at length {}\n", i, i * 7, i * 13));
    }
    let query = normalize(&document);
    let whole = store.analyze(&query);
    assert!(whole.id.is_none());
    let found = store.locate(&query);
    assert_eq!(found.id.as_deref(), Some("MIT"));
    assert_eq!(found.variant, Variant::Original);
    let range = found.matched_range.unwrap();
    // The empty line before the license adds no word: the window that begins
    // there is the first that holds the license and nothing else.
    assert_eq!((range.first, range.last), (2, 23));
    assert!(found.score.is_one());
    assert!(found.score.meets(&store.floor()));
    assert!(!whole.score.meets(&store.floor()));
}

#[test]
fn locating_reports_no_match_for_unrelated_text() {
    let store = known();
    let prose = "nothing\nin\nthese\nlines\nis\na\nlicense\nof\nany\nkind";
    let found = store.locate(&normalize(prose));
    assert!(found.id.is_none());
    assert!(found.matched_range.is_none());
    assert!(Store::new().locate(&normalize(prose)).id.is_none());
}

#[test]
fn the_default_store_is_a_new_store() {
    let store = Store::default();
    assert_eq!(store.len(), 0);
    assert_eq!((store.floor().num(), store.floor().den()), (4, 5));
    assert_eq!(store.to_bytes(), Store::new().to_bytes());
}
