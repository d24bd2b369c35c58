use askalono::{normalize, CacheError, LicenseEntry, Store, Threshold};

fn sample() -> Store {
    let mut store = Store::new();
    let mut first = LicenseEntry::new(normalize("The First License\n\nDo as you please, but say so."));
    first.add_alias("First".to_string());
    first.add_alias("F-1.0".to_string());
    first.add_header(normalize("Licensed under the First License"));
    first.add_alternate(normalize("THE FIRST LICENSE: do as you please, but say so"));
    store.insert("First-1.0".to_string(), first);
    store.insert(
        "Zweite-Lizenz".to_string(),
        LicenseEntry::new(normalize("Die zweite Lizenz: Änderungen müssen genannt werden — immer.")),
    );
    store.set_floor(Threshold::new(3, 4).unwrap());
    store
}

fn same_report(a: &Store, b: &Store, query: &str) {
    let q = normalize(query);
    let (x, y) = (a.analyze(&q), b.analyze(&q));
    assert_eq!(x.id, y.id);
    assert_eq!(x.variant, y.variant);
    assert_eq!(x.aliases, y.aliases);
    assert_eq!((x.score.num(), x.score.den()), (y.score.num(), y.score.den()));
    assert_eq!(x.matched_range, y.matched_range);
    let (x, y) = (a.locate(&q), b.locate(&q));
    assert_eq!(x.id, y.id);
    assert_eq!((x.score.num(), x.score.den()), (y.score.num(), y.score.den()));
    assert_eq!(x.matched_range, y.matched_range);
}

#[test]
fn cache_round_trip() {
    let store = sample();
    let blob = store.to_bytes();
    let loaded = Store::from_bytes(&blob).unwrap();
    assert_eq!(loaded.len(), 2);
    assert_eq!((loaded.floor().num(), loaded.floor().den()), (3, 4));
    assert_eq!(loaded.id_at(0), "First-1.0");
    assert_eq!(loaded.id_at(1), "Zweite-Lizenz");
    let first = loaded.entry_at(0);
    assert_eq!(first.original().raw(), "The First License\n\nDo as you please, but say so.");
    assert_eq!(first.aliases(), &vec!["First".to_string(), "F-1.0".to_string()]);
    assert_eq!(first.headers().len(), 1);
    assert_eq!(first.headers()[0].raw(), "Licensed under the First License");
    assert_eq!(first.alternates().len(), 1);
    assert_eq!(
        loaded.entry_at(1).original().raw(),
        "Die zweite Lizenz: Änderungen müssen genannt werden — immer."
    );
    assert_eq!(loaded.to_bytes(), blob);
    for query in [
        "The First License\n\nDo as you please, but say so.",
        "licensed under the first license",
        "Die zweite Lizenz: Änderungen müssen genannt werden — immer.",
        "the first license do as you please",
        "nothing of the kind",
        "",
    ] {
        same_report(&store, &loaded, query);
    }
}

#[test]
fn an_empty_store_round_trips() {
    let blob = Store::new().to_bytes();
    assert_eq!(blob.len(), 4 + 1 + 4 + 4 + 8);
    assert_eq!(&blob[..5], b"askl\x01");
    let loaded = Store::from_bytes(&blob).unwrap();
    assert_eq!(loaded.len(), 0);
    assert_eq!((loaded.floor().num(), loaded.floor().den()), (4, 5));
}

#[test]
fn the_blob_is_laid_out_as_described() {
    let mut store = Store::new();
    store.insert("é".to_string(), LicenseEntry::new(normalize("ab")));
    let blob = store.to_bytes();
    let mut expected: Vec<u8> = Vec::new();
    expected.extend_from_slice(b"askl");
    expected.push(1);
    expected.extend_from_slice(&4u32.to_le_bytes());
    expected.extend_from_slice(&5u32.to_le_bytes());
    expected.extend_from_slice(&1u64.to_le_bytes());
    expected.extend_from_slice(&2u64.to_le_bytes());
    expected.extend_from_slice("é".as_bytes());
    expected.extend_from_slice(&2u64.to_le_bytes());
    expected.extend_from_slice(b"ab");
    expected.extend_from_slice(&0u64.to_le_bytes());
    expected.extend_from_slice(&0u64.to_le_bytes());
    expected.extend_from_slice(&0u64.to_le_bytes());
    assert_eq!(blob, expected);
}

#[test]
fn bytes_that_are_no_blob_are_corrupt() {
    assert_eq!(Store::from_bytes(b"").err(), Some(CacheError::Corrupt));
    assert_eq!(Store::from_bytes(b"askl").err(), Some(CacheError::Corrupt));
    assert_eq!(Store::from_bytes(b"gzip\x01 and so on").err(), Some(CacheError::Corrupt));
    assert_eq!(Store::from_bytes(b"askl\x01").err(), Some(CacheError::Corrupt));
}

#[test]
fn another_version_is_a_version_mismatch() {
    let mut blob = sample().to_bytes();
    blob[4] = 2;
    assert_eq!(Store::from_bytes(&blob).err(), Some(CacheError::VersionMismatch));
    blob[4] = 0;
    assert_eq!(Store::from_bytes(&blob).err(), Some(CacheError::VersionMismatch));
    assert_eq!(Store::from_bytes(b"askl\x07").err(), Some(CacheError::VersionMismatch));
}

#[test]
fn a_blob_cut_short_is_corrupt() {
    let blob = sample().to_bytes();
    for cut in 5..blob.len() {
        assert_eq!(Store::from_bytes(&blob[..cut]).err(), Some(CacheError::Corrupt));
    }
}

#[test]
fn bytes_after_the_last_entry_are_corrupt() {
    let mut blob = sample().to_bytes();
    blob.push(0);
    assert_eq!(Store::from_bytes(&blob).err(), Some(CacheError::Corrupt));
}

#[test]
fn text_that_is_not_utf8_is_corrupt() {
    let mut store = Store::new();
    store.insert("id".to_string(), LicenseEntry::new(normalize("text")));
    let mut blob = store.to_bytes();
    let at = blob.len() - 3 * 8 - 1;
    assert_eq!(blob[at], b't');
    blob[at] = 0xff;
    assert_eq!(Store::from_bytes(&blob).err(), Some(CacheError::Corrupt));
}

#[test]
fn an_identifier_twice_is_corrupt() {
    let mut one = Store::new();
    one.insert("same".to_string(), LicenseEntry::new(normalize("first text")));
    let mut two = Store::new();
    two.insert("same".to_string(), LicenseEntry::new(normalize("second text")));
    let head = 4 + 1 + 4 + 4;
    let mut blob = one.to_bytes();
    blob.extend_from_slice(&two.to_bytes()[head + 8..]);
    blob[head..head + 8].copy_from_slice(&2u64.to_le_bytes());
    assert_eq!(Store::from_bytes(&blob).err(), Some(CacheError::Corrupt));
    // With another identifier the same bytes are a store of two entries.
    let at = blob.len() - 3 * 8 - "second text".len() - 8 - 1;
    assert_eq!(blob[at], b'e');
    blob[at] = b'E';
    let loaded = Store::from_bytes(&blob).unwrap();
    assert_eq!(loaded.len(), 2);
    assert_eq!(loaded.id_at(1), "samE");
}

#[test]
fn an_empty_canonical_text_is_corrupt() {
    let mut store = Store::new();
    store.insert("id".to_string(), LicenseEntry::new(normalize("x")));
    let blob = store.to_bytes();
    let mut emptied: Vec<u8> = blob[..blob.len() - 3 * 8 - 1 - 8].to_vec();
    emptied.extend_from_slice(&0u64.to_le_bytes());
    emptied.extend_from_slice(&[0u8; 24]);
    assert_eq!(Store::from_bytes(&emptied).err(), Some(CacheError::Corrupt));
}

#[test]
fn a_floor_that_is_no_fraction_is_corrupt() {
    let mut blob = sample().to_bytes();
    blob[9..13].copy_from_slice(&0u32.to_le_bytes());
    assert_eq!(Store::from_bytes(&blob).err(), Some(CacheError::Corrupt));
    let mut blob = sample().to_bytes();
    blob[5..9].copy_from_slice(&5u32.to_le_bytes());
    assert_eq!(Store::from_bytes(&blob).err(), Some(CacheError::Corrupt));
}

#[test]
fn a_count_beyond_the_entries_is_corrupt() {
    let mut blob = sample().to_bytes();
    blob[13..21].copy_from_slice(&u64::MAX.to_le_bytes());
    assert_eq!(Store::from_bytes(&blob).err(), Some(CacheError::Corrupt));
    let mut blob = sample().to_bytes();
    blob[13..21].copy_from_slice(&1u64.to_le_bytes());
    assert_eq!(Store::from_bytes(&blob).err(), Some(CacheError::Corrupt));
}
