//! The cache blob: a store written out as bytes, and read back.
//!
//! A blob begins with four magic bytes and one byte for the version of the
//! format. Then come the confidence floor, as two 32-bit numbers, and the
//! number of entries. Each entry is its identifier, its canonical text, and
//! three lists: aliases, headers, alternates. A list is the number of its
//! items, then the items. A string is the number of its bytes, then the bytes,
//! in UTF-8. Every number is little-endian; lengths and counts have 64 bits.
//!
//! Texts are stored raw. Their normalized lines and fingerprints are made
//! again on reading, and come out the same, being functions of the raw text.
//!
//! Reading accepts exactly the blobs that writing makes.

use vstd::bytes::{
    lemma_auto_spec_u32_to_from_le_bytes, lemma_auto_spec_u64_to_from_le_bytes,
    spec_u32_from_le_bytes, spec_u32_to_le_bytes, spec_u64_from_le_bytes, spec_u64_to_le_bytes,
};
use vstd::prelude::*;
use vstd::utf8::{
    decode_utf8, decode_utf8_encode_utf8, encode_utf8, encode_utf8_decode_utf8,
    encode_utf8_valid_utf8, valid_utf8,
};
use crate::score::{Ratio, Threshold};
use crate::store::analyze::{analysis, refined_analysis};
use crate::store::base::{names, raws, EntryView, LicenseEntry, Store, StoreView};
use crate::text::{normalize, TextData};

verus! {

/// The version of the format that this library writes and reads.
pub const FORMAT_VERSION: u8 = 1;

/// The bytes that every blob begins with.
pub open spec fn magic() -> Seq<u8> {
    seq![0x61u8, 0x73u8, 0x6bu8, 0x6cu8]
}

/// Why a blob could not be read.
#[derive(Clone, Copy, Debug, PartialEq, Eq, Structural)]
pub enum CacheError {
    /// The bytes are not a blob of this format, or not a whole and sound one.
    Corrupt,
    /// The blob was written in another version of the format.
    VersionMismatch,
}

/// A 32-bit number as bytes.
pub open spec fn write_u32(n: u32) -> Seq<u8> {
    spec_u32_to_le_bytes(n)
}

/// Reads a 32-bit number from the front of `b`; gives the number and the
/// bytes after it.
pub open spec fn read_u32(b: Seq<u8>) -> Option<(u32, Seq<u8>)> {
    if b.len() >= 4 {
        Some((spec_u32_from_le_bytes(b.take(4)), b.skip(4)))
    } else {
        None
    }
}

/// A 64-bit number as bytes.
pub open spec fn write_u64(n: u64) -> Seq<u8> {
    spec_u64_to_le_bytes(n)
}

/// Reads a 64-bit number from the front of `b`.
pub open spec fn read_u64(b: Seq<u8>) -> Option<(u64, Seq<u8>)> {
    if b.len() >= 8 {
        Some((spec_u64_from_le_bytes(b.take(8)), b.skip(8)))
    } else {
        None
    }
}

/// A string as bytes: the number of its bytes in UTF-8, then those bytes.
pub open spec fn write_str(s: Seq<char>) -> Seq<u8> {
    write_u64(encode_utf8(s).len() as u64) + encode_utf8(s)
}

/// Reads a string from the front of `b`.
pub open spec fn read_str(b: Seq<u8>) -> Option<(Seq<char>, Seq<u8>)> {
    match read_u64(b) {
        Some((n, rest)) => if n <= rest.len() && valid_utf8(rest.take(n as int)) {
            Some((decode_utf8(rest.take(n as int)), rest.skip(n as int)))
        } else {
            None
        },
        None => None,
    }
}

/// Strings as bytes, one after the other.
pub open spec fn write_strs(items: Seq<Seq<char>>) -> Seq<u8>
    decreases items.len(),
{
    if items.len() == 0 {
        Seq::<u8>::empty()
    } else {
        write_str(items.first()) + write_strs(items.drop_first())
    }
}

/// Reads `n` strings from the front of `b`.
pub open spec fn read_strs(b: Seq<u8>, n: nat) -> Option<(Seq<Seq<char>>, Seq<u8>)>
    decreases n,
{
    if n == 0 {
        Some((Seq::<Seq<char>>::empty(), b))
    } else {
        match read_str(b) {
            Some((s, rest)) => match read_strs(rest, (n - 1) as nat) {
                Some((more, after)) => Some((seq![s] + more, after)),
                None => None,
            },
            None => None,
        }
    }
}

/// A list of strings as bytes: the number of strings, then the strings.
pub open spec fn write_list(items: Seq<Seq<char>>) -> Seq<u8> {
    write_u64(items.len() as u64) + write_strs(items)
}

/// Reads a list of strings from the front of `b`.
pub open spec fn read_list(b: Seq<u8>) -> Option<(Seq<Seq<char>>, Seq<u8>)> {
    match read_u64(b) {
        Some((n, rest)) => read_strs(rest, n as nat),
        None => None,
    }
}

/// An entry under its identifier as bytes.
#[verifier::opaque]
pub open spec fn write_entry(id: Seq<char>, e: EntryView) -> Seq<u8> {
    write_str(id) + write_str(e.original) + write_list(e.aliases) + write_list(e.headers)
        + write_list(e.alternates)
}

/// Reads an entry and its identifier from the front of `b`.
#[verifier::opaque]
pub open spec fn read_entry(b: Seq<u8>) -> Option<((Seq<char>, EntryView), Seq<u8>)> {
    match read_str(b) {
        Some((id, b1)) => match read_str(b1) {
            Some((original, b2)) => match read_list(b2) {
                Some((aliases, b3)) => match read_list(b3) {
                    Some((headers, b4)) => match read_list(b4) {
                        Some((alternates, b5)) => Some(
                            ((id, EntryView { original, aliases, headers, alternates }), b5),
                        ),
                        None => None,
                    },
                    None => None,
                },
                None => None,
            },
            None => None,
        },
        None => None,
    }
}

/// Entries under their identifiers as bytes, one after the other.
pub open spec fn write_entries(ids: Seq<Seq<char>>, entries: Seq<EntryView>) -> Seq<u8>
    decreases entries.len(),
{
    if entries.len() == 0 || ids.len() == 0 {
        Seq::<u8>::empty()
    } else {
        write_entry(ids.first(), entries.first()) + write_entries(
            ids.drop_first(),
            entries.drop_first(),
        )
    }
}

/// Reads `n` entries with their identifiers from the front of `b`.
pub open spec fn read_entries(b: Seq<u8>, n: nat) -> Option<
    ((Seq<Seq<char>>, Seq<EntryView>), Seq<u8>),
>
    decreases n,
{
    if n == 0 {
        Some(((Seq::<Seq<char>>::empty(), Seq::<EntryView>::empty()), b))
    } else {
        match read_entry(b) {
            Some(((id, e), rest)) => match read_entries(rest, (n - 1) as nat) {
                Some(((ids, entries), after)) => Some(((seq![id] + ids, seq![e] + entries), after)),
                None => None,
            },
            None => None,
        }
    }
}

/// What follows the version in a blob: the floor and the entries.
pub open spec fn write_body(s: StoreView) -> Seq<u8> {
    write_u32(s.floor.num as u32) + write_u32(s.floor.den as u32) + write_u64(
        s.entries.len() as u64,
    ) + write_entries(s.ids, s.entries)
}

/// Reads what follows the version in a blob.
pub open spec fn read_body(b: Seq<u8>) -> Option<(StoreView, Seq<u8>)> {
    match read_u32(b) {
        Some((num, b1)) => match read_u32(b1) {
            Some((den, b2)) => match read_u64(b2) {
                Some((n, b3)) => match read_entries(b3, n as nat) {
                    Some(((ids, entries), b4)) => Some(
                        (
                            StoreView {
                                floor: Ratio { num: num as nat, den: den as nat },
                                ids,
                                entries,
                            },
                            b4,
                        ),
                    ),
                    None => None,
                },
                None => None,
            },
            None => None,
        },
        None => None,
    }
}

/// A store as a blob.
pub open spec fn write_store(s: StoreView) -> Seq<u8> {
    magic().push(FORMAT_VERSION) + write_body(s)
}

/// Reads a blob. Bytes that do not begin with the magic bytes are corrupt;
/// after those, another version than this library's is a version mismatch;
/// and what follows must be a sound store and nothing more.
pub open spec fn read_store(b: Seq<u8>) -> Result<StoreView, CacheError> {
    if b.len() < 5 || b.take(4) != magic() {
        Err(CacheError::Corrupt)
    } else if b[4] != FORMAT_VERSION {
        Err(CacheError::VersionMismatch)
    } else {
        match read_body(b.skip(5)) {
            Some((s, rest)) => if rest.len() == 0 && s.valid() {
                Ok(s)
            } else {
                Err(CacheError::Corrupt)
            },
            None => Err(CacheError::Corrupt),
        }
    }
}

/// Whether a string can be written: the number of its bytes has 64 bits.
pub open spec fn str_fits(s: Seq<char>) -> bool {
    encode_utf8(s).len() <= u64::MAX
}

/// Whether a list of strings can be written.
pub open spec fn list_fits(items: Seq<Seq<char>>) -> bool {
    &&& items.len() <= u64::MAX
    &&& forall|i: int| 0 <= i < items.len() ==> str_fits(#[trigger] items[i])
}

/// Whether an entry can be written.
pub open spec fn entry_fits(id: Seq<char>, e: EntryView) -> bool {
    &&& str_fits(id)
    &&& str_fits(e.original)
    &&& list_fits(e.aliases)
    &&& list_fits(e.headers)
    &&& list_fits(e.alternates)
}

/// Whether a store can be written: every count and length in it has 64 bits,
/// and the floor's numbers have 32.
pub open spec fn store_fits(s: StoreView) -> bool {
    &&& s.floor.num <= u32::MAX
    &&& s.floor.den <= u32::MAX
    &&& s.entries.len() <= u64::MAX
    &&& s.ids.len() == s.entries.len()
    &&& forall|i: int| 0 <= i < s.entries.len() ==> entry_fits(#[trigger] s.ids[i], s.entries[i])
}

/// A 32-bit number is read back as it was written.
pub proof fn lemma_read_u32(n: u32, rest: Seq<u8>)
    ensures
        read_u32(write_u32(n) + rest) == Some((n, rest)),
        write_u32(n).len() == 4,
{
    lemma_auto_spec_u32_to_from_le_bytes();
    let b = write_u32(n) + rest;
    assert(b.take(4) =~= write_u32(n));
    assert(b.skip(4) =~= rest);
}

/// A 64-bit number is read back as it was written.
pub proof fn lemma_read_u64(n: u64, rest: Seq<u8>)
    ensures
        read_u64(write_u64(n) + rest) == Some((n, rest)),
        write_u64(n).len() == 8,
{
    lemma_auto_spec_u64_to_from_le_bytes();
    let b = write_u64(n) + rest;
    assert(b.take(8) =~= write_u64(n));
    assert(b.skip(8) =~= rest);
}

/// A string is read back as it was written.
pub proof fn lemma_read_str(s: Seq<char>, rest: Seq<u8>)
    requires
        str_fits(s),
    ensures
        read_str(write_str(s) + rest) == Some((s, rest)),
{
    let bytes = encode_utf8(s);
    let n = bytes.len() as u64;
    lemma_read_u64(n, bytes + rest);
    assert(write_str(s) + rest =~= write_u64(n) + (bytes + rest));
    assert((bytes + rest).take(n as int) =~= bytes);
    assert((bytes + rest).skip(n as int) =~= rest);
    encode_utf8_valid_utf8(s);
    encode_utf8_decode_utf8(s);
}

/// Strings are read back as they were written.
pub proof fn lemma_read_strs(items: Seq<Seq<char>>, rest: Seq<u8>)
    requires
        forall|i: int| 0 <= i < items.len() ==> str_fits(#[trigger] items[i]),
    ensures
        read_strs(write_strs(items) + rest, items.len()) == Some((items, rest)),
    decreases items.len(),
{
    if items.len() == 0 {
        assert(write_strs(items) + rest =~= rest);
        assert(items =~= Seq::<Seq<char>>::empty());
    } else {
        let more = items.drop_first();
        assert(str_fits(items[0]));
        assert forall|i: int| 0 <= i < more.len() implies str_fits(#[trigger] more[i]) by {
            assert(more[i] == items[i + 1]);
        }
        lemma_read_strs(more, rest);
        lemma_read_str(items.first(), write_strs(more) + rest);
        assert(write_strs(items) + rest =~= write_str(items.first()) + (write_strs(more) + rest));
        assert(seq![items.first()] + more =~= items);
    }
}

/// A list of strings is read back as it was written.
pub proof fn lemma_read_list(items: Seq<Seq<char>>, rest: Seq<u8>)
    requires
        list_fits(items),
    ensures
        read_list(write_list(items) + rest) == Some((items, rest)),
{
    let n = items.len() as u64;
    lemma_read_u64(n, write_strs(items) + rest);
    lemma_read_strs(items, rest);
    assert(write_list(items) + rest =~= write_u64(n) + (write_strs(items) + rest));
}

/// Bytes put one after the other may be grouped either way.
proof fn lemma_grouping(a: Seq<u8>, b: Seq<u8>, c: Seq<u8>)
    ensures
        (a + b) + c == a + (b + c),
{
    assert((a + b) + c =~= a + (b + c));
}

/// An entry with bytes after it, part by part.
proof fn lemma_entry_layout(id: Seq<char>, e: EntryView, rest: Seq<u8>)
    ensures
        write_entry(id, e) + rest == write_str(id) + (write_str(e.original) + (write_list(
            e.aliases,
        ) + (write_list(e.headers) + (write_list(e.alternates) + rest)))),
{
    reveal(write_entry);
    let (a, b, c, d, f) = (
        write_str(id),
        write_str(e.original),
        write_list(e.aliases),
        write_list(e.headers),
        write_list(e.alternates),
    );
    lemma_grouping(a + b + c + d, f, rest);
    lemma_grouping(a + b + c, d, f + rest);
    lemma_grouping(a + b, c, d + (f + rest));
    lemma_grouping(a, b, c + (d + (f + rest)));
}

/// An entry is read back as it was written.
#[verifier::rlimit(40)]
pub proof fn lemma_read_entry(id: Seq<char>, e: EntryView, rest: Seq<u8>)
    requires
        entry_fits(id, e),
    ensures
        read_entry(write_entry(id, e) + rest) == Some(((id, e), rest)),
{
    reveal(read_entry);
    let t5 = rest;
    let t4 = write_list(e.alternates) + t5;
    let t3 = write_list(e.headers) + t4;
    let t2 = write_list(e.aliases) + t3;
    let t1 = write_str(e.original) + t2;
    lemma_entry_layout(id, e, rest);
    lemma_read_str(id, t1);
    lemma_read_str(e.original, t2);
    lemma_read_list(e.aliases, t3);
    lemma_read_list(e.headers, t4);
    lemma_read_list(e.alternates, t5);
}

/// Whether entries can be written under their identifiers.
pub open spec fn entries_fit(ids: Seq<Seq<char>>, entries: Seq<EntryView>) -> bool {
    &&& ids.len() == entries.len()
    &&& forall|i: int| 0 <= i < entries.len() ==> entry_fits(#[trigger] ids[i], entries[i])
}

/// Of entries that can be written, the first can, and so can the others.
proof fn lemma_entries_fit_tail(ids: Seq<Seq<char>>, entries: Seq<EntryView>)
    requires
        entries_fit(ids, entries),
        entries.len() > 0,
    ensures
        entry_fits(ids.first(), entries.first()),
        entries_fit(ids.drop_first(), entries.drop_first()),
{
    assert(entry_fits(ids[0], entries[0]));
    let (more_ids, more) = (ids.drop_first(), entries.drop_first());
    assert forall|i: int| 0 <= i < more.len() implies entry_fits(#[trigger] more_ids[i], more[i]) by {
        assert(entry_fits(ids[i + 1], entries[i + 1]));
    }
}

/// Reading entries reads the first, then the others.
proof fn lemma_read_entries_step(
    b: Seq<u8>,
    n: nat,
    id: Seq<char>,
    e: EntryView,
    tail: Seq<u8>,
    ids: Seq<Seq<char>>,
    entries: Seq<EntryView>,
    rest: Seq<u8>,
)
    requires
        n > 0,
        read_entry(b) == Some(((id, e), tail)),
        read_entries(tail, (n - 1) as nat) == Some(((ids, entries), rest)),
    ensures
        read_entries(b, n) == Some(((seq![id] + ids, seq![e] + entries), rest)),
{
}

/// Writing entries writes the first, then the others.
proof fn lemma_write_entries_step(ids: Seq<Seq<char>>, entries: Seq<EntryView>, rest: Seq<u8>)
    requires
        ids.len() == entries.len(),
        entries.len() > 0,
    ensures
        write_entries(ids, entries) + rest == write_entry(ids.first(), entries.first()) + (
        write_entries(ids.drop_first(), entries.drop_first()) + rest),
{
    assert(write_entries(ids, entries) + rest =~= write_entry(ids.first(), entries.first()) + (
    write_entries(ids.drop_first(), entries.drop_first()) + rest));
}

/// Entries are read back as they were written.
#[verifier::rlimit(40)]
pub proof fn lemma_read_entries(ids: Seq<Seq<char>>, entries: Seq<EntryView>, rest: Seq<u8>)
    requires
        entries_fit(ids, entries),
    ensures
        read_entries(write_entries(ids, entries) + rest, entries.len()) == Some(
            ((ids, entries), rest),
        ),
    decreases entries.len(),
{
    if entries.len() == 0 {
        assert(write_entries(ids, entries) + rest =~= rest);
        assert(ids =~= Seq::<Seq<char>>::empty());
        assert(entries =~= Seq::<EntryView>::empty());
    } else {
        let (more_ids, more) = (ids.drop_first(), entries.drop_first());
        let tail = write_entries(more_ids, more) + rest;
        lemma_entries_fit_tail(ids, entries);
        lemma_read_entries(more_ids, more, rest);
        lemma_read_entry(ids.first(), entries.first(), tail);
        lemma_write_entries_step(ids, entries, rest);
        lemma_read_entries_step(
            write_entries(ids, entries) + rest,
            entries.len(),
            ids.first(),
            entries.first(),
            tail,
            more_ids,
            more,
            rest,
        );
        assert(seq![ids.first()] + more_ids =~= ids);
        assert(seq![entries.first()] + more =~= entries);
    }
}

/// A sound store is read back as it was written: reading undoes writing.
#[verifier::rlimit(40)]
pub proof fn lemma_round_trip(s: StoreView)
    requires
        s.valid(),
        store_fits(s),
    ensures
        read_store(write_store(s)) == Ok::<StoreView, CacheError>(s),
{
    let b = write_store(s);
    let head = magic().push(FORMAT_VERSION);
    assert(b.take(4) =~= magic());
    assert(b[4] == FORMAT_VERSION);
    assert(b.skip(5) =~= write_body(s));
    let empty = Seq::<u8>::empty();
    let t3 = write_entries(s.ids, s.entries) + empty;
    let t2 = write_u64(s.entries.len() as u64) + t3;
    let t1 = write_u32(s.floor.den as u32) + t2;
    assert(write_body(s) =~= write_u32(s.floor.num as u32) + t1);
    lemma_read_u32(s.floor.num as u32, t1);
    lemma_read_u32(s.floor.den as u32, t2);
    lemma_read_u64(s.entries.len() as u64, t3);
    lemma_read_entries(s.ids, s.entries, empty);
    let (got, _) = read_body(write_body(s)).unwrap();
    assert(got.floor == s.floor);
    assert(got == s);
}

/// A store that was written out and read back answers every query as it did
/// before.
pub proof fn lemma_cache_keeps_answers(s: StoreView, q: Seq<char>)
    requires
        s.valid(),
        store_fits(s),
    ensures
        read_store(write_store(s)) is Ok,
        analysis(read_store(write_store(s))->Ok_0, q) == analysis(s, q),
        refined_analysis(read_store(write_store(s))->Ok_0, q) == refined_analysis(s, q),
{
    lemma_round_trip(s);
}

/// Bytes from which a 32-bit number is read are that number as written, then
/// the rest.
pub proof fn lemma_written_u32(b: Seq<u8>)
    requires
        read_u32(b) is Some,
    ensures
        match read_u32(b) {
            Some((n, rest)) => b == write_u32(n) + rest,
            None => false,
        },
{
    lemma_auto_spec_u32_to_from_le_bytes();
    assert(b =~= b.take(4) + b.skip(4));
}

/// Bytes from which a 64-bit number is read are that number as written, then
/// the rest.
pub proof fn lemma_written_u64(b: Seq<u8>)
    requires
        read_u64(b) is Some,
    ensures
        match read_u64(b) {
            Some((n, rest)) => b == write_u64(n) + rest,
            None => false,
        },
{
    lemma_auto_spec_u64_to_from_le_bytes();
    assert(b =~= b.take(8) + b.skip(8));
}

/// Bytes from which a string is read are that string as written, then the
/// rest.
pub proof fn lemma_written_str(b: Seq<u8>)
    requires
        read_str(b) is Some,
    ensures
        match read_str(b) {
            Some((s, rest)) => b == write_str(s) + rest && str_fits(s),
            None => false,
        },
{
    lemma_written_u64(b);
    let (n, rest) = read_u64(b).unwrap();
    let bytes = rest.take(n as int);
    decode_utf8_encode_utf8(bytes);
    assert(rest =~= bytes + rest.skip(n as int));
    assert(b =~= write_u64(n) + bytes + rest.skip(n as int));
}

/// Bytes from which strings are read are those strings as written, then the
/// rest.
pub proof fn lemma_written_strs(b: Seq<u8>, n: nat)
    requires
        read_strs(b, n) is Some,
    ensures
        match read_strs(b, n) {
            Some((items, rest)) => b == write_strs(items) + rest && items.len() == n && forall|
                i: int,
            | 0 <= i < n ==> str_fits(#[trigger] items[i]),
            None => false,
        },
    decreases n,
{
    if n == 0 {
        assert(write_strs(Seq::<Seq<char>>::empty()) + b =~= b);
    } else {
        lemma_written_str(b);
        let (s, rest) = read_str(b).unwrap();
        lemma_written_strs(rest, (n - 1) as nat);
        let (more, after) = read_strs(rest, (n - 1) as nat).unwrap();
        let items = seq![s] + more;
        assert(items.first() == s);
        assert(items.drop_first() =~= more);
        assert(b =~= write_strs(items) + after);
        assert forall|i: int| 0 <= i < n implies str_fits(#[trigger] items[i]) by {
            if i > 0 {
                assert(items[i] == more[i - 1]);
            }
        }
    }
}

/// Bytes from which a list is read are that list as written, then the rest.
pub proof fn lemma_written_list(b: Seq<u8>)
    requires
        read_list(b) is Some,
    ensures
        match read_list(b) {
            Some((items, rest)) => b == write_list(items) + rest && list_fits(items),
            None => false,
        },
{
    lemma_written_u64(b);
    let (n, rest) = read_u64(b).unwrap();
    lemma_written_strs(rest, n as nat);
    let (items, after) = read_strs(rest, n as nat).unwrap();
    assert(b =~= write_list(items) + after);
}

/// Bytes from which an entry is read are that entry as written, then the
/// rest.
#[verifier::rlimit(40)]
pub proof fn lemma_written_entry(b: Seq<u8>)
    requires
        read_entry(b) is Some,
    ensures
        match read_entry(b) {
            Some(((id, e), rest)) => b == write_entry(id, e) + rest && entry_fits(id, e),
            None => false,
        },
{
    reveal(read_entry);
    lemma_written_str(b);
    let (id, b1) = read_str(b).unwrap();
    lemma_written_str(b1);
    let (original, b2) = read_str(b1).unwrap();
    lemma_written_list(b2);
    let (aliases, b3) = read_list(b2).unwrap();
    lemma_written_list(b3);
    let (headers, b4) = read_list(b3).unwrap();
    lemma_written_list(b4);
    let (alternates, b5) = read_list(b4).unwrap();
    let e = EntryView { original, aliases, headers, alternates };
    lemma_entry_layout(id, e, b5);
}

/// Bytes from which entries are read are those entries as written, then the
/// rest.
#[verifier::rlimit(40)]
pub proof fn lemma_written_entries(b: Seq<u8>, n: nat)
    requires
        read_entries(b, n) is Some,
    ensures
        match read_entries(b, n) {
            Some(((ids, entries), rest)) => b == write_entries(ids, entries) + rest
                && entries.len() == n && entries_fit(ids, entries),
            None => false,
        },
    decreases n,
{
    if n == 0 {
        assert(write_entries(Seq::<Seq<char>>::empty(), Seq::<EntryView>::empty()) + b =~= b);
    } else {
        lemma_written_entry(b);
        let ((id, e), rest) = read_entry(b).unwrap();
        lemma_written_entries(rest, (n - 1) as nat);
        let ((more_ids, more), after) = read_entries(rest, (n - 1) as nat).unwrap();
        let (ids, entries) = (seq![id] + more_ids, seq![e] + more);
        assert(ids.drop_first() =~= more_ids);
        assert(entries.drop_first() =~= more);
        lemma_write_entries_step(ids, entries, after);
        assert(b =~= write_entry(id, e) + (write_entries(more_ids, more) + after));
        assert forall|i: int| 0 <= i < entries.len() implies entry_fits(
            #[trigger] ids[i],
            entries[i],
        ) by {
            if i > 0 {
                assert(ids[i] == more_ids[i - 1] && entries[i] == more[i - 1]);
            }
        }
    }
}

/// Writing undoes reading: bytes that are read as a store are that store as
/// written. With `lemma_round_trip`, the blobs that are read are exactly those
/// that writing makes.
#[verifier::rlimit(40)]
pub proof fn lemma_read_is_written(b: Seq<u8>)
    requires
        read_store(b) is Ok,
    ensures
        match read_store(b) {
            Ok(s) => b == write_store(s) && store_fits(s),
            Err(_) => false,
        },
{
    let body = b.skip(5);
    assert(b =~= magic().push(FORMAT_VERSION) + body) by {
        assert(b.take(4) == magic());
        assert(b =~= b.take(4).push(b[4]) + b.skip(5));
    }
    lemma_written_u32(body);
    let (num, b1) = read_u32(body).unwrap();
    lemma_written_u32(b1);
    let (den, b2) = read_u32(b1).unwrap();
    lemma_written_u64(b2);
    let (n, b3) = read_u64(b2).unwrap();
    lemma_written_entries(b3, n as nat);
    let ((ids, entries), b4) = read_entries(b3, n as nat).unwrap();
    let s = read_store(b)->Ok_0;
    assert(b4 =~= Seq::<u8>::empty());
    assert(body =~= write_body(s));
}

/// Strings written after others come after them.
pub proof fn lemma_write_strs_push(items: Seq<Seq<char>>, s: Seq<char>)
    ensures
        write_strs(items.push(s)) == write_strs(items) + write_str(s),
    decreases items.len(),
{
    if items.len() == 0 {
        assert(items.push(s).drop_first() =~= Seq::<Seq<char>>::empty());
        assert(write_strs(Seq::<Seq<char>>::empty()) =~= Seq::<u8>::empty());
        assert(write_strs(items) =~= Seq::<u8>::empty());
        assert(write_strs(items.push(s)) =~= write_str(s));
        assert(write_strs(items) + write_str(s) =~= write_str(s));
    } else {
        lemma_write_strs_push(items.drop_first(), s);
        assert(items.push(s).drop_first() =~= items.drop_first().push(s));
        assert(write_strs(items.push(s)) =~= write_strs(items) + write_str(s));
    }
}

/// Entries written after others come after them.
pub proof fn lemma_write_entries_push(
    ids: Seq<Seq<char>>,
    entries: Seq<EntryView>,
    id: Seq<char>,
    e: EntryView,
)
    requires
        ids.len() == entries.len(),
    ensures
        write_entries(ids.push(id), entries.push(e)) == write_entries(ids, entries) + write_entry(
            id,
            e,
        ),
    decreases entries.len(),
{
    if entries.len() == 0 {
        assert(ids.push(id).drop_first() =~= Seq::<Seq<char>>::empty());
        assert(entries.push(e).drop_first() =~= Seq::<EntryView>::empty());
        assert(write_entries(Seq::<Seq<char>>::empty(), Seq::<EntryView>::empty()) =~= Seq::<
            u8,
        >::empty());
        assert(write_entries(ids, entries) =~= Seq::<u8>::empty());
        assert(write_entries(ids.push(id), entries.push(e)) =~= write_entry(id, e));
        assert(write_entries(ids, entries) + write_entry(id, e) =~= write_entry(id, e));
    } else {
        lemma_write_entries_push(ids.drop_first(), entries.drop_first(), id, e);
        assert(ids.push(id).drop_first() =~= ids.drop_first().push(id));
        assert(entries.push(e).drop_first() =~= entries.drop_first().push(e));
        assert(write_entries(ids.push(id), entries.push(e)) =~= write_entries(ids, entries)
            + write_entry(id, e));
    }
}

/// Appends bytes.
fn put_bytes(out: &mut Vec<u8>, bytes: &[u8])
    ensures
        final(out)@ == old(out)@ + bytes@,
{
    let ghost before = out@;
    let mut i: usize = 0;
    proof {
        assert(before + bytes@.take(0) =~= before);
    }
    while i < bytes.len()
        invariant
            i <= bytes.len(),
            out@ == before + bytes@.take(i as int),
        decreases bytes.len() - i,
    {
        out.push(bytes[i]);
        proof {
            assert(before + bytes@.take(i + 1) =~= (before + bytes@.take(i as int)).push(
                bytes@[i as int],
            ));
        }
        i += 1;
    }
    proof {
        assert(bytes@.take(bytes.len() as int) =~= bytes@);
    }
}

/// Appends a 32-bit number.
fn put_u32(out: &mut Vec<u8>, n: u32)
    ensures
        final(out)@ == old(out)@ + write_u32(n),
{
    let b = vstd::bytes::u32_to_le_bytes(n);
    put_bytes(out, b.as_slice());
}

/// Appends a 64-bit number.
fn put_u64(out: &mut Vec<u8>, n: u64)
    ensures
        final(out)@ == old(out)@ + write_u64(n),
{
    let b = vstd::bytes::u64_to_le_bytes(n);
    put_bytes(out, b.as_slice());
}

/// Appends a string.
fn put_str(out: &mut Vec<u8>, s: &str)
    ensures
        final(out)@ == old(out)@ + write_str(s@),
        str_fits(s@),
{
    let bytes = s.as_bytes();
    let ghost before = out@;
    put_u64(out, bytes.len() as u64);
    put_bytes(out, bytes);
    proof {
        assert(out@ =~= before + write_str(s@));
    }
}

/// Appends a list of names.
fn put_names(out: &mut Vec<u8>, items: &Vec<String>)
    ensures
        final(out)@ == old(out)@ + write_list(names(items@)),
        list_fits(names(items@)),
{
    let ghost before = out@;
    let ghost all = names(items@);
    put_u64(out, items.len() as u64);
    let ghost head = out@;
    let mut i: usize = 0;
    proof {
        assert(all.take(0) =~= Seq::<Seq<char>>::empty());
        assert(head + write_strs(all.take(0)) =~= head);
    }
    while i < items.len()
        invariant
            i <= items.len(),
            all == names(items@),
            out@ == head + write_strs(all.take(i as int)),
            forall|k: int| 0 <= k < i ==> str_fits(#[trigger] all[k]),
        decreases items.len() - i,
    {
        put_str(out, items[i].as_str());
        proof {
            lemma_write_strs_push(all.take(i as int), all[i as int]);
            assert(all.take(i + 1) =~= all.take(i as int).push(all[i as int]));
            assert(out@ =~= head + write_strs(all.take(i + 1)));
        }
        i += 1;
    }
    proof {
        assert(all.take(items.len() as int) =~= all);
        assert(out@ =~= before + write_list(all));
    }
}

/// Appends a list of texts, each by its raw form.
fn put_texts(out: &mut Vec<u8>, items: &Vec<TextData>)
    ensures
        final(out)@ == old(out)@ + write_list(raws(items@)),
        list_fits(raws(items@)),
{
    let ghost before = out@;
    let ghost all = raws(items@);
    put_u64(out, items.len() as u64);
    let ghost head = out@;
    let mut i: usize = 0;
    proof {
        assert(all.take(0) =~= Seq::<Seq<char>>::empty());
        assert(head + write_strs(all.take(0)) =~= head);
    }
    while i < items.len()
        invariant
            i <= items.len(),
            all == raws(items@),
            out@ == head + write_strs(all.take(i as int)),
            forall|k: int| 0 <= k < i ==> str_fits(#[trigger] all[k]),
        decreases items.len() - i,
    {
        put_str(out, items[i].raw().as_str());
        proof {
            lemma_write_strs_push(all.take(i as int), all[i as int]);
            assert(all.take(i + 1) =~= all.take(i as int).push(all[i as int]));
            assert(out@ =~= head + write_strs(all.take(i + 1)));
        }
        i += 1;
    }
    proof {
        assert(all.take(items.len() as int) =~= all);
        assert(out@ =~= before + write_list(all));
    }
}

/// Appends an entry under its identifier.
fn put_entry(out: &mut Vec<u8>, id: &String, entry: &LicenseEntry)
    ensures
        final(out)@ == old(out)@ + write_entry(id@, entry@),
        entry_fits(id@, entry@),
{
    let ghost before = out@;
    put_str(out, id.as_str());
    put_str(out, entry.original().raw().as_str());
    put_names(out, entry.aliases());
    put_texts(out, entry.headers());
    put_texts(out, entry.alternates());
    proof {
        reveal(write_entry);
        let e = entry@;
        let (a, b, c, d, f) = (
            write_str(id@),
            write_str(e.original),
            write_list(e.aliases),
            write_list(e.headers),
            write_list(e.alternates),
        );
        lemma_grouping(before + a + b + c, d, f);
        lemma_grouping(before + a + b, c, d + f);
        lemma_grouping(before + a, b, c + (d + f));
        lemma_grouping(before, a, b + (c + (d + f)));
        lemma_grouping(a + b + c, d, f);
        lemma_grouping(a + b, c, d + f);
        lemma_grouping(a, b, c + (d + f));
    }
}

impl Store {
    /// Writes the store out as a blob. Reading the blob gives the store
    /// back: the same floor, and the same entries under the same
    /// identifiers.
    pub fn to_bytes(&self) -> (r: Vec<u8>)
        ensures
            r@ == write_store(self@),
            read_store(r@) == Ok::<StoreView, CacheError>(self@),
    {
        let n: usize = self.len();
        let floor = self.floor();
        let mut out: Vec<u8> = Vec::new();
        out.push(0x61u8);
        out.push(0x73u8);
        out.push(0x6bu8);
        out.push(0x6cu8);
        out.push(FORMAT_VERSION);
        let ghost head = out@;
        proof {
            assert(head =~= magic().push(FORMAT_VERSION));
        }
        put_u32(&mut out, floor.num());
        put_u32(&mut out, floor.den());
        put_u64(&mut out, n as u64);
        let ghost front = out@;
        let ghost s = self@;
        proof {
            assert(s.ids.take(0) =~= Seq::<Seq<char>>::empty());
            assert(s.entries.take(0) =~= Seq::<EntryView>::empty());
            assert(front + write_entries(s.ids.take(0), s.entries.take(0)) =~= front);
        }
        let mut i: usize = 0;
        while i < n
            invariant
                i <= n,
                s == self@,
                s.valid(),
                n == s.entries.len(),
                out@ == front + write_entries(s.ids.take(i as int), s.entries.take(i as int)),
                forall|k: int| 0 <= k < i ==> entry_fits(#[trigger] s.ids[k], s.entries[k]),
            decreases n - i,
        {
            put_entry(&mut out, self.id_at(i), self.entry_at(i));
            proof {
                lemma_write_entries_push(
                    s.ids.take(i as int),
                    s.entries.take(i as int),
                    s.ids[i as int],
                    s.entries[i as int],
                );
                assert(s.ids.take(i + 1) =~= s.ids.take(i as int).push(s.ids[i as int]));
                assert(s.entries.take(i + 1) =~= s.entries.take(i as int).push(
                    s.entries[i as int],
                ));
                assert(out@ =~= front + write_entries(s.ids.take(i + 1), s.entries.take(i + 1)));
            }
            i += 1;
        }
        proof {
            assert(s.ids.take(n as int) =~= s.ids);
            assert(s.entries.take(n as int) =~= s.entries);
            assert(out@ =~= write_store(s));
            lemma_round_trip(s);
        }
        out
    }
}

/// `core::str::Utf8Error`, the error of `core::str::from_utf8`. Nothing is
/// said of what it holds.
#[verifier::external_type_specification]
#[verifier::external_body]
pub struct ExUtf8Error(core::str::Utf8Error);

/// `core::str::from_utf8`: checks that the bytes are valid UTF-8 and, where
/// they are, gives them as a string slice. The contract says that the call
/// succeeds exactly on valid UTF-8, and that the string's bytes are then the
/// bytes given.
pub assume_specification[ core::str::from_utf8 ](v: &[u8]) -> (r: Result<
    &str,
    core::str::Utf8Error,
>)
    ensures
        r is Ok <==> valid_utf8(v@),
        r is Ok ==> encode_utf8(r->Ok_0@) == v@,
;

/// Reads a 32-bit number at `pos`; gives the number and the place after it.
fn take_u32(bytes: &[u8], pos: usize) -> (r: Option<(u32, usize)>)
    requires
        pos <= bytes@.len(),
    ensures
        match r {
            Some((n, next)) => pos <= next <= bytes@.len() && read_u32(bytes@.skip(pos as int))
                == Some((n, bytes@.skip(next as int))),
            None => read_u32(bytes@.skip(pos as int)) is None,
        },
{
    if bytes.len() - pos < 4 {
        return None;
    }
    let n = vstd::bytes::u32_from_le_bytes(vstd::slice::slice_subrange(bytes, pos, pos + 4));
    proof {
        assert(bytes@.skip(pos as int).take(4) =~= bytes@.subrange(pos as int, pos + 4));
        assert(bytes@.skip(pos as int).skip(4) =~= bytes@.skip(pos + 4));
    }
    Some((n, pos + 4))
}

/// Reads a 64-bit number at `pos`.
fn take_u64(bytes: &[u8], pos: usize) -> (r: Option<(u64, usize)>)
    requires
        pos <= bytes@.len(),
    ensures
        match r {
            Some((n, next)) => pos <= next <= bytes@.len() && read_u64(bytes@.skip(pos as int))
                == Some((n, bytes@.skip(next as int))),
            None => read_u64(bytes@.skip(pos as int)) is None,
        },
{
    if bytes.len() - pos < 8 {
        return None;
    }
    let n = vstd::bytes::u64_from_le_bytes(vstd::slice::slice_subrange(bytes, pos, pos + 8));
    proof {
        assert(bytes@.skip(pos as int).take(8) =~= bytes@.subrange(pos as int, pos + 8));
        assert(bytes@.skip(pos as int).skip(8) =~= bytes@.skip(pos + 8));
    }
    Some((n, pos + 8))
}

/// Reads a string at `pos`.
fn take_str(bytes: &[u8], pos: usize) -> (r: Option<(String, usize)>)
    requires
        pos <= bytes@.len(),
    ensures
        match r {
            Some((s, next)) => pos <= next <= bytes@.len() && read_str(bytes@.skip(pos as int))
                == Some((s@, bytes@.skip(next as int))),
            None => read_str(bytes@.skip(pos as int)) is None,
        },
{
    let (n, start) = match take_u64(bytes, pos) {
        Some(found) => found,
        None => {
            return None;
        },
    };
    if n > (bytes.len() - start) as u64 {
        return None;
    }
    let end: usize = start + n as usize;
    let part = vstd::slice::slice_subrange(bytes, start, end);
    proof {
        assert(bytes@.skip(start as int).take(n as int) =~= part@);
        assert(bytes@.skip(start as int).skip(n as int) =~= bytes@.skip(end as int));
    }
    match core::str::from_utf8(part) {
        Ok(s) => {
            proof {
                encode_utf8_decode_utf8(s@);
            }
            Some((s.to_owned(), end))
        },
        Err(_) => None,
    }
}

/// What reading goes on to give, after `ids` were read already.
pub open spec fn strs_after(done: Seq<Seq<char>>, r: Option<(Seq<Seq<char>>, Seq<u8>)>) -> Option<
    (Seq<Seq<char>>, Seq<u8>),
> {
    match r {
        Some((more, after)) => Some((done + more, after)),
        None => None,
    }
}

/// Reads a list of strings at `pos`.
fn take_list(bytes: &[u8], pos: usize) -> (r: Option<(Vec<String>, usize)>)
    requires
        pos <= bytes@.len(),
    ensures
        match r {
            Some((items, next)) => pos <= next <= bytes@.len() && read_list(
                bytes@.skip(pos as int),
            ) == Some((names(items@), bytes@.skip(next as int))),
            None => read_list(bytes@.skip(pos as int)) is None,
        },
{
    let (n, start) = match take_u64(bytes, pos) {
        Some(found) => found,
        None => {
            return None;
        },
    };
    let mut items: Vec<String> = Vec::new();
    let mut at: usize = start;
    let mut i: u64 = 0;
    let ghost all = read_strs(bytes@.skip(start as int), n as nat);
    proof {
        assert(names(items@) =~= Seq::<Seq<char>>::empty());
        lemma_strs_after_nothing(all);
    }
    while i < n
        invariant
            i <= n,
            start <= at <= bytes@.len(),
            all == read_list(bytes@.skip(pos as int)),
            all == strs_after(names(items@), read_strs(bytes@.skip(at as int), (n - i) as nat)),
        decreases n - i,
    {
        let ghost done = names(items@);
        match take_str(bytes, at) {
            Some((s, next)) => {
                proof {
                    let r = read_strs(bytes@.skip(next as int), (n - i - 1) as nat);
                    assert(read_strs(bytes@.skip(at as int), (n - i) as nat) == strs_after(
                        seq![s@],
                        r,
                    ));
                    lemma_strs_after_after(done, s@, r);
                    assert(names(items@.push(s)) =~= done.push(s@));
                }
                items.push(s);
                at = next;
            },
            None => {
                proof {
                    assert(read_strs(bytes@.skip(at as int), (n - i) as nat) is None);
                }
                return None;
            },
        }
        i += 1;
    }
    proof {
        assert(names(items@) + Seq::<Seq<char>>::empty() =~= names(items@));
    }
    Some((items, at))
}

/// With nothing read yet, reading gives what it gives.
proof fn lemma_strs_after_nothing(r: Option<(Seq<Seq<char>>, Seq<u8>)>)
    ensures
        strs_after(Seq::empty(), r) == r,
{
    if let Some((more, after)) = r {
        assert(Seq::<Seq<char>>::empty() + more =~= more);
    }
}

/// Reading one string more moves it to what was read already.
proof fn lemma_strs_after_after(
    done: Seq<Seq<char>>,
    s: Seq<char>,
    r: Option<(Seq<Seq<char>>, Seq<u8>)>,
)
    ensures
        strs_after(done, strs_after(seq![s], r)) == strs_after(done.push(s), r),
{
    if let Some((more, after)) = r {
        assert(done + (seq![s] + more) =~= done.push(s) + more);
    }
}

/// An entry as it stands in a blob, not yet normalized.
struct Parsed {
    id: String,
    original: String,
    aliases: Vec<String>,
    headers: Vec<String>,
    alternates: Vec<String>,
}

impl Parsed {
    /// The entry, as plain values.
    spec fn entry(self) -> EntryView {
        EntryView {
            original: self.original@,
            aliases: names(self.aliases@),
            headers: names(self.headers@),
            alternates: names(self.alternates@),
        }
    }
}

/// Reads an entry at `pos`.
fn take_entry(bytes: &[u8], pos: usize) -> (r: Option<(Parsed, usize)>)
    requires
        pos <= bytes@.len(),
    ensures
        match r {
            Some((p, next)) => pos <= next <= bytes@.len() && read_entry(bytes@.skip(pos as int))
                == Some(((p.id@, p.entry()), bytes@.skip(next as int))),
            None => read_entry(bytes@.skip(pos as int)) is None,
        },
{
    proof {
        reveal(read_entry);
    }
    let (id, after_id) = match take_str(bytes, pos) {
        Some(found) => found,
        None => {
            return None;
        },
    };
    let (original, after_original) = match take_str(bytes, after_id) {
        Some(found) => found,
        None => {
            return None;
        },
    };
    let (aliases, after_aliases) = match take_list(bytes, after_original) {
        Some(found) => found,
        None => {
            return None;
        },
    };
    let (headers, after_headers) = match take_list(bytes, after_aliases) {
        Some(found) => found,
        None => {
            return None;
        },
    };
    let (alternates, after_alternates) = match take_list(bytes, after_headers) {
        Some(found) => found,
        None => {
            return None;
        },
    };
    Some((Parsed { id, original, aliases, headers, alternates }, after_alternates))
}

/// The entry that was read, with its texts normalized. The canonical text
/// must not be empty.
fn entry_of(p: Parsed) -> (r: (String, LicenseEntry))
    requires
        p.original@.len() > 0,
    ensures
        r.0@ == p.id@,
        r.1@ == p.entry(),
{
    let Parsed { id, original, aliases, headers, alternates } = p;
    let mut entry = LicenseEntry::new(normalize(original.as_str()));
    let mut i: usize = 0;
    proof {
        assert(names(aliases@).take(0) =~= Seq::<Seq<char>>::empty());
    }
    while i < aliases.len()
        invariant
            i <= aliases.len(),
            entry@ == (EntryView {
                original: original@,
                aliases: names(aliases@).take(i as int),
                headers: Seq::empty(),
                alternates: Seq::empty(),
            }),
        decreases aliases.len() - i,
    {
        entry.add_alias(aliases[i].clone());
        proof {
            assert(names(aliases@).take(i + 1) =~= names(aliases@).take(i as int).push(
                aliases@[i as int]@,
            ));
        }
        i += 1;
    }
    proof {
        assert(names(aliases@).take(aliases.len() as int) =~= names(aliases@));
    }
    let mut i: usize = 0;
    let ghost all = names(headers@);
    proof {
        assert(all.take(0) =~= Seq::<Seq<char>>::empty());
    }
    while i < headers.len()
        invariant
            i <= headers.len(),
            all == names(headers@),
            entry@ == (EntryView {
                original: original@,
                aliases: names(aliases@),
                headers: all.take(i as int),
                alternates: Seq::empty(),
            }),
        decreases headers.len() - i,
    {
        entry.add_header(normalize(headers[i].as_str()));
        proof {
            assert(all.take(i + 1) =~= all.take(i as int).push(all[i as int]));
        }
        i += 1;
    }
    proof {
        assert(all.take(headers.len() as int) =~= all);
    }
    let mut i: usize = 0;
    let ghost others = names(alternates@);
    proof {
        assert(others.take(0) =~= Seq::<Seq<char>>::empty());
    }
    while i < alternates.len()
        invariant
            i <= alternates.len(),
            others == names(alternates@),
            entry@ == (EntryView {
                original: original@,
                aliases: names(aliases@),
                headers: all,
                alternates: others.take(i as int),
            }),
        decreases alternates.len() - i,
    {
        entry.add_alternate(normalize(alternates[i].as_str()));
        proof {
            assert(others.take(i + 1) =~= others.take(i as int).push(others[i as int]));
        }
        i += 1;
    }
    proof {
        assert(others.take(alternates.len() as int) =~= others);
    }
    (id, entry)
}

/// What reading goes on to give, after some entries were read already.
pub open spec fn entries_after(
    ids: Seq<Seq<char>>,
    entries: Seq<EntryView>,
    r: Option<((Seq<Seq<char>>, Seq<EntryView>), Seq<u8>)>,
) -> Option<((Seq<Seq<char>>, Seq<EntryView>), Seq<u8>)> {
    match r {
        Some(((more_ids, more), after)) => Some(((ids + more_ids, entries + more), after)),
        None => None,
    }
}

/// With nothing read yet, reading gives what it gives.
proof fn lemma_entries_after_nothing(r: Option<((Seq<Seq<char>>, Seq<EntryView>), Seq<u8>)>)
    ensures
        entries_after(Seq::empty(), Seq::empty(), r) == r,
{
    if let Some(((more_ids, more), after)) = r {
        assert(Seq::<Seq<char>>::empty() + more_ids =~= more_ids);
        assert(Seq::<EntryView>::empty() + more =~= more);
    }
}

/// Reading one entry more moves it to what was read already.
proof fn lemma_entries_after_after(
    ids: Seq<Seq<char>>,
    entries: Seq<EntryView>,
    id: Seq<char>,
    e: EntryView,
    r: Option<((Seq<Seq<char>>, Seq<EntryView>), Seq<u8>)>,
)
    ensures
        entries_after(ids, entries, entries_after(seq![id], seq![e], r)) == entries_after(
            ids.push(id),
            entries.push(e),
            r,
        ),
{
    if let Some(((more_ids, more), after)) = r {
        assert(ids + (seq![id] + more_ids) =~= ids.push(id) + more_ids);
        assert(entries + (seq![e] + more) =~= entries.push(e) + more);
    }
}

/// A blob does not hold a sound store where an entry in it has an empty
/// canonical text, or an identifier that an entry before it has.
proof fn lemma_unsound_entry(
    floor: Ratio,
    ids: Seq<Seq<char>>,
    entries: Seq<EntryView>,
    id: Seq<char>,
    e: EntryView,
    r: Option<((Seq<Seq<char>>, Seq<EntryView>), Seq<u8>)>,
)
    requires
        ids.len() == entries.len(),
        e.original.len() == 0 || ids.contains(id),
    ensures
        match entries_after(ids, entries, entries_after(seq![id], seq![e], r)) {
            Some(((all_ids, all), after)) => !(StoreView { floor, ids: all_ids, entries: all }).valid(),
            None => true,
        },
{
    if let Some(((more_ids, more), after)) = r {
        let all_ids = ids + (seq![id] + more_ids);
        let all = entries + (seq![e] + more);
        let at = ids.len() as int;
        assert(all_ids[at] == id);
        assert(all[at] == e);
        if ids.contains(id) {
            let j = choose|j: int| 0 <= j < ids.len() && ids[j] == id;
            assert(all_ids[j] == id);
        }
    }
}

impl Store {
    /// Reads a store from a blob.
    ///
    /// Bytes that do not begin as a blob does, that end early or go on after
    /// the last entry, or that hold what no store holds (an identifier twice,
    /// an empty canonical text, a floor that is no fraction between 0 and 1)
    /// are corrupt. A blob written in another version of the format is a
    /// version mismatch.
    #[verifier::rlimit(40)]
    pub fn from_bytes(bytes: &[u8]) -> (r: Result<Store, CacheError>)
        ensures
            match r {
                Ok(s) => read_store(bytes@) == Ok::<StoreView, CacheError>(s@),
                Err(e) => read_store(bytes@) == Err::<StoreView, CacheError>(e),
            },
    {
        if bytes.len() < 5 || bytes[0] != 0x61u8 || bytes[1] != 0x73u8 || bytes[2] != 0x6bu8
            || bytes[3] != 0x6cu8 {
            proof {
                if bytes.len() >= 5 {
                    assert(bytes@.take(4)[0] == bytes@[0]);
                    assert(bytes@.take(4)[1] == bytes@[1]);
                    assert(bytes@.take(4)[2] == bytes@[2]);
                    assert(bytes@.take(4)[3] == bytes@[3]);
                }
            }
            return Err(CacheError::Corrupt);
        }
        proof {
            assert(bytes@.take(4) =~= magic());
        }
        if bytes[4] != FORMAT_VERSION {
            return Err(CacheError::VersionMismatch);
        }
        let ghost body = bytes@.skip(5);
        let (num, after_num) = match take_u32(bytes, 5) {
            Some(found) => found,
            None => {
                return Err(CacheError::Corrupt);
            },
        };
        let (den, after_den) = match take_u32(bytes, after_num) {
            Some(found) => found,
            None => {
                return Err(CacheError::Corrupt);
            },
        };
        let (n, first) = match take_u64(bytes, after_den) {
            Some(found) => found,
            None => {
                return Err(CacheError::Corrupt);
            },
        };
        let ghost floor = Ratio { num: num as nat, den: den as nat };
        let ghost all = read_entries(bytes@.skip(first as int), n as nat);
        proof {
            assert(read_body(body) == match all {
                Some(((ids, entries), after)) => Some((StoreView { floor, ids, entries }, after)),
                None => None,
            });
        }
        let limit = match Threshold::new(num, den) {
            Some(limit) => limit,
            None => {
                return Err(CacheError::Corrupt);
            },
        };
        let mut store = Store::new();
        store.set_floor(limit);
        let mut at: usize = first;
        let mut i: u64 = 0;
        proof {
            lemma_entries_after_nothing(all);
        }
        while i < n
            invariant
                i <= n,
                first <= at <= bytes@.len(),
                all == read_entries(bytes@.skip(first as int), n as nat),
                store@.floor == floor,
                store@.valid(),
                all == entries_after(
                    store@.ids,
                    store@.entries,
                    read_entries(bytes@.skip(at as int), (n - i) as nat),
                ),
                read_store(bytes@) == match all {
                    Some(((ids, entries), after)) => if after.len() == 0 && (StoreView {
                        floor,
                        ids,
                        entries,
                    }).valid() {
                        Ok::<StoreView, CacheError>(StoreView { floor, ids, entries })
                    } else {
                        Err::<StoreView, CacheError>(CacheError::Corrupt)
                    },
                    None => Err::<StoreView, CacheError>(CacheError::Corrupt),
                },
            decreases n - i,
        {
            let (parsed, next) = match take_entry(bytes, at) {
                Some(found) => found,
                None => {
                    return Err(CacheError::Corrupt);
                },
            };
            let ghost r = read_entries(bytes@.skip(next as int), (n - i - 1) as nat);
            let ghost (id, e) = (parsed.id@, parsed.entry());
            proof {
                assert(read_entries(bytes@.skip(at as int), (n - i) as nat) == entries_after(
                    seq![id],
                    seq![e],
                    r,
                ));
            }
            if parsed.original.as_str().is_empty() || store.index_of(&parsed.id).is_some() {
                proof {
                    lemma_unsound_entry(floor, store@.ids, store@.entries, id, e, r);
                }
                return Err(CacheError::Corrupt);
            }
            let (name, entry) = entry_of(parsed);
            proof {
                lemma_entries_after_after(store@.ids, store@.entries, id, e, r);
            }
            store.insert(name, entry);
            at = next;
            i += 1;
        }
        proof {
            assert(store@.ids + Seq::<Seq<char>>::empty() =~= store@.ids);
            assert(store@.entries + Seq::<EntryView>::empty() =~= store@.entries);
        }
        if at != bytes.len() {
            return Err(CacheError::Corrupt);
        }
        Ok(store)
    }
}

} // verus!
