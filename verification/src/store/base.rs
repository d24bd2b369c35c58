//! License entries and the store that holds them.

use vstd::prelude::*;
use crate::score::{Ratio, Threshold};
use crate::text::TextData;

verus! {

/// What a license entry holds, as plain values: each text by its raw form.
pub struct EntryView {
    pub original: Seq<char>,
    pub aliases: Seq<Seq<char>>,
    pub headers: Seq<Seq<char>>,
    pub alternates: Seq<Seq<char>>,
}

/// What a store holds, as plain values: the confidence floor, and the
/// entries with their identifiers. Entry `i` has the identifier `ids[i]`.
pub struct StoreView {
    pub floor: Ratio,
    pub ids: Seq<Seq<char>>,
    pub entries: Seq<EntryView>,
}

/// The raw forms of a sequence of texts.
pub open spec fn raws(v: Seq<TextData>) -> Seq<Seq<char>> {
    Seq::new(v.len(), |i: int| v[i]@)
}

/// What a sequence of strings holds.
pub open spec fn names(v: Seq<String>) -> Seq<Seq<char>> {
    Seq::new(v.len(), |i: int| v[i]@)
}

/// What a sequence of entries holds.
pub open spec fn entry_views(v: Seq<LicenseEntry>) -> Seq<EntryView> {
    Seq::new(v.len(), |i: int| v[i]@)
}

/// The known textual forms of one license: its canonical text, other names
/// it goes by, short header renderings, and alternate full texts.
pub struct LicenseEntry {
    original: TextData,
    aliases: Vec<String>,
    headers: Vec<TextData>,
    alternates: Vec<TextData>,
}

impl View for LicenseEntry {
    type V = EntryView;

    closed spec fn view(&self) -> EntryView {
        EntryView {
            original: self.original@,
            aliases: names(self.aliases@),
            headers: raws(self.headers@),
            alternates: raws(self.alternates@),
        }
    }
}

impl LicenseEntry {
    #[verifier::type_invariant]
    spec fn well_formed(self) -> bool {
        self.original@.len() > 0
    }

    /// An entry with the canonical text `original`, and nothing else yet.
    /// The canonical text of a license is not empty.
    pub fn new(original: TextData) -> (r: LicenseEntry)
        requires
            original@.len() > 0,
        ensures
            r@ == (EntryView {
                original: original@,
                aliases: Seq::empty(),
                headers: Seq::empty(),
                alternates: Seq::empty(),
            }),
    {
        let r = LicenseEntry {
            original,
            aliases: Vec::new(),
            alternates: Vec::new(),
            headers: Vec::new(),
        };
        proof {
            assert(names(r.aliases@) =~= Seq::empty());
            assert(raws(r.headers@) =~= Seq::empty());
            assert(raws(r.alternates@) =~= Seq::empty());
        }
        r
    }

    /// Adds another name under which the license is known.
    pub fn add_alias(&mut self, alias: String)
        ensures
            final(self)@ == (EntryView { aliases: old(self)@.aliases.push(alias@), ..old(self)@ }),
    {
        proof {
            use_type_invariant(&*self);
        }
        let mut aliases: Vec<String> = Vec::new();
        core::mem::swap(&mut self.aliases, &mut aliases);
        aliases.push(alias);
        proof {
            assert(names(aliases@) =~= old(self)@.aliases.push(alias@));
        }
        core::mem::swap(&mut self.aliases, &mut aliases);
    }

    /// Adds a short header rendering of the license.
    pub fn add_header(&mut self, header: TextData)
        ensures
            final(self)@ == (EntryView { headers: old(self)@.headers.push(header@), ..old(self)@ }),
    {
        proof {
            use_type_invariant(&*self);
        }
        let mut headers: Vec<TextData> = Vec::new();
        core::mem::swap(&mut self.headers, &mut headers);
        headers.push(header);
        proof {
            assert(raws(headers@) =~= old(self)@.headers.push(header@));
        }
        core::mem::swap(&mut self.headers, &mut headers);
    }

    /// Adds an alternate full text of the license.
    pub fn add_alternate(&mut self, alternate: TextData)
        ensures
            final(self)@ == (EntryView {
                alternates: old(self)@.alternates.push(alternate@),
                ..old(self)@
            }),
    {
        proof {
            use_type_invariant(&*self);
        }
        let mut alternates: Vec<TextData> = Vec::new();
        core::mem::swap(&mut self.alternates, &mut alternates);
        alternates.push(alternate);
        proof {
            assert(raws(alternates@) =~= old(self)@.alternates.push(alternate@));
        }
        core::mem::swap(&mut self.alternates, &mut alternates);
    }

    /// The canonical text.
    pub fn original(&self) -> (r: &TextData)
        ensures
            r@ == self@.original,
            r@.len() > 0,
    {
        proof {
            use_type_invariant(self);
        }
        &self.original
    }

    /// The other names of the license.
    pub fn aliases(&self) -> (r: &Vec<String>)
        ensures
            names(r@) == self@.aliases,
    {
        &self.aliases
    }

    /// The header renderings.
    pub fn headers(&self) -> (r: &Vec<TextData>)
        ensures
            raws(r@) == self@.headers,
    {
        &self.headers
    }

    /// The alternate full texts.
    pub fn alternates(&self) -> (r: &Vec<TextData>)
        ensures
            raws(r@) == self@.alternates,
    {
        &self.alternates
    }
}

/// One entry of a store under its identifier.
struct Slot {
    id: String,
    entry: LicenseEntry,
}

/// The identifiers of a sequence of slots.
spec fn slot_ids(v: Seq<Slot>) -> Seq<Seq<char>> {
    Seq::new(v.len(), |i: int| v[i].id@)
}

/// The entries of a sequence of slots.
spec fn slot_entries(v: Seq<Slot>) -> Seq<EntryView> {
    Seq::new(v.len(), |i: int| v[i].entry@)
}

/// A collection of known licenses, each under its identifier.
///
/// No two entries have the same identifier. The order in which entries were
/// put in plays no part in what a search finds.
pub struct Store {
    floor: Threshold,
    slots: Vec<Slot>,
}

impl View for Store {
    type V = StoreView;

    closed spec fn view(&self) -> StoreView {
        StoreView {
            floor: self.floor@,
            ids: slot_ids(self.slots@),
            entries: slot_entries(self.slots@),
        }
    }
}

impl Default for Store {
    /// A new store, as `Store::new` makes it.
    fn default() -> (r: Store)
        ensures
            r@ == (StoreView {
                floor: Ratio { num: 4, den: 5 },
                ids: Seq::empty(),
                entries: Seq::empty(),
            }),
    {
        Store::new()
    }
}

impl StoreView {
    /// The sound values: one identifier for each entry, none of them twice,
    /// no canonical text empty, and a floor between 0 and 1.
    pub open spec fn valid(self) -> bool {
        &&& self.ids.len() == self.entries.len()
        &&& self.ids.no_duplicates()
        &&& forall|i: int|
            0 <= i < self.entries.len() ==> (#[trigger] self.entries[i]).original.len() > 0
        &&& 0 < self.floor.den
        &&& self.floor.num <= self.floor.den
    }

    /// Where the entry with the identifier `id` stands, if there is one.
    pub open spec fn index_of(self, id: Seq<char>) -> Option<int> {
        if self.ids.contains(id) {
            Some(self.ids.index_of(id))
        } else {
            None
        }
    }
}

impl Store {
    /// Every store is sound.
    #[verifier::type_invariant]
    pub open spec fn sound(self) -> bool {
        self@.valid()
    }

    /// Create a new `Store`: no entries, and the standard confidence floor.
    pub fn new() -> (r: Store)
        ensures
            r@ == (StoreView {
                floor: Ratio { num: 4, den: 5 },
                ids: Seq::empty(),
                entries: Seq::empty(),
            }),
            r@.valid(),
    {
        let r = Store { floor: Threshold::standard(), slots: Vec::new() };
        proof {
            assert(slot_ids(r.slots@) =~= Seq::empty());
            assert(slot_entries(r.slots@) =~= Seq::empty());
        }
        r
    }

    /// The number of entries. Every store is sound.
    pub fn len(&self) -> (r: usize)
        ensures
            r == self@.entries.len(),
            r == self@.ids.len(),
            self@.valid(),
    {
        proof {
            use_type_invariant(self);
        }
        self.slots.len()
    }

    /// The confidence floor: the least score at which a match is reported.
    pub fn floor(&self) -> (r: Threshold)
        ensures
            r@ == self@.floor,
    {
        self.floor
    }

    /// Sets the confidence floor.
    pub fn set_floor(&mut self, floor: Threshold)
        ensures
            final(self)@ == (StoreView { floor: floor@, ..old(self)@ }),
            final(self)@.valid(),
    {
        proof {
            use_type_invariant(&*self);
            use_type_invariant(&floor);
        }
        self.floor = floor;
    }

    /// The identifier of the entry at `index`.
    pub fn id_at(&self, index: usize) -> (r: &String)
        requires
            index < self@.ids.len(),
        ensures
            r@ == self@.ids[index as int],
    {
        &self.slots[index].id
    }

    /// The entry at `index`.
    pub fn entry_at(&self, index: usize) -> (r: &LicenseEntry)
        requires
            index < self@.entries.len(),
        ensures
            r@ == self@.entries[index as int],
    {
        &self.slots[index].entry
    }

    /// Where the entry with the identifier `id` stands, if there is one.
    pub fn index_of(&self, id: &String) -> (r: Option<usize>)
        ensures
            match r {
                Some(i) => i < self@.ids.len() && self@.ids[i as int] == id@ && self@.index_of(id@)
                    == Some(i as int),
                None => !self@.ids.contains(id@) && self@.index_of(id@) is None,
            },
    {
        proof {
            use_type_invariant(self);
        }
        let ghost ids = slot_ids(self.slots@);
        let mut i: usize = 0;
        while i < self.slots.len()
            invariant
                i <= self.slots@.len(),
                ids == slot_ids(self.slots@),
                ids.no_duplicates(),
                forall|k: int| 0 <= k < i ==> ids[k] != id@,
            decreases self.slots.len() - i,
        {
            if self.slots[i].id == *id {
                proof {
                    assert(ids[i as int] == id@);
                    assert(ids.contains(id@));
                    let j = ids.index_of(id@);
                    assert(0 <= j < ids.len() && ids[j] == id@);
                }
                return Some(i);
            }
            i += 1;
        }
        proof {
            if ids.contains(id@) {
                let j = choose|j: int| 0 <= j < ids.len() && ids[j] == id@;
                assert(false);
            }
        }
        None
    }

    /// The entry with the identifier `id`, if there is one.
    pub fn get(&self, id: &String) -> (r: Option<&LicenseEntry>)
        ensures
            match r {
                Some(e) => self@.index_of(id@) is Some && e@ == self@.entries[self@.index_of(
                    id@,
                )->0],
                None => self@.index_of(id@) is None,
            },
    {
        proof {
            use_type_invariant(self);
        }
        match self.index_of(id) {
            Some(i) => Some(&self.slots[i].entry),
            None => None,
        }
    }

    /// Puts `entry` in under the identifier `id`. An entry that is already
    /// there under `id` is replaced; otherwise the entry is added.
    pub fn insert(&mut self, id: String, entry: LicenseEntry)
        ensures
            final(self)@ == (match old(self)@.index_of(id@) {
                Some(i) => StoreView { entries: old(self)@.entries.update(i, entry@), ..old(self)@ },
                None => StoreView {
                    ids: old(self)@.ids.push(id@),
                    entries: old(self)@.entries.push(entry@),
                    ..old(self)@
                },
            }),
            final(self)@.valid(),
    {
        proof {
            use_type_invariant(&*self);
            use_type_invariant(&entry);
        }
        let found = self.index_of(&id);
        let mut slots: Vec<Slot> = Vec::new();
        proof {
            assert(slot_ids(slots@) =~= Seq::empty());
            assert(slot_entries(slots@) =~= Seq::empty());
        }
        core::mem::swap(&mut self.slots, &mut slots);
        let ghost before = slots@;
        match found {
            Some(i) => {
                slots.set(i, Slot { id, entry });
                proof {
                    assert(slot_ids(slots@) =~= slot_ids(before));
                    assert(slot_entries(slots@) =~= slot_entries(before).update(i as int, entry@));
                }
            },
            None => {
                slots.push(Slot { id, entry });
                proof {
                    assert(slot_ids(slots@) =~= slot_ids(before).push(id@));
                    assert(slot_entries(slots@) =~= slot_entries(before).push(entry@));
                }
            },
        }
        core::mem::swap(&mut self.slots, &mut slots);
    }
}

} // verus!
