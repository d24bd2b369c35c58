//! Best-match search over a store.
//!
//! Every entry is scored by the best of its textual forms: the canonical
//! text, then the headers, then the alternates, the first of them that no
//! other form outscores. Of all entries the one with the highest score is
//! chosen; among entries with equal scores, the one whose identifier comes
//! first in lexicographic order. The choice is reported as a match when its
//! score reaches the store's confidence floor.
//!
//! The per-entry scoring and the choice between two candidates are offered
//! on their own, so that a caller may score the entries in any order, or on
//! several workers, and combine the results: the outcome is the same.

use vstd::prelude::*;
use crate::order::{lemma_lex_total, lemma_lex_transitive, lex_lt, precedes};
use crate::score::{
    lemma_dice_bounds, lemma_dice_one, lemma_le_lt_transitive, lemma_le_transitive,
    lemma_lt_le_transitive, similar, similarity, Ratio, Score,
};
use crate::optimize::{located, optimize};
use crate::store::base::{names, raws, EntryView, LicenseEntry, Store, StoreView};
use crate::text::{fingerprint_of, LineRange, TextData};

verus! {

/// Which textual form of an entry a score was made with.
#[derive(Clone, Copy, Debug, PartialEq, Eq, Structural)]
pub enum Variant {
    /// The canonical text.
    Original,
    /// The header with this index.
    Header(usize),
    /// The alternate text with this index.
    Alternate(usize),
}

/// The number of textual forms of an entry.
pub open spec fn form_count(e: EntryView) -> nat {
    1 + e.headers.len() + e.alternates.len()
}

/// The textual forms of an entry in their fixed order: the canonical text,
/// the headers, the alternates.
pub open spec fn form_text(e: EntryView, k: int) -> Seq<char> {
    if k <= 0 {
        e.original
    } else if k <= e.headers.len() {
        e.headers[k - 1]
    } else {
        e.alternates[k - 1 - e.headers.len()]
    }
}

/// The name of the form `k` of an entry.
pub open spec fn form_variant(e: EntryView, k: int) -> Variant {
    if k <= 0 {
        Variant::Original
    } else if k <= e.headers.len() {
        Variant::Header((k - 1) as usize)
    } else {
        Variant::Alternate((k - 1 - e.headers.len()) as usize)
    }
}

/// The score of the query `q` against the form `k` of an entry.
pub open spec fn form_score(e: EntryView, k: int, q: Seq<char>) -> Ratio {
    similarity(q, form_text(e, k))
}

/// The best of the first `n` forms of an entry: the first of them that none
/// of them outscores.
pub open spec fn best_form(e: EntryView, q: Seq<char>, n: nat) -> int
    decreases n,
{
    if n <= 1 {
        0
    } else {
        let before = best_form(e, q, (n - 1) as nat);
        if form_score(e, before, q).lt(form_score(e, n - 1, q)) {
            n - 1
        } else {
            before
        }
    }
}

/// What an entry offers for a query: its best form and that form's score.
pub struct CandidateView {
    pub entry: int,
    pub variant: Variant,
    pub score: Ratio,
}

/// What the entry `i` of a store offers for the query `q`.
pub open spec fn candidate(s: StoreView, q: Seq<char>, i: int) -> CandidateView {
    let e = s.entries[i];
    let k = best_form(e, q, form_count(e));
    CandidateView { entry: i, variant: form_variant(e, k), score: form_score(e, k, q) }
}

/// The candidate `a` is to be preferred to `b`: it has the higher score, or
/// the same score and the identifier that comes first.
pub open spec fn beats(s: StoreView, a: CandidateView, b: CandidateView) -> bool {
    b.score.lt(a.score) || (b.score.same(a.score) && lex_lt(s.ids[a.entry], s.ids[b.entry]))
}

/// The choice between two candidates, either of which may be missing.
pub open spec fn prefer(
    s: StoreView,
    a: Option<CandidateView>,
    b: Option<CandidateView>,
) -> Option<CandidateView> {
    match (a, b) {
        (None, _) => b,
        (_, None) => a,
        (Some(x), Some(y)) => if beats(s, y, x) {
            b
        } else {
            a
        },
    }
}

/// The choice among the candidates of the first `n` entries.
pub open spec fn best_among(s: StoreView, q: Seq<char>, n: nat) -> Option<CandidateView>
    decreases n,
{
    if n == 0 {
        None
    } else {
        prefer(s, best_among(s, q, (n - 1) as nat), Some(candidate(s, q, n - 1)))
    }
}

/// What a search reports, as plain values.
pub struct MatchView {
    pub id: Option<Seq<char>>,
    pub variant: Variant,
    pub aliases: Seq<Seq<char>>,
    pub score: Ratio,
    pub matched_range: Option<LineRange>,
}

/// The report of a search that found no match, with the best score seen.
pub open spec fn no_match(score: Ratio) -> MatchView {
    MatchView {
        id: None,
        variant: Variant::Original,
        aliases: Seq::empty(),
        score,
        matched_range: None,
    }
}

/// The report for the chosen candidate: a match where its score reaches the
/// floor, and no match otherwise. An empty store matches nothing, with
/// score 0.
pub open spec fn verdict(s: StoreView, best: Option<CandidateView>) -> MatchView {
    match best {
        None => no_match(Ratio { num: 0, den: 1 }),
        Some(c) => if s.floor.le(c.score) {
            MatchView {
                id: Some(s.ids[c.entry]),
                variant: c.variant,
                aliases: s.entries[c.entry].aliases,
                score: c.score,
                matched_range: None,
            }
        } else {
            no_match(c.score)
        },
    }
}

/// What a search of the store `s` for the query `q` reports.
pub open spec fn analysis(s: StoreView, q: Seq<char>) -> MatchView {
    verdict(s, best_among(s, q, s.entries.len()))
}

/// The text of a variant of an entry; none where the entry has no such
/// variant.
pub open spec fn variant_text(e: EntryView, v: Variant) -> Option<Seq<char>> {
    match v {
        Variant::Original => Some(e.original),
        Variant::Header(j) => if j < e.headers.len() {
            Some(e.headers[j as int])
        } else {
            None
        },
        Variant::Alternate(j) => if j < e.alternates.len() {
            Some(e.alternates[j as int])
        } else {
            None
        },
    }
}

/// The report on a candidate after the optimizer has looked for the lines of
/// the query `q` that match the candidate's text best: a match on those
/// lines, with their score, where that score reaches the floor.
pub open spec fn refined_verdict(s: StoreView, q: Seq<char>, best: Option<CandidateView>) -> MatchView {
    match best {
        None => no_match(Ratio { num: 0, den: 1 }),
        Some(c) => match variant_text(s.entries[c.entry], c.variant) {
            None => no_match(c.score),
            Some(reference) => {
                let found = located(q, reference, s.floor);
                if s.floor.le(found.score) {
                    MatchView {
                        id: Some(s.ids[c.entry]),
                        variant: c.variant,
                        aliases: s.entries[c.entry].aliases,
                        score: found.score,
                        matched_range: Some(
                            LineRange { first: found.first as usize, last: found.last as usize },
                        ),
                    }
                } else {
                    no_match(found.score)
                }
            },
        },
    }
}

/// What a search of the store `s` for the query `q` reports when the
/// matching lines are asked for.
pub open spec fn refined_analysis(s: StoreView, q: Seq<char>) -> MatchView {
    refined_verdict(s, q, best_among(s, q, s.entries.len()))
}

/// The variant that names a form of an entry has that form's text.
pub proof fn lemma_variant_text(e: EntryView, k: int)
    requires
        0 <= k < form_count(e),
        form_count(e) <= usize::MAX,
    ensures
        variant_text(e, form_variant(e, k)) == Some(form_text(e, k)),
{
}

/// A score is a fraction between 0 and 1.
pub proof fn lemma_form_score_bounds(e: EntryView, k: int, q: Seq<char>)
    ensures
        form_score(e, k, q).den > 0,
        form_score(e, k, q).num <= form_score(e, k, q).den,
{
    lemma_dice_bounds(fingerprint_of(q), fingerprint_of(form_text(e, k)));
}

/// The best form of an entry is one of its forms; no form outscores it, and
/// every form before it scores less.
pub proof fn lemma_best_form(e: EntryView, q: Seq<char>, n: nat)
    requires
        n >= 1,
    ensures
        0 <= best_form(e, q, n) < n,
        forall|j: int|
            0 <= j < n ==> (#[trigger] form_score(e, j, q)).le(
                form_score(e, best_form(e, q, n), q),
            ),
        forall|j: int|
            0 <= j < best_form(e, q, n) ==> (#[trigger] form_score(e, j, q)).lt(
                form_score(e, best_form(e, q, n), q),
            ),
    decreases n,
{
    if n > 1 {
        let m = (n - 1) as nat;
        lemma_best_form(e, q, m);
        let before = best_form(e, q, m);
        let last = form_score(e, n - 1, q);
        let top = form_score(e, before, q);
        lemma_form_score_bounds(e, before, q);
        lemma_form_score_bounds(e, n - 1, q);
        if top.lt(last) {
            assert forall|j: int| 0 <= j < n implies (#[trigger] form_score(e, j, q)).lt(last)
                || j == n - 1 by {
                if j < n - 1 {
                    lemma_form_score_bounds(e, j, q);
                    lemma_le_lt_transitive(form_score(e, j, q), top, last);
                }
            }
        }
    }
}

/// Of two candidates for different entries exactly one is preferred to the
/// other.
pub proof fn lemma_beats_total(s: StoreView, a: CandidateView, b: CandidateView)
    requires
        s.ids.no_duplicates(),
        0 <= a.entry < s.ids.len(),
        0 <= b.entry < s.ids.len(),
        a.entry != b.entry,
    ensures
        beats(s, a, b) <==> !beats(s, b, a),
{
    lemma_lex_total(s.ids[a.entry], s.ids[b.entry]);
}

/// Preference is transitive.
pub proof fn lemma_beats_transitive(
    s: StoreView,
    a: CandidateView,
    b: CandidateView,
    c: CandidateView,
)
    requires
        a.score.den > 0,
        b.score.den > 0,
        c.score.den > 0,
        beats(s, a, b),
        beats(s, b, c),
    ensures
        beats(s, a, c),
{
    if b.score.lt(a.score) {
        lemma_le_lt_transitive(c.score, b.score, a.score);
    } else if c.score.lt(b.score) {
        lemma_lt_le_transitive(c.score, b.score, a.score);
    } else {
        lemma_le_transitive(c.score, b.score, a.score);
        lemma_le_transitive(a.score, b.score, c.score);
        lemma_lex_transitive(s.ids[a.entry], s.ids[b.entry], s.ids[c.entry]);
    }
}

/// The candidate chosen among the first `n` entries is the candidate of one
/// of them, and is preferred to the candidate of every other one. So the
/// choice does not depend on the order in which the entries stand.
pub proof fn lemma_best_among(s: StoreView, q: Seq<char>, n: nat)
    requires
        s.valid(),
        1 <= n <= s.entries.len(),
    ensures
        best_among(s, q, n) is Some,
        0 <= best_among(s, q, n)->0.entry < n,
        best_among(s, q, n)->0 == candidate(s, q, best_among(s, q, n)->0.entry),
        forall|j: int|
            0 <= j < n && j != best_among(s, q, n)->0.entry ==> beats(
                s,
                best_among(s, q, n)->0,
                #[trigger] candidate(s, q, j),
            ),
    decreases n,
{
    let new = candidate(s, q, n - 1);
    assert(best_among(s, q, 0) is None);
    if n > 1 {
        let m = (n - 1) as nat;
        lemma_best_among(s, q, m);
        let p = best_among(s, q, m)->0;
        lemma_beats_total(s, new, p);
        if beats(s, new, p) {
            assert forall|j: int| 0 <= j < n && j != n - 1 implies beats(
                s,
                new,
                #[trigger] candidate(s, q, j),
            ) by {
                if j != p.entry {
                    lemma_candidate_bounds(s, q, j);
                    lemma_candidate_bounds(s, q, p.entry);
                    lemma_candidate_bounds(s, q, n - 1);
                    lemma_beats_transitive(s, new, p, candidate(s, q, j));
                }
            }
        }
    }
}

/// The candidate of an entry that is preferred to the candidate of every
/// other entry is the one chosen. So the choice is settled by the entries and
/// their identifiers alone, whatever the order in which they stand.
pub proof fn lemma_best_is_unique(s: StoreView, q: Seq<char>, i: int)
    requires
        s.valid(),
        0 <= i < s.entries.len(),
        forall|j: int|
            0 <= j < s.entries.len() && j != i ==> beats(
                s,
                candidate(s, q, i),
                #[trigger] candidate(s, q, j),
            ),
    ensures
        best_among(s, q, s.entries.len()) == Some(candidate(s, q, i)),
{
    lemma_best_among(s, q, s.entries.len());
    let b = best_among(s, q, s.entries.len())->0;
    if b.entry != i {
        assert(beats(s, b, candidate(s, q, i)));
        assert(beats(s, candidate(s, q, i), candidate(s, q, b.entry)));
        lemma_beats_total(s, b, candidate(s, q, i));
    }
}

/// Whether `c` is what the store offers for the query: nothing, or the
/// candidate of one of its entries.
pub open spec fn offered(s: StoreView, q: Seq<char>, c: Option<CandidateView>) -> bool {
    c is Some ==> 0 <= c->0.entry < s.entries.len() && c->0 == candidate(s, q, c->0.entry)
}

/// The choice between two candidates does not depend on which is named
/// first.
pub proof fn lemma_prefer_commutative(
    s: StoreView,
    q: Seq<char>,
    a: Option<CandidateView>,
    b: Option<CandidateView>,
)
    requires
        s.valid(),
        offered(s, q, a),
        offered(s, q, b),
    ensures
        prefer(s, a, b) == prefer(s, b, a),
        offered(s, q, prefer(s, a, b)),
{
    if a is Some && b is Some {
        let (x, y) = (a->0, b->0);
        if x.entry == y.entry {
            lemma_lex_total(s.ids[x.entry], s.ids[y.entry]);
        } else {
            lemma_beats_total(s, x, y);
        }
    }
}

/// The choice among three candidates does not depend on which two are
/// compared first. With this and the law before it, candidates may be
/// combined in any order and any grouping: the outcome is the same.
pub proof fn lemma_prefer_associative(
    s: StoreView,
    q: Seq<char>,
    a: Option<CandidateView>,
    b: Option<CandidateView>,
    c: Option<CandidateView>,
)
    requires
        s.valid(),
        offered(s, q, a),
        offered(s, q, b),
        offered(s, q, c),
    ensures
        prefer(s, prefer(s, a, b), c) == prefer(s, a, prefer(s, b, c)),
{
    if a is Some && b is Some && c is Some {
        let (x, y, z) = (a->0, b->0, c->0);
        lemma_candidate_bounds(s, q, x.entry);
        lemma_candidate_bounds(s, q, y.entry);
        lemma_candidate_bounds(s, q, z.entry);
        lemma_prefer_commutative(s, q, a, b);
        lemma_prefer_commutative(s, q, b, c);
        lemma_prefer_commutative(s, q, a, c);
        lemma_lex_total(s.ids[x.entry], s.ids[x.entry]);
        lemma_lex_total(s.ids[y.entry], s.ids[y.entry]);
        lemma_lex_total(s.ids[z.entry], s.ids[z.entry]);
        if x.entry != y.entry {
            lemma_beats_total(s, x, y);
        }
        if y.entry != z.entry {
            lemma_beats_total(s, y, z);
        }
        if x.entry != z.entry {
            lemma_beats_total(s, x, z);
        }
        if beats(s, x, y) && beats(s, y, z) {
            lemma_beats_transitive(s, x, y, z);
        }
        if beats(s, x, z) && beats(s, z, y) {
            lemma_beats_transitive(s, x, z, y);
        }
        if beats(s, y, x) && beats(s, x, z) {
            lemma_beats_transitive(s, y, x, z);
        }
        if beats(s, y, z) && beats(s, z, x) {
            lemma_beats_transitive(s, y, z, x);
        }
        if beats(s, z, x) && beats(s, x, y) {
            lemma_beats_transitive(s, z, x, y);
        }
        if beats(s, z, y) && beats(s, y, x) {
            lemma_beats_transitive(s, z, y, x);
        }
    }
}

/// The score of a candidate is a fraction between 0 and 1.
pub proof fn lemma_candidate_bounds(s: StoreView, q: Seq<char>, i: int)
    ensures
        candidate(s, q, i).score.den > 0,
        candidate(s, q, i).score.num <= candidate(s, q, i).score.den,
{
    let e = s.entries[i];
    lemma_form_score_bounds(e, best_form(e, q, form_count(e)), q);
}

/// A text equal to the canonical text of an entry is matched to that entry,
/// by its canonical text and with score 1, where the text has a shingle at
/// all and no entry whose identifier comes earlier has a form with the same
/// shingles.
pub proof fn lemma_reflexive_match(s: StoreView, i: int)
    requires
        s.valid(),
        0 <= i < s.entries.len(),
        fingerprint_of(s.entries[i].original).len() > 0,
        forall|j: int, k: int|
            0 <= j < s.entries.len() && 0 <= k < form_count(s.entries[j]) && lex_lt(
                s.ids[j],
                s.ids[i],
            ) ==> fingerprint_of(#[trigger] form_text(s.entries[j], k)).dom() != fingerprint_of(
                s.entries[i].original,
            ).dom(),
    ensures
        analysis(s, s.entries[i].original).id == Some(s.ids[i]),
        analysis(s, s.entries[i].original).variant == Variant::Original,
        analysis(s, s.entries[i].original).aliases == s.entries[i].aliases,
        analysis(s, s.entries[i].original).score.is_one(),
{
    let q = s.entries[i].original;
    let n = s.entries.len();
    let e = s.entries[i];
    lemma_best_among(s, q, n);
    let c = best_among(s, q, n)->0;
    // The canonical text scores 1 against itself, and is the first form.
    lemma_dice_one(fingerprint_of(q), fingerprint_of(q));
    assert(form_score(e, 0, q).is_one());
    lemma_best_form(e, q, form_count(e));
    let k = best_form(e, q, form_count(e));
    lemma_form_score_bounds(e, k, q);
    lemma_form_score_bounds(e, 0, q);
    if k > 0 {
        assert(form_score(e, 0, q).lt(form_score(e, k, q)));
        lemma_one_is_top(form_score(e, 0, q), form_score(e, k, q));
    }
    assert(form_score(e, 0, q).le(form_score(e, k, q)));
    let mine = candidate(s, q, i);
    assert(mine.variant == Variant::Original);
    assert(mine.score.is_one());
    lemma_candidate_bounds(s, q, c.entry);
    if c.entry != i {
        assert(beats(s, c, mine));
        if mine.score.lt(c.score) {
            lemma_one_is_top(mine.score, c.score);
        }
        // The chosen candidate scores 1 too, with an earlier identifier.
        let other = s.entries[c.entry];
        let ko = best_form(other, q, form_count(other));
        lemma_best_form(other, q, form_count(other));
        lemma_same_as_one(mine.score, c.score);
        lemma_dice_one(fingerprint_of(q), fingerprint_of(form_text(other, ko)));
        assert(false);
    }
    lemma_below_one(s.floor, c.score);
}

/// Nothing between 0 and 1 lies above 1.
proof fn lemma_one_is_top(one: Ratio, other: Ratio)
    requires
        one.is_one(),
        one.den > 0,
        other.den > 0,
        other.num <= other.den,
    ensures
        !one.lt(other),
{
    assert(other.num * one.den <= one.num * other.den) by (nonlinear_arith)
        requires
            one.num == one.den,
            other.num <= other.den,
            one.den > 0,
            other.den > 0,
    ;
}

/// A fraction with the value of 1 is 1.
proof fn lemma_same_as_one(one: Ratio, other: Ratio)
    requires
        one.is_one(),
        one.den > 0,
        other.den > 0,
        one.same(other),
    ensures
        other.is_one(),
{
    assert(other.num == other.den) by (nonlinear_arith)
        requires
            one.num == one.den,
            one.den > 0,
            other.den > 0,
            one.num * other.den == other.num * one.den,
    ;
}

/// A floor between 0 and 1 is reached by 1.
proof fn lemma_below_one(floor: Ratio, one: Ratio)
    requires
        one.is_one(),
        one.den > 0,
        floor.den > 0,
        floor.num <= floor.den,
    ensures
        floor.le(one),
{
    assert(floor.num * one.den <= one.num * floor.den) by (nonlinear_arith)
        requires
            one.num == one.den,
            floor.num <= floor.den,
            one.den > 0,
            floor.den > 0,
    ;
}

/// What an entry offers for a query: its best form and that form's score.
#[derive(Clone, Copy, Debug)]
pub struct Candidate {
    pub entry: usize,
    pub variant: Variant,
    pub score: Score,
}

impl View for Candidate {
    type V = CandidateView;

    open spec fn view(&self) -> CandidateView {
        CandidateView { entry: self.entry as int, variant: self.variant, score: self.score@ }
    }
}

/// What a candidate that may be missing holds.
pub open spec fn seen(c: Option<Candidate>) -> Option<CandidateView> {
    match c {
        Some(x) => Some(x@),
        None => None,
    }
}

/// The outcome of a search.
#[derive(Debug)]
pub struct MatchResult {
    /// The identifier of the matched entry; none where no entry reaches the
    /// confidence floor.
    pub id: Option<String>,
    /// The textual form that matched.
    pub variant: Variant,
    /// The other names of the matched entry.
    pub aliases: Vec<String>,
    /// The best score found, match or not.
    pub score: Score,
    /// The lines of the query that matched, where that was asked for.
    pub matched_range: Option<LineRange>,
}

impl View for MatchResult {
    type V = MatchView;

    open spec fn view(&self) -> MatchView {
        MatchView {
            id: match self.id {
                Some(x) => Some(x@),
                None => None,
            },
            variant: self.variant,
            aliases: names(self.aliases@),
            score: self.score@,
            matched_range: self.matched_range,
        }
    }
}

/// A copy of a list of names.
pub fn copy_names(v: &Vec<String>) -> (r: Vec<String>)
    ensures
        names(r@) == names(v@),
{
    let mut out: Vec<String> = Vec::new();
    let mut i: usize = 0;
    while i < v.len()
        invariant
            i <= v.len(),
            out@.len() == i,
            forall|k: int| 0 <= k < i ==> (#[trigger] out@[k])@ == v@[k]@,
        decreases v.len() - i,
    {
        out.push(v[i].clone());
        i += 1;
    }
    proof {
        assert(names(out@) =~= names(v@));
    }
    out
}

impl Store {
    /// What the entry at `index` offers for `query`: the best of its forms.
    pub fn score_entry(&self, index: usize, query: &TextData) -> (r: Candidate)
        requires
            index < self@.entries.len(),
        ensures
            r@ == candidate(self@, query@, index as int),
    {
        let entry = self.entry_at(index);
        let ghost e = entry@;
        let ghost q = query@;
        let mut best = similar(query, entry.original());
        let mut variant = Variant::Original;
        let ghost mut at: int = 0;
        let headers = entry.headers();
        let mut j: usize = 0;
        while j < headers.len()
            invariant
                j <= headers.len(),
                q == query@,
                raws(headers@) == e.headers,
                at == best_form(e, q, (1 + j) as nat),
                0 <= at <= j,
                variant == form_variant(e, at),
                best@ == form_score(e, at, q),
            decreases headers.len() - j,
        {
            let s = similar(query, &headers[j]);
            proof {
                assert(raws(headers@)[j as int] == headers@[j as int]@);
                assert(form_text(e, 1 + j) == headers@[j as int]@);
            }
            if !s.le(&best) {
                best = s;
                variant = Variant::Header(j);
                proof {
                    at = 1 + j;
                }
            }
            j += 1;
        }
        let alternates = entry.alternates();
        let ghost h = e.headers.len();
        let mut j: usize = 0;
        while j < alternates.len()
            invariant
                j <= alternates.len(),
                q == query@,
                raws(alternates@) == e.alternates,
                h == e.headers.len(),
                h == headers@.len(),
                at == best_form(e, q, (1 + h + j) as nat),
                0 <= at <= h + j,
                variant == form_variant(e, at),
                best@ == form_score(e, at, q),
            decreases alternates.len() - j,
        {
            let s = similar(query, &alternates[j]);
            proof {
                assert(raws(alternates@)[j as int] == alternates@[j as int]@);
                assert(form_text(e, 1 + h + j) == alternates@[j as int]@);
            }
            if !s.le(&best) {
                best = s;
                variant = Variant::Alternate(j);
                proof {
                    at = 1 + h + j;
                }
            }
            j += 1;
        }
        Candidate { entry: index, variant, score: best }
    }

    /// The choice between two candidates: the one with the higher score, or
    /// with the same score and the identifier that comes first.
    pub fn prefer(&self, a: Option<Candidate>, b: Option<Candidate>) -> (r: Option<Candidate>)
        requires
            a is Some ==> a->0.entry < self@.ids.len(),
            b is Some ==> b->0.entry < self@.ids.len(),
        ensures
            seen(r) == prefer(self@, seen(a), seen(b)),
            r == a || r == b,
    {
        match (a, b) {
            (None, _) => b,
            (_, None) => a,
            (Some(x), Some(y)) => {
                if !y.score.le(&x.score) {
                    b
                } else if x.score.le(&y.score) && precedes(
                    self.id_at(y.entry).as_str(),
                    self.id_at(x.entry).as_str(),
                ) {
                    b
                } else {
                    a
                }
            },
        }
    }

    /// The report for the chosen candidate: a match where its score reaches
    /// the confidence floor.
    pub fn conclude(&self, best: Option<Candidate>) -> (r: MatchResult)
        requires
            best is Some ==> best->0.entry < self@.ids.len(),
        ensures
            r@ == verdict(self@, seen(best)),
    {
        proof {
            use_type_invariant(self);
        }
        let floor = self.floor();
        match best {
            Some(c) => {
                if c.score.meets(&floor) {
                    MatchResult {
                        id: Some(self.id_at(c.entry).clone()),
                        variant: c.variant,
                        aliases: copy_names(self.entry_at(c.entry).aliases()),
                        score: c.score,
                        matched_range: None,
                    }
                } else {
                    let r = MatchResult {
                        id: None,
                        variant: Variant::Original,
                        aliases: Vec::new(),
                        score: c.score,
                        matched_range: None,
                    };
                    proof {
                        assert(names(r.aliases@) =~= Seq::empty());
                    }
                    r
                }
            },
            None => {
                let r = MatchResult {
                    id: None,
                    variant: Variant::Original,
                    aliases: Vec::new(),
                    score: Score::zero(),
                    matched_range: None,
                };
                proof {
                    assert(names(r.aliases@) =~= Seq::empty());
                }
                r
            },
        }
    }

    /// The candidate chosen among all entries for `query`; none where the
    /// store is empty.
    pub fn best_candidate(&self, query: &TextData) -> (r: Option<Candidate>)
        ensures
            seen(r) == best_among(self@, query@, self@.entries.len()),
            r is Some ==> r->0.entry < self@.entries.len(),
    {
        let n: usize = self.len();
        let mut best: Option<Candidate> = None;
        let mut i: usize = 0;
        while i < n
            invariant
                i <= n,
                n == self@.entries.len(),
                n == self@.ids.len(),
                seen(best) == best_among(self@, query@, i as nat),
                best is Some ==> best->0.entry < n,
            decreases n - i,
        {
            let c = self.score_entry(i, query);
            best = self.prefer(best, Some(c));
            i += 1;
        }
        best
    }

    /// Finds the entry that `query` most closely resembles: the entry and
    /// form with the highest score, reported as a match where that score
    /// reaches the confidence floor.
    pub fn analyze(&self, query: &TextData) -> (r: MatchResult)
        ensures
            r@ == analysis(self@, query@),
    {
        proof {
            use_type_invariant(self);
        }
        let best = self.best_candidate(query);
        self.conclude(best)
    }

    /// Finds the entry that `query` most closely resembles, and the lines of
    /// `query` that match it.
    ///
    /// The entry and form are chosen as `analyze` chooses them, by the score of
    /// the whole text. The optimizer then looks for the lines that match that
    /// form best. Their score decides whether a match is reported, so that a
    /// license which is only a part of `query` is found.
    pub fn locate(&self, query: &TextData) -> (r: MatchResult)
        ensures
            r@ == refined_analysis(self@, query@),
    {
        proof {
            use_type_invariant(self);
        }
        let c = match self.best_candidate(query) {
            Some(c) => c,
            None => {
                return self.conclude(None);
            },
        };
        let entry = self.entry_at(c.entry);
        let floor = self.floor();
        let score = match form(entry, c.variant) {
            Some(reference) => {
                let (score, range) = optimize(query, reference, &floor);
                if score.meets(&floor) {
                    return MatchResult {
                        id: Some(self.id_at(c.entry).clone()),
                        variant: c.variant,
                        aliases: copy_names(entry.aliases()),
                        score,
                        matched_range: Some(range),
                    };
                }
                score
            },
            None => c.score,
        };
        let r = MatchResult {
            id: None,
            variant: Variant::Original,
            aliases: Vec::new(),
            score,
            matched_range: None,
        };
        proof {
            assert(names(r.aliases@) =~= Seq::empty());
        }
        r
    }
}

/// The text of a variant of an entry; none where the entry has no such
/// variant.
pub fn form(entry: &LicenseEntry, variant: Variant) -> (r: Option<&TextData>)
    ensures
        match r {
            Some(t) => variant_text(entry@, variant) == Some(t@),
            None => variant_text(entry@, variant) is None,
        },
{
    match variant {
        Variant::Original => Some(entry.original()),
        Variant::Header(j) => {
            let headers = entry.headers();
            if j < headers.len() {
                proof {
                    assert(raws(headers@)[j as int] == headers@[j as int]@);
                }
                Some(&headers[j])
            } else {
                None
            }
        },
        Variant::Alternate(j) => {
            let alternates = entry.alternates();
            if j < alternates.len() {
                proof {
                    assert(raws(alternates@)[j as int] == alternates@[j as int]@);
                }
                Some(&alternates[j])
            } else {
                None
            }
        },
    }
}

} // verus!
