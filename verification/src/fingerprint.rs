//! Fingerprints: the shingles of a token stream, with how often each occurs.
//!
//! A shingle is a run of `SHINGLE_WORDS` consecutive tokens, written as the
//! tokens joined by single spaces. The fingerprint of a token stream is the
//! multiset of the shingles at all of its positions.

use vstd::multiset::Multiset;
use vstd::prelude::*;
use crate::order::{ascending, lemma_lex_irreflexive, lemma_lex_transitive, lex_lt, place, Place};
use crate::text::{join_range, join_words, texts};

verus! {

/// The number of consecutive words that make one shingle.
pub const SHINGLE_WORDS: usize = 2;

/// The number of shingles in a token stream: one for each position at which a
/// full shingle begins.
pub open spec fn shingle_count(toks: Seq<Seq<char>>) -> nat {
    if toks.len() >= SHINGLE_WORDS {
        (toks.len() - SHINGLE_WORDS + 1) as nat
    } else {
        0
    }
}

/// The shingles of a token stream, in the order of their positions.
pub open spec fn shingles(toks: Seq<Seq<char>>) -> Seq<Seq<char>> {
    Seq::new(shingle_count(toks), |i: int| join_words(toks.subrange(i, i + SHINGLE_WORDS)))
}

/// The fingerprint of a token stream: the multiset of its shingles.
pub open spec fn shingle_bag(toks: Seq<Seq<char>>) -> Multiset<Seq<char>> {
    shingles(toks).to_multiset()
}

/// The number of distinct shingles that two fingerprints share.
pub open spec fn overlap(a: Multiset<Seq<char>>, b: Multiset<Seq<char>>) -> nat {
    a.dom().intersect(b.dom()).len()
}

/// The multiset of shingles of a text's token stream.
///
/// Each distinct shingle is held once, beside the number of times it occurs.
/// The shingles are held in ascending order, so that one is found by halving
/// the range in which it can be.
pub struct Fingerprint {
    shingles: Vec<Vec<char>>,
    counts: Vec<usize>,
    source: Ghost<Seq<Seq<char>>>,
}

/// Where `s` stands among the ascending `held`: the place at which it is
/// held, or else the place at which it would have to be put in.
fn search(held: &Vec<Vec<char>>, s: &Vec<char>) -> (r: Result<usize, usize>)
    requires
        ascending(texts(held@)),
    ensures
        match r {
            Ok(j) => j < held@.len() && held@[j as int]@ == s@,
            Err(j) => j <= held@.len() && (forall|i: int|
                0 <= i < j ==> lex_lt((#[trigger] held@[i])@, s@)) && (forall|i: int|
                j <= i < held@.len() ==> lex_lt(s@, (#[trigger] held@[i])@)),
        },
{
    let ghost t = texts(held@);
    let mut lo: usize = 0;
    let mut hi: usize = held.len();
    while lo < hi
        invariant
            lo <= hi <= held@.len(),
            t == texts(held@),
            ascending(t),
            forall|i: int| 0 <= i < lo ==> lex_lt((#[trigger] held@[i])@, s@),
            forall|i: int| hi <= i < held@.len() ==> lex_lt(s@, (#[trigger] held@[i])@),
        decreases hi - lo,
    {
        let mid: usize = lo + (hi - lo) / 2;
        match place(&held[mid], s) {
            Place::Same => {
                return Ok(mid);
            },
            Place::Before => {
                proof {
                    assert forall|i: int| 0 <= i < mid + 1 implies lex_lt(
                        (#[trigger] held@[i])@,
                        s@,
                    ) by {
                        if i < mid {
                            assert(lex_lt(t[i], t[mid as int]));
                            lemma_lex_transitive(t[i], t[mid as int], s@);
                        }
                    }
                }
                lo = mid + 1;
            },
            Place::After => {
                proof {
                    assert forall|i: int| mid <= i < held@.len() implies lex_lt(
                        s@,
                        (#[trigger] held@[i])@,
                    ) by {
                        if i > mid {
                            assert(lex_lt(t[mid as int], t[i]));
                            lemma_lex_transitive(s@, t[mid as int], t[i]);
                        }
                    }
                }
                hi = mid;
            },
        }
    }
    Err(lo)
}

/// How shingles and counts stand for the multiset of `source`: each distinct
/// element of `source` is held once, with its multiplicity, and the elements
/// are held in ascending order.
spec fn stands_for(held: Seq<Vec<char>>, counts: Seq<usize>, source: Seq<Seq<char>>) -> bool {
    &&& counts.len() == held.len()
    &&& ascending(texts(held))
    &&& forall|i: int|
        0 <= i < held.len() ==> (#[trigger] counts[i]) as nat == source.to_multiset().count(held[i]@)
            && counts[i] > 0
    &&& forall|s: Seq<char>|
        #[trigger] source.to_multiset().count(s) > 0 ==> exists|i: int|
            0 <= i < held.len() && (#[trigger] held[i])@ == s
}

/// The distinct elements of `source` are exactly the shingles held.
proof fn lemma_held_is_dom(held: Seq<Vec<char>>, counts: Seq<usize>, source: Seq<Seq<char>>)
    requires
        stands_for(held, counts, source),
    ensures
        texts(held).no_duplicates(),
        source.to_multiset().dom() == texts(held).to_set(),
        source.to_multiset().dom().len() == held.len(),
{
    let t = texts(held);
    assert(t.no_duplicates()) by {
        assert forall|i: int, j: int| 0 <= i < t.len() && 0 <= j < t.len() && i != j implies t[i]
            != t[j] by {
            lemma_lex_irreflexive(t[i]);
            if i < j {
                assert(lex_lt(t[i], t[j]));
            } else {
                assert(lex_lt(t[j], t[i]));
            }
        }
    }
    assert(source.to_multiset().dom() =~= t.to_set()) by {
        assert forall|s: Seq<char>| source.to_multiset().dom().contains(s) implies t.to_set().contains(
            s,
        ) by {
            assert(source.to_multiset().count(s) > 0);
            let i = choose|i: int| 0 <= i < held.len() && (#[trigger] held[i])@ == s;
            assert(t[i] == s);
            assert(t.contains(s));
        }
        assert forall|s: Seq<char>| t.to_set().contains(s) implies source.to_multiset().dom().contains(
            s,
        ) by {
            assert(t.contains(s));
            let i = choose|i: int| 0 <= i < t.len() && #[trigger] t[i] == s;
            assert(counts[i] > 0);
            assert(source.to_multiset().count(held[i]@) > 0);
        }
    }
    t.unique_seq_to_set();
}

impl View for Fingerprint {
    type V = Multiset<Seq<char>>;

    closed spec fn view(&self) -> Multiset<Seq<char>> {
        self.source@.to_multiset()
    }
}

impl Fingerprint {
    #[verifier::type_invariant]
    spec fn well_formed(self) -> bool {
        stands_for(self.shingles@, self.counts@, self.source@)
    }

    /// The fingerprint of the tokens `from..to` of `tokens`.
    #[verifier::rlimit(40)]
    pub fn of_tokens(tokens: &Vec<Vec<char>>, from: usize, to: usize) -> (r: Fingerprint)
        requires
            from <= to <= tokens.len(),
        ensures
            r@ == shingle_bag(texts(tokens@).subrange(from as int, to as int)),
    {
        let ghost toks = texts(tokens@).subrange(from as int, to as int);
        let ghost all = shingles(toks);
        let mut held: Vec<Vec<char>> = Vec::new();
        let mut counts: Vec<usize> = Vec::new();
        let total: usize = if to - from >= SHINGLE_WORDS {
            to - from - SHINGLE_WORDS + 1
        } else {
            0
        };
        let mut k: usize = 0;
        proof {
            assert(all.take(0) =~= Seq::<Seq<char>>::empty());
            broadcast use vstd::seq_lib::group_to_multiset_ensures;
            broadcast use vstd::multiset::group_multiset_axioms;

            assert(stands_for(held@, counts@, all.take(0)));
        }
        while k < total
            invariant
                from <= to <= tokens.len(),
                toks == texts(tokens@).subrange(from as int, to as int),
                all == shingles(toks),
                total == all.len(),
                total > 0 ==> total + SHINGLE_WORDS - 1 == to - from,
                k <= total,
                stands_for(held@, counts@, all.take(k as int)),
            decreases total - k,
        {
            let s = join_range(tokens, from + k, from + k + SHINGLE_WORDS);
            let ghost before = all.take(k as int);
            let ghost after = all.take(k + 1);
            proof {
                broadcast use vstd::seq_lib::group_to_multiset_ensures;
                broadcast use vstd::multiset::group_multiset_axioms;

                assert(toks.subrange(k as int, k + SHINGLE_WORDS) =~= texts(tokens@).subrange(
                    from + k,
                    from + k + SHINGLE_WORDS,
                ));
                assert(s@ == all[k as int]);
                assert(after =~= before.push(s@));
                assert(after.to_multiset() =~= before.to_multiset().insert(s@));
                assert(before.to_multiset().len() == k);
                assert forall|x: Seq<char>| x != s@ implies after.to_multiset().count(x)
                    == before.to_multiset().count(x) by {}
                assert(after.to_multiset().count(s@) == before.to_multiset().count(s@) + 1);
                assert(before.to_multiset().count(s@) <= k);
            }
            match search(&held, &s) {
                Ok(j) => {
                    let c: usize = counts[j];
                    counts.set(j, c + 1);
                    proof {
                        let t = texts(held@);
                        lemma_lex_irreflexive(s@);
                        assert forall|i: int| 0 <= i < held@.len() && i != j implies (
                        #[trigger] held@[i])@ != s@ by {
                            if i < j {
                                assert(lex_lt(t[i], t[j as int]));
                            } else {
                                assert(lex_lt(t[j as int], t[i]));
                            }
                        }
                        assert forall|x: Seq<char>| #[trigger]
                            after.to_multiset().count(x) > 0 implies exists|i: int|
                            0 <= i < held@.len() && (#[trigger] held@[i])@ == x by {
                            if x == s@ {
                                assert(held@[j as int]@ == x);
                            } else {
                                assert(before.to_multiset().count(x) > 0);
                            }
                        }
                        assert(stands_for(held@, counts@, after));
                    }
                },
                Err(j) => {
                    let ghost old_held = held@;
                    let ghost old_counts = counts@;
                    proof {
                        lemma_lex_irreflexive(s@);
                        if before.to_multiset().count(s@) > 0 {
                            let i = choose|i: int|
                                0 <= i < held@.len() && (#[trigger] held@[i])@ == s@;
                            assert(false);
                        }
                    }
                    held.insert(j, s);
                    counts.insert(j, 1);
                    proof {
                        let t = texts(held@);
                        let u = texts(old_held);
                        assert forall|a: int, b: int| 0 <= a < b < t.len() implies lex_lt(
                            #[trigger] t[a],
                            #[trigger] t[b],
                        ) by {
                            let (a0, b0) = (
                                if a < j {
                                    a
                                } else {
                                    a - 1
                                },
                                if b < j {
                                    b
                                } else {
                                    b - 1
                                },
                            );
                            if a != j && b != j {
                                assert(t[a] == u[a0] && t[b] == u[b0]);
                                assert(lex_lt(u[a0], u[b0]));
                            } else if a == j {
                                assert(t[b] == old_held[b0]@);
                            } else {
                                assert(t[a] == old_held[a0]@);
                            }
                        }
                        assert forall|i: int| 0 <= i < held@.len() implies (
                        #[trigger] counts@[i]) as nat == after.to_multiset().count(held@[i]@)
                            && counts@[i] > 0 by {
                            if i < j {
                                assert(held@[i] == old_held[i] && counts@[i] == old_counts[i]);
                                assert(lex_lt(old_held[i]@, s@));
                            } else if i > j {
                                assert(held@[i] == old_held[i - 1] && counts@[i] == old_counts[i
                                    - 1]);
                                assert(lex_lt(s@, old_held[i - 1]@));
                            }
                        }
                        assert forall|x: Seq<char>| #[trigger]
                            after.to_multiset().count(x) > 0 implies exists|i: int|
                            0 <= i < held@.len() && (#[trigger] held@[i])@ == x by {
                            if x == s@ {
                                assert(held@[j as int]@ == x);
                            } else {
                                assert(before.to_multiset().count(x) > 0);
                                let i = choose|i: int|
                                    0 <= i < old_held.len() && (#[trigger] old_held[i])@ == x;
                                if i < j {
                                    assert(held@[i]@ == x);
                                } else {
                                    assert(held@[i + 1]@ == x);
                                }
                            }
                        }
                        assert(stands_for(held@, counts@, after));
                    }
                },
            }
            k += 1;
        }
        proof {
            assert(all.take(total as int) =~= all);
        }
        Fingerprint { shingles: held, counts, source: Ghost(all) }
    }

    /// The number of distinct shingles.
    pub fn len(&self) -> (r: usize)
        ensures
            r == self@.dom().len(),
    {
        proof {
            use_type_invariant(self);
            lemma_held_is_dom(self.shingles@, self.counts@, self.source@);
        }
        self.shingles.len()
    }

    /// Whether there is no shingle at all.
    pub fn is_empty(&self) -> (r: bool)
        ensures
            r == (self@.len() == 0),
    {
        proof {
            use_type_invariant(self);
            lemma_held_is_dom(self.shingles@, self.counts@, self.source@);
            broadcast use vstd::multiset::group_multiset_axioms;

            if self@.len() == 0 {
                if self.shingles@.len() > 0 {
                    assert(self.counts@[0] > 0);
                    assert(self@.count(self.shingles@[0]@) > 0);
                    assert(false);
                }
            } else {
                let x = self@.choose();
                assert(self@.count(x) > 0);
            }
        }
        self.shingles.len() == 0
    }

    /// How often `shingle` occurs.
    pub fn count(&self, shingle: &Vec<char>) -> (r: usize)
        ensures
            r == self@.count(shingle@),
    {
        proof {
            use_type_invariant(self);
        }
        match search(&self.shingles, shingle) {
            Ok(j) => self.counts[j],
            Err(_) => {
                proof {
                    lemma_lex_irreflexive(shingle@);
                    if self@.count(shingle@) > 0 {
                        let i = choose|i: int|
                            0 <= i < self.shingles@.len() && (#[trigger] self.shingles@[i])@
                                == shingle@;
                        assert(false);
                    }
                }
                0
            },
        }
    }

    /// The number of distinct shingles that `self` and `other` share.
    #[verifier::rlimit(40)]
    pub fn shared_with(&self, other: &Fingerprint) -> (r: usize)
        ensures
            r == overlap(self@, other@),
    {
        proof {
            use_type_invariant(self);
            use_type_invariant(other);
            lemma_held_is_dom(self.shingles@, self.counts@, self.source@);
        }
        let ghost t = texts(self.shingles@);
        let ghost b = other@.dom();
        let mut shared: usize = 0;
        let mut i: usize = 0;
        proof {
            assert(t.take(0).to_set() =~= Set::<Seq<char>>::empty());
            assert(t.take(0).to_set().intersect(b) =~= Set::<Seq<char>>::empty());
        }
        while i < self.shingles.len()
            invariant
                i <= self.shingles.len(),
                t == texts(self.shingles@),
                t.no_duplicates(),
                b == other@.dom(),
                b.finite(),
                stands_for(other.shingles@, other.counts@, other.source@),
                other@ == other.source@.to_multiset(),
                shared <= i,
                shared == t.take(i as int).to_set().intersect(b).len(),
                t.take(i as int).to_set().intersect(b).finite(),
            decreases self.shingles.len() - i,
        {
            let ghost x = t[i as int];
            let ghost before = t.take(i as int).to_set();
            let ghost after = t.take(i + 1).to_set();
            proof {
                assert(t.take(i + 1) =~= t.take(i as int).push(x));
                assert(after =~= before.insert(x)) by {
                    assert forall|y: Seq<char>| after.contains(y) <==> before.insert(x).contains(
                        y,
                    ) by {
                        if t.take(i + 1).contains(y) {
                            let k = choose|k: int| 0 <= k < i + 1 && #[trigger] t.take(i + 1)[k] == y;
                            if k < i {
                                assert(t.take(i as int)[k] == y);
                            }
                        }
                        if t.take(i as int).contains(y) {
                            let k = choose|k: int| 0 <= k < i && #[trigger] t.take(i as int)[k] == y;
                            assert(t.take(i + 1)[k] == y);
                        }
                        if y == x {
                            assert(t.take(i + 1)[i as int] == y);
                        }
                    }
                }
                assert(!before.contains(x)) by {
                    if t.take(i as int).contains(x) {
                        let k = choose|k: int| 0 <= k < i && #[trigger] t.take(i as int)[k] == x;
                        assert(t[k] == t[i as int]);
                    }
                }
            }
            let found = search(&other.shingles, &self.shingles[i]);
            proof {
                lemma_lex_irreflexive(x);
                if found.is_ok() {
                    let j = found.unwrap();
                    assert(other.counts@[j as int] > 0);
                    assert(b.contains(x));
                    assert(after.intersect(b) =~= before.intersect(b).insert(x));
                } else {
                    if other@.count(x) > 0 {
                        let j = choose|j: int|
                            0 <= j < other.shingles@.len() && (#[trigger] other.shingles@[j])@ == x;
                        assert(false);
                    }
                    assert(!b.contains(x));
                    assert(after.intersect(b) =~= before.intersect(b));
                }
            }
            if found.is_ok() {
                shared += 1;
            }
            i += 1;
        }
        proof {
            assert(t.take(self.shingles@.len() as int) =~= t);
        }
        shared
    }
}

} // verus!
