//! Similarity scores.
//!
//! The similarity of two fingerprints is the Dice coefficient of their sets
//! of distinct shingles: twice the number of shingles they share, over the
//! sum of the two sets' sizes. How often a shingle occurs plays no part. Two
//! empty fingerprints have similarity zero: no evidence, no match.
//!
//! Scores are exact fractions. Nothing is rounded, so that equal scores
//! compare equal and ties can be broken by rule.

use vstd::multiset::Multiset;
use vstd::prelude::*;
use vstd::set_lib::{lemma_len_intersect, lemma_set_empty_equivalency_len, lemma_subset_equality};
use crate::fingerprint::{overlap, Fingerprint};
use crate::text::{fingerprint_of, TextData};

verus! {

/// A fraction `num / den` with `den > 0`, the mathematical value of a score
/// or of a confidence floor.
pub struct Ratio {
    pub num: nat,
    pub den: nat,
}

impl Ratio {
    /// `self <= other`, as fractions.
    pub open spec fn le(self, other: Ratio) -> bool {
        self.num * other.den <= other.num * self.den
    }

    /// `self < other`, as fractions.
    pub open spec fn lt(self, other: Ratio) -> bool {
        self.num * other.den < other.num * self.den
    }

    /// `self == other`, as fractions.
    pub open spec fn same(self, other: Ratio) -> bool {
        self.num * other.den == other.num * self.den
    }

    /// The fraction is `0`.
    pub open spec fn is_zero(self) -> bool {
        self.num == 0
    }

    /// The fraction is `1`.
    pub open spec fn is_one(self) -> bool {
        self.num == self.den
    }
}

/// The order of fractions is transitive.
pub proof fn lemma_le_transitive(a: Ratio, b: Ratio, c: Ratio)
    requires
        a.den > 0,
        b.den > 0,
        c.den > 0,
        a.le(b),
        b.le(c),
    ensures
        a.le(c),
{
    let (an, ad, bn, bd, cn, cd) = (
        a.num as int,
        a.den as int,
        b.num as int,
        b.den as int,
        c.num as int,
        c.den as int,
    );
    assert(an * cd <= cn * ad) by (nonlinear_arith)
        requires
            an * bd <= bn * ad,
            bn * cd <= cn * bd,
            ad > 0,
            bd > 0,
            cd > 0,
            an >= 0,
            bn >= 0,
            cn >= 0,
    {
        assert((an * bd) * cd <= (bn * ad) * cd);
        assert((bn * cd) * ad <= (cn * bd) * ad);
        assert((an * cd) * bd == (an * bd) * cd);
        assert((bn * ad) * cd == (bn * cd) * ad);
        assert((cn * bd) * ad == (cn * ad) * bd);
        assert((an * cd) * bd <= (cn * ad) * bd);
    }
}

/// A fraction strictly below another stays strictly below everything at or
/// above that one.
pub proof fn lemma_lt_le_transitive(a: Ratio, b: Ratio, c: Ratio)
    requires
        a.den > 0,
        b.den > 0,
        c.den > 0,
        a.lt(b),
        b.le(c),
    ensures
        a.lt(c),
{
    let (an, ad, bn, bd, cn, cd) = (
        a.num as int,
        a.den as int,
        b.num as int,
        b.den as int,
        c.num as int,
        c.den as int,
    );
    assert(an * cd < cn * ad) by (nonlinear_arith)
        requires
            an * bd < bn * ad,
            bn * cd <= cn * bd,
            ad > 0,
            bd > 0,
            cd > 0,
            an >= 0,
            bn >= 0,
            cn >= 0,
    {
        assert((an * bd) * cd < (bn * ad) * cd);
        assert((bn * cd) * ad <= (cn * bd) * ad);
        assert((an * cd) * bd == (an * bd) * cd);
        assert((bn * ad) * cd == (bn * cd) * ad);
        assert((cn * bd) * ad == (cn * ad) * bd);
        assert((an * cd) * bd < (cn * ad) * bd);
    }
}

/// A fraction at or below another stays strictly below everything strictly
/// above that one.
pub proof fn lemma_le_lt_transitive(a: Ratio, b: Ratio, c: Ratio)
    requires
        a.den > 0,
        b.den > 0,
        c.den > 0,
        a.le(b),
        b.lt(c),
    ensures
        a.lt(c),
{
    let (an, ad, bn, bd, cn, cd) = (
        a.num as int,
        a.den as int,
        b.num as int,
        b.den as int,
        c.num as int,
        c.den as int,
    );
    assert(an * cd < cn * ad) by (nonlinear_arith)
        requires
            an * bd <= bn * ad,
            bn * cd < cn * bd,
            ad > 0,
            bd > 0,
            cd > 0,
            an >= 0,
            bn >= 0,
            cn >= 0,
    {
        assert((an * bd) * cd <= (bn * ad) * cd);
        assert((bn * cd) * ad < (cn * bd) * ad);
        assert((an * cd) * bd == (an * bd) * cd);
        assert((bn * ad) * cd == (bn * cd) * ad);
        assert((cn * bd) * ad == (cn * ad) * bd);
        assert((an * cd) * bd < (cn * ad) * bd);
    }
}

/// The first of the places `0..n` at which `f` is greatest: no place
/// outscores it, and every place before it scores less. It is `0` where
/// there is no place.
pub open spec fn first_best(f: spec_fn(int) -> Ratio, n: nat) -> int
    decreases n,
{
    if n <= 1 {
        0
    } else {
        let before = first_best(f, (n - 1) as nat);
        if f(before).lt(f(n - 1)) {
            n - 1
        } else {
            before
        }
    }
}

/// What `first_best` finds is one of the places; nothing outscores it, and
/// everything before it scores less.
pub proof fn lemma_first_best(f: spec_fn(int) -> Ratio, n: nat)
    requires
        n >= 1,
        forall|k: int| 0 <= k < n ==> (#[trigger] f(k)).den > 0,
    ensures
        0 <= first_best(f, n) < n,
        forall|j: int| 0 <= j < n ==> (#[trigger] f(j)).le(f(first_best(f, n))),
        forall|j: int| 0 <= j < first_best(f, n) ==> (#[trigger] f(j)).lt(f(first_best(f, n))),
    decreases n,
{
    if n > 1 {
        let m = (n - 1) as nat;
        lemma_first_best(f, m);
        let before = first_best(f, m);
        if f(before).lt(f(n - 1)) {
            assert forall|j: int| 0 <= j < n implies (#[trigger] f(j)).lt(f(n - 1)) || j == n
                - 1 by {
                if j < n - 1 {
                    lemma_le_lt_transitive(f(j), f(before), f(n - 1));
                }
            }
        }
    }
}

/// The sum of the sizes of two fingerprints' sets of distinct shingles.
pub open spec fn sizes(a: Multiset<Seq<char>>, b: Multiset<Seq<char>>) -> nat {
    a.dom().len() + b.dom().len()
}

/// The Dice coefficient of two fingerprints, taken as sets of distinct
/// shingles: `2 * |shared| / (|a| + |b|)`, and `0` where both are empty.
pub open spec fn dice(a: Multiset<Seq<char>>, b: Multiset<Seq<char>>) -> Ratio {
    Ratio {
        num: 2 * overlap(a, b),
        den: if sizes(a, b) == 0 {
            1
        } else {
            sizes(a, b)
        },
    }
}

/// The similarity of two fingerprints does not depend on their order.
pub proof fn lemma_dice_symmetric(a: Multiset<Seq<char>>, b: Multiset<Seq<char>>)
    ensures
        dice(a, b) == dice(b, a),
{
    assert(a.dom().intersect(b.dom()) =~= b.dom().intersect(a.dom()));
}

/// A similarity lies between 0 and 1: two fingerprints share no more
/// shingles than either of them has.
pub proof fn lemma_dice_bounds(a: Multiset<Seq<char>>, b: Multiset<Seq<char>>)
    ensures
        overlap(a, b) <= a.dom().len(),
        overlap(a, b) <= b.dom().len(),
        dice(a, b).den > 0,
        0 <= dice(a, b).num <= dice(a, b).den,
{
    broadcast use vstd::multiset::group_multiset_axioms;

    lemma_len_intersect(a.dom(), b.dom());
    lemma_len_intersect(b.dom(), a.dom());
    assert(a.dom().intersect(b.dom()) =~= b.dom().intersect(a.dom()));
}

/// The similarity is 1 exactly when the two fingerprints hold the same
/// shingles and hold at least one.
pub proof fn lemma_dice_one(a: Multiset<Seq<char>>, b: Multiset<Seq<char>>)
    ensures
        dice(a, b).is_one() <==> a.dom() == b.dom() && a.len() > 0,
{
    broadcast use vstd::multiset::group_multiset_axioms;

    lemma_dice_bounds(a, b);
    lemma_nonempty(a);
    lemma_nonempty(b);
    let shared = a.dom().intersect(b.dom());
    if a.dom() == b.dom() && a.len() > 0 {
        assert(shared =~= a.dom());
    }
    if dice(a, b).is_one() {
        assert(a.dom().len() + b.dom().len() > 0);
        assert(shared.len() == a.dom().len());
        assert(shared.len() == b.dom().len());
        lemma_subset_equality(shared, a.dom());
        lemma_subset_equality(shared, b.dom());
        assert(a.dom() =~= b.dom());
    }
}

/// The similarity is 0 exactly when the two fingerprints share no shingle.
pub proof fn lemma_dice_zero(a: Multiset<Seq<char>>, b: Multiset<Seq<char>>)
    ensures
        dice(a, b).is_zero() <==> a.dom().disjoint(b.dom()),
{
    broadcast use vstd::multiset::group_multiset_axioms;

    let shared = a.dom().intersect(b.dom());
    if a.dom().disjoint(b.dom()) {
        assert(shared =~= Set::<Seq<char>>::empty());
    }
    if dice(a, b).is_zero() {
        shared.lemma_len0_is_empty();
        assert forall|x: Seq<char>| !(a.dom().contains(x) && b.dom().contains(x)) by {
            if a.dom().contains(x) && b.dom().contains(x) {
                assert(shared.contains(x));
            }
        }
    }
}

/// A fingerprint that is not empty has similarity 1 to itself; two empty
/// fingerprints have similarity 0, and so has an empty one to any other.
pub proof fn lemma_dice_self_and_empty(a: Multiset<Seq<char>>, b: Multiset<Seq<char>>)
    ensures
        a.len() > 0 ==> dice(a, a).is_one(),
        a.len() == 0 ==> dice(a, b).is_zero() && dice(b, a).is_zero(),
{
    lemma_dice_one(a, a);
    lemma_dice_zero(a, b);
    lemma_dice_zero(b, a);
    lemma_nonempty(a);
    if a.len() == 0 {
        a.dom().lemma_len0_is_empty();
    }
}

/// A fingerprint holds a shingle exactly when its set of distinct shingles
/// is not empty.
pub proof fn lemma_nonempty(a: Multiset<Seq<char>>)
    ensures
        a.len() > 0 <==> a.dom().len() > 0,
{
    broadcast use vstd::multiset::group_multiset_axioms;

    if a.len() > 0 {
        let x = a.choose();
        assert(a.dom().contains(x));
        if a.dom().len() == 0 {
            a.dom().lemma_len0_is_empty();
        }
    }
    if a.dom().len() > 0 {
        lemma_set_empty_equivalency_len(a.dom());
        let x = choose|x: Seq<char>| a.dom().contains(x);
        assert(a.count(x) > 0);
        if a.len() == 0 {
            assert(a =~= Multiset::<Seq<char>>::empty());
        }
    }
}

/// A similarity score: how many distinct shingles two fingerprints share,
/// and how many each of them has.
#[derive(Clone, Copy, Debug)]
pub struct Score {
    shared: usize,
    left: usize,
    right: usize,
}

impl View for Score {
    type V = Ratio;

    closed spec fn view(&self) -> Ratio {
        Ratio {
            num: 2 * (self.shared as nat),
            den: if self.left + self.right == 0 {
                1
            } else {
                (self.left + self.right) as nat
            },
        }
    }
}

impl Score {
    #[verifier::type_invariant]
    spec fn well_formed(self) -> bool {
        self.shared <= self.left && self.shared <= self.right
    }

    /// The score 0.
    pub fn zero() -> (r: Score)
        ensures
            r@ == (Ratio { num: 0, den: 1 }),
    {
        Score { shared: 0, left: 0, right: 0 }
    }

    /// The numerator of the score as a fraction.
    pub fn num(&self) -> (r: u128)
        ensures
            r == self@.num,
    {
        2 * (self.shared as u128)
    }

    /// The denominator of the score as a fraction; never 0.
    pub fn den(&self) -> (r: u128)
        ensures
            r == self@.den,
            r > 0,
    {
        let total: u128 = self.left as u128 + self.right as u128;
        if total == 0 {
            1
        } else {
            total
        }
    }

    /// Whether the score is 0.
    pub fn is_zero(&self) -> (r: bool)
        ensures
            r == self@.is_zero(),
    {
        self.shared == 0
    }

    /// Whether the score is 1.
    pub fn is_one(&self) -> (r: bool)
        ensures
            r == self@.is_one(),
    {
        proof {
            use_type_invariant(self);
        }
        self.shared > 0 && self.shared == self.left && self.shared == self.right
    }

    /// Whether the score is at most `other`.
    pub fn le(&self, other: &Score) -> (r: bool)
        ensures
            r == self@.le(other@),
    {
        proof {
            use_type_invariant(self);
            use_type_invariant(other);
        }
        if self.shared == 0 {
            proof {
                assert(self@.num * other@.den == 0) by (nonlinear_arith)
                    requires
                        self@.num == 0,
                ;
            }
            return true;
        }
        if other.shared == 0 {
            proof {
                let n = self@.num;
                let d = other@.den;
                assert(n * d > 0) by (nonlinear_arith)
                    requires
                        n > 0,
                        d > 0,
                ;
                assert(other@.num * self@.den == 0) by (nonlinear_arith)
                    requires
                        other@.num == 0,
                ;
            }
            return false;
        }
        let s1: u128 = self.shared as u128;
        let s2: u128 = other.shared as u128;
        let (l1, r1, l2, r2) = (
            self.left as u128,
            self.right as u128,
            other.left as u128,
            other.right as u128,
        );
        proof {
            lemma_product_fits(s1, l2);
            lemma_product_fits(s1, r2);
            lemma_product_fits(s2, l1);
            lemma_product_fits(s2, r1);
            assert((2 * s1) * (l2 + r2) == 2 * (s1 * l2 + s1 * r2)) by (nonlinear_arith);
            assert((2 * s2) * (l1 + r1) == 2 * (s2 * l1 + s2 * r1)) by (nonlinear_arith);
        }
        let x1: u128 = s1 * l2;
        let y1: u128 = s1 * r2;
        let x2: u128 = s2 * l1;
        let y2: u128 = s2 * r1;
        if x1 <= x2 {
            if y1 <= y2 {
                true
            } else {
                y1 - y2 <= x2 - x1
            }
        } else {
            if y1 <= y2 {
                x1 - x2 <= y2 - y1
            } else {
                false
            }
        }
    }

    /// Whether the score reaches the floor.
    pub fn meets(&self, floor: &Threshold) -> (r: bool)
        ensures
            r == floor@.le(self@),
    {
        proof {
            use_type_invariant(self);
            use_type_invariant(floor);
        }
        let n: u128 = self.num();
        let d: u128 = self.den();
        let fnum: u128 = floor.num as u128;
        let fden: u128 = floor.den as u128;
        proof {
            assert(fnum * d <= 0xffff_ffff * 0x2_0000_0000_0000_0000) by (nonlinear_arith)
                requires
                    fnum <= 0xffff_ffff,
                    d <= 0x2_0000_0000_0000_0000,
            ;
            assert(n * fden <= 0x2_0000_0000_0000_0000 * 0xffff_ffff) by (nonlinear_arith)
                requires
                    fden <= 0xffff_ffff,
                    n <= 0x2_0000_0000_0000_0000,
            ;
        }
        fnum * d <= n * fden
    }
}

/// The product of two machine-size numbers fits in 128 bits.
proof fn lemma_product_fits(a: u128, b: u128)
    requires
        a <= usize::MAX,
        b <= usize::MAX,
    ensures
        a * b <= u128::MAX,
{
    assert(a * b <= 0xffff_ffff_ffff_ffff * 0xffff_ffff_ffff_ffff) by (nonlinear_arith)
        requires
            a <= 0xffff_ffff_ffff_ffff,
            b <= 0xffff_ffff_ffff_ffff,
    ;
}

/// A confidence floor: the least score at which a match is reported. It is a
/// fraction between 0 and 1.
#[derive(Clone, Copy, Debug)]
pub struct Threshold {
    num: u32,
    den: u32,
}

impl View for Threshold {
    type V = Ratio;

    closed spec fn view(&self) -> Ratio {
        Ratio { num: self.num as nat, den: self.den as nat }
    }
}

impl Threshold {
    /// A floor lies between 0 and 1.
    #[verifier::type_invariant]
    pub open spec fn between(self) -> bool {
        0 < self@.den && self@.num <= self@.den
    }

    /// The floor `num / den`, where that is a fraction between 0 and 1.
    pub fn new(num: u32, den: u32) -> (r: Option<Threshold>)
        ensures
            r is Some <==> 0 < den && num <= den,
            r is Some ==> r->0@ == (Ratio { num: num as nat, den: den as nat }),
    {
        if 0 < den && num <= den {
            Some(Threshold { num, den })
        } else {
            None
        }
    }

    /// The floor that a store starts with: four fifths.
    pub fn standard() -> (r: Threshold)
        ensures
            r@ == (Ratio { num: 4, den: 5 }),
    {
        Threshold { num: 4, den: 5 }
    }

    /// The numerator of the floor.
    pub fn num(&self) -> (r: u32)
        ensures
            r == self@.num,
    {
        self.num
    }

    /// The denominator of the floor; never 0.
    pub fn den(&self) -> (r: u32)
        ensures
            r == self@.den,
            r > 0,
    {
        proof {
            use_type_invariant(self);
        }
        self.den
    }
}

/// The similarity of two fingerprints.
pub fn score(a: &Fingerprint, b: &Fingerprint) -> (r: Score)
    ensures
        r@ == dice(a@, b@),
{
    proof {
        lemma_dice_bounds(a@, b@);
    }
    Score { shared: a.shared_with(b), left: a.len(), right: b.len() }
}

/// The similarity of two raw texts: that of their fingerprints.
pub open spec fn similarity(a: Seq<char>, b: Seq<char>) -> Ratio {
    dice(fingerprint_of(a), fingerprint_of(b))
}

/// The similarity of two texts does not depend on their order.
pub proof fn lemma_similarity_symmetric(a: Seq<char>, b: Seq<char>)
    ensures
        similarity(a, b) == similarity(b, a),
{
    lemma_dice_symmetric(fingerprint_of(a), fingerprint_of(b));
}

/// The similarity of two texts.
pub fn similar(a: &TextData, b: &TextData) -> (r: Score)
    ensures
        r@ == similarity(a@, b@),
{
    score(a.fingerprint(), b.fingerprint())
}

} // verus!
