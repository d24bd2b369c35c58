//! The windowed optimizer: finds the lines of a text that best match a
//! reference.
//!
//! A license is often only a part of a text: a header above source code, a
//! section of a longer document. The whole text then scores low against the
//! license. The optimizer looks for the stretch of lines that scores best.
//!
//! It first slides a window as long as the reference over the text, one line
//! at a time, and keeps the first start that no other start outscores. Then
//! it moves the end of the window at that start, up to `REFINE_STEPS` lines
//! either way, and keeps the window as it is unless another end scores more;
//! of the ends that score most it takes the nearest. The number of windows
//! scored grows with the length of the text, not with its square. This finds
//! a good stretch, and not always the best of all stretches.

use vstd::prelude::*;
use crate::fingerprint::{shingle_bag, Fingerprint};
use crate::score::{
    dice, first_best, lemma_dice_bounds, score, similar, similarity, Ratio, Score, Threshold,
};
use crate::text::{
    fingerprint_of, lemma_tokens_window, normalized_lines, texts, tokenize, tokens, LineRange,
    TextData,
};

verus! {

/// A text with fewer lines than this is compared as a whole.
pub const MIN_WINDOW_LINES: usize = 3;

/// How far the end of the window is moved, in lines, either way.
pub const REFINE_STEPS: usize = 5;

/// The score that the lines `lo..hi` of the text `q` reach against the
/// reference `r`.
pub open spec fn window_score(q: Seq<char>, r: Seq<char>, lo: int, hi: int) -> Ratio {
    dice(shingle_bag(tokens(normalized_lines(q).subrange(lo, hi))), fingerprint_of(r))
}

/// Whether a window is slid over `q` at all: `q` has lines enough, and the
/// reference `r` is no longer than `q`.
pub open spec fn windowed(q: Seq<char>, r: Seq<char>) -> bool {
    MIN_WINDOW_LINES <= normalized_lines(q).len() && normalized_lines(r).len() <= normalized_lines(
        q,
    ).len()
}

/// The score of the window that starts at `s` and is as long as the
/// reference.
pub open spec fn start_score(q: Seq<char>, r: Seq<char>, s: int) -> Ratio {
    window_score(q, r, s, s + normalized_lines(r).len())
}

/// The start of the window: of the starts at which a window as long as the
/// reference fits, the first that none outscores.
pub open spec fn coarse_start(q: Seq<char>, r: Seq<char>) -> int {
    first_best(
        |s: int| start_score(q, r, s),
        (normalized_lines(q).len() - normalized_lines(r).len() + 1) as nat,
    )
}

/// The end that is tried in the step `d` for the window that starts at `s`.
/// Step 0 tries the end of the window as long as the reference. The steps
/// after it try the ends one line before it, one line after it, two lines
/// before it, two lines after it, and so on. An end that would leave the
/// window empty or reach beyond the text is not tried: the step tries the
/// end of step 0 again.
pub open spec fn end_at(q: Seq<char>, r: Seq<char>, s: int, d: int) -> int {
    let own = s + normalized_lines(r).len();
    let e = if d % 2 == 1 {
        own - (d + 1) / 2
    } else {
        own + d / 2
    };
    if s < e <= normalized_lines(q).len() {
        e
    } else {
        own
    }
}

/// The score of the window that starts at `s` and ends where the step `d`
/// tries.
pub open spec fn end_score(q: Seq<char>, r: Seq<char>, s: int, d: int) -> Ratio {
    window_score(q, r, s, end_at(q, r, s, d))
}

/// The step whose end is taken for the window that starts at `s`: the first
/// that none outscores.
pub open spec fn refined_step(q: Seq<char>, r: Seq<char>, s: int) -> int {
    first_best(|d: int| end_score(q, r, s, d), (2 * REFINE_STEPS + 1) as nat)
}

/// The end of the window that starts at `s`: of the ends that are tried, the
/// first that none outscores. So the window keeps the length of the
/// reference unless an end near by scores more, and of two ends that score
/// the same the nearer one is taken.
pub open spec fn refined_end(q: Seq<char>, r: Seq<char>, s: int) -> int {
    end_at(q, r, s, refined_step(q, r, s))
}

/// The outcome of the optimizer, as plain values: a score, and the first and
/// last line of the range it was reached on.
pub struct Located {
    pub score: Ratio,
    pub first: int,
    pub last: int,
}

/// The whole text `q` with its score against `r`.
pub open spec fn whole(q: Seq<char>, r: Seq<char>) -> Located {
    Located { score: similarity(q, r), first: 0, last: normalized_lines(q).len() - 1 }
}

/// What the optimizer finds for the text `q` and the reference `r`: the
/// window and its score, where a window is slid and the window found reaches
/// the floor; the whole text and its score otherwise.
pub open spec fn located(q: Seq<char>, r: Seq<char>, floor: Ratio) -> Located {
    if windowed(q, r) {
        let s = coarse_start(q, r);
        let e = refined_end(q, r, s);
        if floor.le(window_score(q, r, s, e)) {
            Located { score: window_score(q, r, s, e), first: s, last: e - 1 }
        } else {
            whole(q, r)
        }
    } else {
        whole(q, r)
    }
}

/// A window score is a fraction with a denominator above 0.
pub proof fn lemma_window_score_bounds(q: Seq<char>, r: Seq<char>, lo: int, hi: int)
    ensures
        window_score(q, r, lo, hi).den > 0,
        window_score(q, r, lo, hi).num <= window_score(q, r, lo, hi).den,
{
    lemma_dice_bounds(
        shingle_bag(tokens(normalized_lines(q).subrange(lo, hi))),
        fingerprint_of(r),
    );
}

/// The range that the optimizer finds lies within the lines of the text, and
/// where the reference has more lines than the text, the optimizer falls
/// back to the whole text and its score.
pub proof fn lemma_located_bounds(q: Seq<char>, r: Seq<char>, floor: Ratio)
    ensures
        0 <= located(q, r, floor).first <= located(q, r, floor).last < normalized_lines(q).len(),
        normalized_lines(r).len() > normalized_lines(q).len() ==> located(q, r, floor) == whole(
            q,
            r,
        ),
{
    crate::text::lemma_split_lines_nonempty(q);
    crate::text::lemma_split_lines_nonempty(r);
    if windowed(q, r) {
        lemma_window_found(q, r);
    }
}

/// Where a window is slid, the start found is one at which a window as long
/// as the reference fits, and the end found lies after the start and within
/// the text. No start at which such a window fits outscores the start found,
/// and every start before it scores less. No end that is tried outscores the
/// end found, and every end tried in an earlier step scores less.
pub proof fn lemma_window_found(q: Seq<char>, r: Seq<char>)
    requires
        windowed(q, r),
    ensures
        0 <= coarse_start(q, r) <= normalized_lines(q).len() - normalized_lines(r).len(),
        coarse_start(q, r) < refined_end(q, r, coarse_start(q, r)) <= normalized_lines(q).len(),
        forall|t: int|
            0 <= t <= normalized_lines(q).len() - normalized_lines(r).len() ==> (
            #[trigger] start_score(q, r, t)).le(start_score(q, r, coarse_start(q, r))),
        forall|t: int|
            0 <= t < coarse_start(q, r) ==> (#[trigger] start_score(q, r, t)).lt(
                start_score(q, r, coarse_start(q, r)),
            ),
        0 <= refined_step(q, r, coarse_start(q, r)) <= 2 * REFINE_STEPS,
        forall|d: int|
            0 <= d <= 2 * REFINE_STEPS ==> (#[trigger] end_score(q, r, coarse_start(q, r), d)).le(
                end_score(q, r, coarse_start(q, r), refined_step(q, r, coarse_start(q, r))),
            ),
        forall|d: int|
            0 <= d < refined_step(q, r, coarse_start(q, r)) ==> (#[trigger] end_score(
                q,
                r,
                coarse_start(q, r),
                d,
            )).lt(end_score(q, r, coarse_start(q, r), refined_step(q, r, coarse_start(q, r)))),
{
    crate::text::lemma_split_lines_nonempty(r);
    let n = normalized_lines(q).len();
    let w = normalized_lines(r).len();
    let f = |s: int| start_score(q, r, s);
    assert forall|k: int| 0 <= k < n - w + 1 implies (#[trigger] f(k)).den > 0 by {
        lemma_window_score_bounds(q, r, k, k + w);
    }
    crate::score::lemma_first_best(f, (n - w + 1) as nat);
    let s = coarse_start(q, r);
    assert forall|t: int| 0 <= t <= n - w implies (#[trigger] start_score(q, r, t)).le(
        start_score(q, r, s),
    ) by {
        assert(f(t).le(f(s)));
    }
    assert forall|t: int| 0 <= t < s implies (#[trigger] start_score(q, r, t)).lt(
        start_score(q, r, s),
    ) by {
        assert(f(t).lt(f(s)));
    }
    let g = |d: int| end_score(q, r, s, d);
    assert forall|k: int| 0 <= k < 2 * REFINE_STEPS + 1 implies (#[trigger] g(k)).den > 0 by {
        lemma_window_score_bounds(q, r, s, end_at(q, r, s, k));
    }
    crate::score::lemma_first_best(g, (2 * REFINE_STEPS + 1) as nat);
    let best = refined_step(q, r, s);
    assert forall|d: int| 0 <= d <= 2 * REFINE_STEPS implies (#[trigger] end_score(q, r, s, d)).le(
        end_score(q, r, s, best),
    ) by {
        assert(g(d).le(g(best)));
    }
    assert forall|d: int| 0 <= d < best implies (#[trigger] end_score(q, r, s, d)).lt(
        end_score(q, r, s, best),
    ) by {
        assert(g(d).lt(g(best)));
    }
}

/// The score of the lines `lo..hi` against `reference`, from the token
/// stream of all lines and the places where each line's tokens begin.
fn window(
    toks: &Vec<Vec<char>>,
    starts: &Vec<usize>,
    lo: usize,
    hi: usize,
    reference: &TextData,
    Ghost(lines): Ghost<Seq<Seq<char>>>,
) -> (r: Score)
    requires
        lo <= hi <= lines.len(),
        texts(toks@) == tokens(lines),
        starts@.len() == lines.len() + 1,
        forall|i: int| 0 <= i <= lines.len() ==> #[trigger] starts@[i] == tokens(lines.take(i)).len(),
    ensures
        r@ == dice(shingle_bag(tokens(lines.subrange(lo as int, hi as int))), fingerprint_of(reference@)),
{
    proof {
        lemma_tokens_window(lines, lo as int, hi as int);
        assert(texts(toks@).len() == toks@.len());
    }
    let from: usize = starts[lo];
    let to: usize = starts[hi];
    let part = Fingerprint::of_tokens(toks, from, to);
    score(&part, reference.fingerprint())
}

/// Finds the range of lines of `query` that best matches `reference`, and
/// its score.
///
/// Where `query` has fewer lines than `MIN_WINDOW_LINES`, or fewer lines
/// than `reference`, or where the window found does not reach `floor`, the
/// result is the whole text with its score.
#[verifier::rlimit(40)]
pub fn optimize(query: &TextData, reference: &TextData, floor: &Threshold) -> (r: (
    Score,
    LineRange,
))
    ensures
        r.0@ == located(query@, reference@, floor@).score,
        r.1.first == located(query@, reference@, floor@).first,
        r.1.last == located(query@, reference@, floor@).last,
        r.1.first <= r.1.last < normalized_lines(query@).len(),
{
    let lines = query.lines();
    let reference_lines = reference.lines();
    let n: usize = lines.len();
    let w: usize = reference_lines.len();
    let ghost q = query@;
    let ghost rf = reference@;
    let ghost ls = normalized_lines(q);
    proof {
        assert(texts(lines@).len() == lines@.len());
        assert(texts(reference_lines@).len() == reference_lines@.len());
        lemma_located_bounds(q, rf, floor@);
    }
    let all = (similar(query, reference), LineRange { first: 0, last: n - 1 });
    if n < MIN_WINDOW_LINES || w > n {
        return all;
    }
    let (toks, starts) = tokenize(lines);
    // The start: the first window as long as the reference that none outscores.
    let ghost f = |s: int| start_score(q, rf, s);
    let mut start: usize = 0;
    let mut top = window(&toks, &starts, 0, w, reference, Ghost(ls));
    let mut s: usize = 1;
    while s <= n - w
        invariant
            1 <= s <= n - w + 1,
            1 <= w <= n,
            n == ls.len(),
            ls == normalized_lines(q),
            rf == reference@,
            texts(toks@) == tokens(ls),
            starts@.len() == ls.len() + 1,
            forall|i: int| 0 <= i <= ls.len() ==> #[trigger] starts@[i] == tokens(ls.take(i)).len(),
            w == normalized_lines(rf).len(),
            forall|k: int| #[trigger] f(k) == window_score(q, rf, k, k + w),
            start == first_best(f, s as nat),
            0 <= start < s,
            top@ == f(start as int),
        decreases n - w + 1 - s,
    {
        let here = window(&toks, &starts, s, s + w, reference, Ghost(ls));
        if !here.le(&top) {
            top = here;
            start = s;
        }
        s += 1;
    }
    proof {
        lemma_window_found(q, rf);
        assert(start == coarse_start(q, rf));
    }
    // The end: the first of the ends near the window's own that none outscores.
    let own: usize = start + w;
    let ghost g = |d: int| end_score(q, rf, start as int, d);
    let mut end: usize = own;
    let mut best = top;
    let ghost mut at: int = 0;
    let mut d: usize = 1;
    proof {
        lemma_window_score_bounds(q, rf, start as int, own as int);
    }
    while d <= 2 * REFINE_STEPS
        invariant
            1 <= d <= 2 * REFINE_STEPS + 1,
            1 <= w,
            start + w == own <= n,
            start < end <= n,
            n == ls.len(),
            w == normalized_lines(rf).len(),
            ls == normalized_lines(q),
            rf == reference@,
            texts(toks@) == tokens(ls),
            starts@.len() == ls.len() + 1,
            forall|i: int| 0 <= i <= ls.len() ==> #[trigger] starts@[i] == tokens(ls.take(i)).len(),
            forall|k: int| #[trigger]
                g(k) == window_score(q, rf, start as int, end_at(q, rf, start as int, k)),
            at == first_best(g, d as nat),
            0 <= at < d,
            end == end_at(q, rf, start as int, at),
            best@ == g(at),
            g(0).le(best@),
            g(0).den > 0,
            best@.den > 0,
        decreases 2 * REFINE_STEPS + 1 - d,
    {
        let step: usize = (d + 1) / 2;
        let tried: Option<usize> = if d % 2 == 1 {
            if step < w {
                Some(own - step)
            } else {
                None
            }
        } else {
            if n - own >= step {
                Some(own + step)
            } else {
                None
            }
        };
        proof {
            assert(end_at(q, rf, start as int, d as int) == match tried {
                Some(e) => e as int,
                None => own as int,
            });
        }
        match tried {
            Some(e) => {
                let here = window(&toks, &starts, start, e, reference, Ghost(ls));
                proof {
                    lemma_window_score_bounds(q, rf, start as int, e as int);
                }
                if !here.le(&best) {
                    proof {
                        crate::score::lemma_le_lt_transitive(g(0), best@, here@);
                        at = d as int;
                    }
                    best = here;
                    end = e;
                }
            },
            None => {
                proof {
                    assert(g(d as int) == g(0));
                }
            },
        }
        d += 1;
    }
    proof {
        assert(end == refined_end(q, rf, start as int));
    }
    if best.meets(floor) {
        (best, LineRange { first: start, last: end - 1 })
    } else {
        all
    }
}

} // verus!
