//! The line differ: explains how a text deviates from a reference, line by
//! line.
//!
//! The comparison itself is the work of the `difference` crate. What it
//! answers is taken apart into lines and replayed against both texts. An
//! answer that does not give back both texts is not passed on: the diff is
//! then the plain rewrite, every reference line removed and every other line
//! added. Whatever the crate answers, the records returned give the reference
//! when the added lines are left out, and the other text when the removed
//! lines are.

use vstd::prelude::*;
use crate::text::{copy_text, lines_of, normalized_lines, same_text, split_lines, texts, TextData};

verus! {

/// How a line of a diff stands to the two texts.
#[derive(Clone, Copy, Debug, PartialEq, Eq, Structural)]
pub enum DiffKind {
    /// The line is in both texts.
    Same,
    /// The line is in the compared text only.
    Added,
    /// The line is in the reference only.
    Removed,
}

/// One line of a diff.
#[derive(Debug)]
pub struct DiffRecord {
    pub line: Vec<char>,
    pub kind: DiffKind,
}

/// One line of a diff, as plain values.
pub struct RecordView {
    pub line: Seq<char>,
    pub kind: DiffKind,
}

impl View for DiffRecord {
    type V = RecordView;

    open spec fn view(&self) -> RecordView {
        RecordView { line: self.line@, kind: self.kind }
    }
}

/// A piece of a changeset: one or more lines, separated by line feeds, that
/// stand to the two texts in the same way.
#[derive(Debug)]
pub struct Chunk {
    pub text: Vec<char>,
    pub kind: DiffKind,
}

impl View for Chunk {
    type V = RecordView;

    open spec fn view(&self) -> RecordView {
        RecordView { line: self.text@, kind: self.kind }
    }
}

/// What a vector of records holds.
pub open spec fn record_views(v: Seq<DiffRecord>) -> Seq<RecordView> {
    Seq::new(v.len(), |i: int| v[i]@)
}

/// What a vector of chunks holds.
pub open spec fn chunk_views(v: Seq<Chunk>) -> Seq<RecordView> {
    Seq::new(v.len(), |i: int| v[i]@)
}

/// Lines joined by line feeds.
pub open spec fn join_lines(ls: Seq<Seq<char>>) -> Seq<char>
    decreases ls.len(),
{
    if ls.len() == 0 {
        Seq::<char>::empty()
    } else if ls.len() == 1 {
        ls[0]
    } else {
        join_lines(ls.drop_last()).push('\n') + ls.last()
    }
}

/// Every line marked as `kind`.
pub open spec fn marked(ls: Seq<Seq<char>>, kind: DiffKind) -> Seq<RecordView> {
    Seq::new(ls.len(), |i: int| RecordView { line: ls[i], kind })
}

/// The records of a changeset: each chunk taken apart into its lines.
pub open spec fn expand(chunks: Seq<RecordView>) -> Seq<RecordView>
    decreases chunks.len(),
{
    if chunks.len() == 0 {
        Seq::<RecordView>::empty()
    } else {
        expand(chunks.drop_last()) + marked(split_lines(chunks.last().line), chunks.last().kind)
    }
}

/// The reference as a diff gives it: the lines that are not added.
pub open spec fn old_side(rs: Seq<RecordView>) -> Seq<Seq<char>>
    decreases rs.len(),
{
    if rs.len() == 0 {
        Seq::<Seq<char>>::empty()
    } else if rs.last().kind != DiffKind::Added {
        old_side(rs.drop_last()).push(rs.last().line)
    } else {
        old_side(rs.drop_last())
    }
}

/// The compared text as a diff gives it: the lines that are not removed.
pub open spec fn new_side(rs: Seq<RecordView>) -> Seq<Seq<char>>
    decreases rs.len(),
{
    if rs.len() == 0 {
        Seq::<Seq<char>>::empty()
    } else if rs.last().kind != DiffKind::Removed {
        new_side(rs.drop_last()).push(rs.last().line)
    } else {
        new_side(rs.drop_last())
    }
}

/// A diff replays two texts: it gives the first when the added lines are
/// left out, and the second when the removed lines are.
pub open spec fn replays(rs: Seq<RecordView>, a: Seq<Seq<char>>, b: Seq<Seq<char>>) -> bool {
    old_side(rs) == a && new_side(rs) == b
}

/// The plain rewrite of `a` into `b`: every line of `a` removed, then every
/// line of `b` added.
pub open spec fn rewrite(a: Seq<Seq<char>>, b: Seq<Seq<char>>) -> Seq<RecordView> {
    marked(a, DiffKind::Removed) + marked(b, DiffKind::Added)
}

/// The changeset that the `difference` crate computes for the texts `orig` and
/// `edit`, split at `split`.
pub uninterp spec fn changeset_of(orig: Seq<char>, edit: Seq<char>, split: Seq<char>) -> Seq<
    RecordView,
>;

/// Whether two texts are small enough for the `difference` crate, which makes
/// a table with an entry for every pair of their pieces.
pub open spec fn fits(orig: Seq<char>, edit: Seq<char>) -> bool {
    (orig.len() + 1) * (edit.len() + 1) <= usize::MAX / 16
}

/// What the `difference` crate answers for the lines `a` and `b`, as records.
pub open spec fn answer(a: Seq<Seq<char>>, b: Seq<Seq<char>>) -> Seq<RecordView> {
    expand(changeset_of(join_lines(a), join_lines(b), seq!['\n']))
}

/// The records for a changeset that was computed for the lines `a` and `b`:
/// those of the changeset where they replay `a` and `b`, the plain rewrite
/// otherwise.
pub open spec fn settled(chunks: Seq<RecordView>, a: Seq<Seq<char>>, b: Seq<Seq<char>>) -> Seq<
    RecordView,
> {
    if replays(expand(chunks), a, b) {
        expand(chunks)
    } else {
        rewrite(a, b)
    }
}

/// The diff of the lines `a` and `b`. Equal texts have every line the same.
/// Otherwise the diff is what the `difference` crate answers, where the texts
/// are small enough for it and its answer replays them, and the plain rewrite
/// where not.
pub open spec fn explained(a: Seq<Seq<char>>, b: Seq<Seq<char>>) -> Seq<RecordView> {
    if a == b {
        marked(a, DiffKind::Same)
    } else if fits(join_lines(a), join_lines(b)) {
        settled(changeset_of(join_lines(a), join_lines(b), seq!['\n']), a, b)
    } else {
        rewrite(a, b)
    }
}

/// The sides of two diffs put one after the other are their sides put one
/// after the other.
pub proof fn lemma_sides_concat(x: Seq<RecordView>, y: Seq<RecordView>)
    ensures
        old_side(x + y) == old_side(x) + old_side(y),
        new_side(x + y) == new_side(x) + new_side(y),
    decreases y.len(),
{
    if y.len() == 0 {
        assert(x + y =~= x);
        assert(old_side(x) + old_side(y) =~= old_side(x));
        assert(new_side(x) + new_side(y) =~= new_side(x));
    } else {
        lemma_sides_concat(x, y.drop_last());
        assert((x + y).drop_last() =~= x + y.drop_last());
        assert((x + y).last() == y.last());
        assert(old_side(x + y) =~= old_side(x) + old_side(y));
        assert(new_side(x + y) =~= new_side(x) + new_side(y));
    }
}

/// Lines marked as the same are on both sides, removed lines on the old side
/// only, added lines on the new side only.
pub proof fn lemma_sides_marked(ls: Seq<Seq<char>>, kind: DiffKind)
    ensures
        old_side(marked(ls, kind)) == if kind != DiffKind::Added {
            ls
        } else {
            Seq::empty()
        },
        new_side(marked(ls, kind)) == if kind != DiffKind::Removed {
            ls
        } else {
            Seq::empty()
        },
    decreases ls.len(),
{
    if ls.len() > 0 {
        lemma_sides_marked(ls.drop_last(), kind);
        assert(marked(ls, kind).drop_last() =~= marked(ls.drop_last(), kind));
        assert(ls =~= ls.drop_last().push(ls.last()));
    }
    assert(old_side(marked(ls, kind)) =~= if kind != DiffKind::Added {
        ls
    } else {
        Seq::empty()
    });
    assert(new_side(marked(ls, kind)) =~= if kind != DiffKind::Removed {
        ls
    } else {
        Seq::empty()
    });
}

/// Every diff that this module makes replays the two texts it was made for.
pub proof fn lemma_explained_replays(a: Seq<Seq<char>>, b: Seq<Seq<char>>)
    ensures
        replays(explained(a, b), a, b),
{
    lemma_sides_marked(a, DiffKind::Same);
    lemma_rewrite_replays(a, b);
}

/// The plain rewrite replays its two texts.
pub proof fn lemma_rewrite_replays(a: Seq<Seq<char>>, b: Seq<Seq<char>>)
    ensures
        replays(rewrite(a, b), a, b),
{
    lemma_sides_concat(marked(a, DiffKind::Removed), marked(b, DiffKind::Added));
    lemma_sides_marked(a, DiffKind::Removed);
    lemma_sides_marked(b, DiffKind::Added);
    assert(a + Seq::<Seq<char>>::empty() =~= a);
    assert(Seq::<Seq<char>>::empty() + b =~= b);
}

/// Calls `difference::Changeset::new` on the two texts with `split` as the
/// separator and hands back its `diffs`, each with its kind and text. The
/// contract gives that answer a name and says nothing more of it. The texts
/// must be small enough for the table that the crate allocates.
#[verifier::external_body]
fn changeset(orig: &Vec<char>, edit: &Vec<char>, split: char) -> (r: Vec<Chunk>)
    requires
        fits(orig@, edit@),
    ensures
        chunk_views(r@) == changeset_of(orig@, edit@, seq![split]),
{
    let (a, b): (String, String) = (orig.iter().collect(), edit.iter().collect());
    let made = difference::Changeset::new(&a, &b, &split.to_string());
    made.diffs.into_iter().map(|d| match d {
        difference::Difference::Same(t) => Chunk { text: t.chars().collect(), kind: DiffKind::Same },
        difference::Difference::Add(t) => Chunk { text: t.chars().collect(), kind: DiffKind::Added },
        difference::Difference::Rem(t) => Chunk { text: t.chars().collect(), kind: DiffKind::Removed },
    }).collect()
}

/// Joins lines by line feeds.
pub fn joined(lines: &[Vec<char>]) -> (r: Vec<char>)
    ensures
        r@ == join_lines(texts(lines@)),
{
    let mut out: Vec<char> = Vec::new();
    let mut i: usize = 0;
    proof {
        assert(texts(lines@).take(0) =~= Seq::<Seq<char>>::empty());
    }
    while i < lines.len()
        invariant
            i <= lines.len(),
            out@ == join_lines(texts(lines@).take(i as int)),
        decreases lines.len() - i,
    {
        let ghost part = texts(lines@).take(i + 1);
        proof {
            assert(part.drop_last() =~= texts(lines@).take(i as int));
            assert(part.last() == lines@[i as int]@);
        }
        if i > 0 {
            out.push('\n');
        }
        let line = &lines[i];
        let ghost head = out@;
        let mut k: usize = 0;
        while k < line.len()
            invariant
                k <= line.len(),
                out@ == head + line@.take(k as int),
            decreases line.len() - k,
        {
            out.push(line[k]);
            proof {
                assert(line@.take(k + 1) =~= line@.take(k as int).push(line@[k as int]));
                assert(head + line@.take(k + 1) =~= (head + line@.take(k as int)).push(
                    line@[k as int],
                ));
            }
            k += 1;
        }
        proof {
            assert(line@ =~= line@.take(line.len() as int));
            if i == 0 {
                assert(head =~= Seq::<char>::empty());
                assert(out@ =~= line@);
            }
        }
        i += 1;
    }
    proof {
        assert(texts(lines@).take(lines.len() as int) =~= texts(lines@));
    }
    out
}

/// Whether two sequences of lines are equal.
pub fn same_lines(a: &[Vec<char>], b: &[Vec<char>]) -> (r: bool)
    ensures
        r == (texts(a@) == texts(b@)),
{
    if a.len() != b.len() {
        proof {
            assert(texts(a@).len() != texts(b@).len());
        }
        return false;
    }
    let mut i: usize = 0;
    while i < a.len()
        invariant
            a.len() == b.len(),
            i <= a.len(),
            forall|k: int| 0 <= k < i ==> (#[trigger] a@[k])@ == b@[k]@,
        decreases a.len() - i,
    {
        if !same_text(&a[i], &b[i]) {
            proof {
                assert(texts(a@)[i as int] != texts(b@)[i as int]);
            }
            return false;
        }
        i += 1;
    }
    proof {
        assert(texts(a@) =~= texts(b@));
    }
    true
}

/// Appends every line of `lines`, marked as `kind`, to `out`.
pub fn mark(lines: &[Vec<char>], kind: DiffKind, out: &mut Vec<DiffRecord>)
    ensures
        record_views(final(out)@) == record_views(old(out)@) + marked(texts(lines@), kind),
{
    let ghost before = record_views(out@);
    let mut i: usize = 0;
    proof {
        assert(marked(texts(lines@).take(0), kind) =~= Seq::<RecordView>::empty());
        assert(before + Seq::<RecordView>::empty() =~= before);
    }
    while i < lines.len()
        invariant
            i <= lines.len(),
            record_views(out@) == before + marked(texts(lines@).take(i as int), kind),
        decreases lines.len() - i,
    {
        let ghost held = out@;
        out.push(DiffRecord { line: copy_text(&lines[i]), kind });
        proof {
            assert(record_views(out@) =~= before + marked(texts(lines@).take(i + 1), kind)) by {
                let target = before + marked(texts(lines@).take(i + 1), kind);
                let reached = before + marked(texts(lines@).take(i as int), kind);
                assert(record_views(held) == reached);
                assert(record_views(held).len() == held.len());
                assert(reached.len() == before.len() + i);
                assert(record_views(out@).len() == target.len());
                assert forall|k: int| 0 <= k < target.len() implies record_views(out@)[k]
                    == target[k] by {
                    if k < held.len() {
                        assert(record_views(out@)[k] == record_views(held)[k]);
                        assert(reached[k] == target[k]);
                    }
                }
            }
        }
        i += 1;
    }
    proof {
        assert(texts(lines@).take(lines.len() as int) =~= texts(lines@));
    }
}

/// The records of a changeset: each chunk taken apart into its lines.
pub fn records_of(chunks: &Vec<Chunk>) -> (r: Vec<DiffRecord>)
    ensures
        record_views(r@) == expand(chunk_views(chunks@)),
{
    let mut out: Vec<DiffRecord> = Vec::new();
    let mut i: usize = 0;
    proof {
        assert(chunk_views(chunks@).take(0) =~= Seq::<RecordView>::empty());
        assert(record_views(out@) =~= Seq::<RecordView>::empty());
    }
    while i < chunks.len()
        invariant
            i <= chunks.len(),
            record_views(out@) == expand(chunk_views(chunks@).take(i as int)),
        decreases chunks.len() - i,
    {
        proof {
            let part = chunk_views(chunks@).take(i + 1);
            assert(part.drop_last() =~= chunk_views(chunks@).take(i as int));
            assert(part.last() == chunks@[i as int]@);
        }
        let lines = lines_of(&chunks[i].text);
        mark(lines.as_slice(), chunks[i].kind, &mut out);
        i += 1;
    }
    proof {
        assert(chunk_views(chunks@).take(chunks.len() as int) =~= chunk_views(chunks@));
    }
    out
}

/// The reference as a diff gives it: the lines that are not added.
pub fn reference_side(records: &Vec<DiffRecord>) -> (r: Vec<Vec<char>>)
    ensures
        texts(r@) == old_side(record_views(records@)),
{
    let mut out: Vec<Vec<char>> = Vec::new();
    let mut i: usize = 0;
    proof {
        assert(record_views(records@).take(0) =~= Seq::<RecordView>::empty());
        assert(texts(out@) =~= Seq::<Seq<char>>::empty());
    }
    while i < records.len()
        invariant
            i <= records.len(),
            texts(out@) == old_side(record_views(records@).take(i as int)),
        decreases records.len() - i,
    {
        proof {
            let part = record_views(records@).take(i + 1);
            assert(part.drop_last() =~= record_views(records@).take(i as int));
            assert(part.last() == records@[i as int]@);
        }
        if records[i].kind != DiffKind::Added {
            let line = copy_text(&records[i].line);
            proof {
                crate::text::lemma_texts_push(out@, line);
            }
            out.push(line);
        }
        i += 1;
    }
    proof {
        assert(record_views(records@).take(records.len() as int) =~= record_views(records@));
    }
    out
}

/// The compared text as a diff gives it: the lines that are not removed.
pub fn compared_side(records: &Vec<DiffRecord>) -> (r: Vec<Vec<char>>)
    ensures
        texts(r@) == new_side(record_views(records@)),
{
    let mut out: Vec<Vec<char>> = Vec::new();
    let mut i: usize = 0;
    proof {
        assert(record_views(records@).take(0) =~= Seq::<RecordView>::empty());
        assert(texts(out@) =~= Seq::<Seq<char>>::empty());
    }
    while i < records.len()
        invariant
            i <= records.len(),
            texts(out@) == new_side(record_views(records@).take(i as int)),
        decreases records.len() - i,
    {
        proof {
            let part = record_views(records@).take(i + 1);
            assert(part.drop_last() =~= record_views(records@).take(i as int));
            assert(part.last() == records@[i as int]@);
        }
        if records[i].kind != DiffKind::Removed {
            let line = copy_text(&records[i].line);
            proof {
                crate::text::lemma_texts_push(out@, line);
            }
            out.push(line);
        }
        i += 1;
    }
    proof {
        assert(record_views(records@).take(records.len() as int) =~= record_views(records@));
    }
    out
}

/// The records for a changeset that was computed for the lines `a` and `b`:
/// those of the changeset where they replay `a` and `b`, and the plain
/// rewrite of `a` into `b` otherwise.
pub fn settle(chunks: &Vec<Chunk>, a: &[Vec<char>], b: &[Vec<char>]) -> (r: Vec<DiffRecord>)
    ensures
        record_views(r@) == settled(chunk_views(chunks@), texts(a@), texts(b@)),
        replays(record_views(r@), texts(a@), texts(b@)),
{
    let records = records_of(chunks);
    let old_lines = reference_side(&records);
    let new_lines = compared_side(&records);
    if same_lines(old_lines.as_slice(), a) && same_lines(new_lines.as_slice(), b) {
        records
    } else {
        let mut out: Vec<DiffRecord> = Vec::new();
        proof {
            assert(record_views(out@) =~= Seq::<RecordView>::empty());
            lemma_rewrite_replays(texts(a@), texts(b@));
        }
        mark(a, DiffKind::Removed, &mut out);
        mark(b, DiffKind::Added, &mut out);
        proof {
            assert(record_views(out@) =~= rewrite(texts(a@), texts(b@)));
        }
        out
    }
}

/// Whether two texts are small enough for the `difference` crate.
pub fn small_enough(orig: &Vec<char>, edit: &Vec<char>) -> (r: bool)
    ensures
        r == fits(orig@, edit@),
{
    let limit: usize = usize::MAX / 16;
    if orig.len() > limit || edit.len() > limit {
        proof {
            let (x, y) = (orig@.len() as int, edit@.len() as int);
            assert((x + 1) * (y + 1) > limit) by (nonlinear_arith)
                requires
                    x > limit || y > limit,
                    x >= 0,
                    y >= 0,
                    limit >= 0,
            ;
        }
        return false;
    }
    let x: u128 = orig.len() as u128 + 1;
    let y: u128 = edit.len() as u128 + 1;
    proof {
        assert(x * y <= 0x1000_0000_0000_0000 * 0x1000_0000_0000_0000) by (nonlinear_arith)
            requires
                x <= 0x1000_0000_0000_0000,
                y <= 0x1000_0000_0000_0000,
        ;
    }
    x * y <= limit as u128
}

/// Explains how `lines` deviate from `reference`: a line-by-line diff of the
/// normalized lines of `reference` and `lines`, in the order of the texts.
///
/// The diff always replays both texts. It is made for explanation only and
/// changes no score.
pub fn diff(reference: &TextData, lines: &[Vec<char>]) -> (r: Vec<DiffRecord>)
    ensures
        record_views(r@) == explained(normalized_lines(reference@), texts(lines@)),
        replays(record_views(r@), normalized_lines(reference@), texts(lines@)),
{
    let a = reference.lines().as_slice();
    proof {
        lemma_explained_replays(texts(a@), texts(lines@));
    }
    if same_lines(a, lines) {
        let mut out: Vec<DiffRecord> = Vec::new();
        proof {
            assert(record_views(out@) =~= Seq::<RecordView>::empty());
        }
        mark(a, DiffKind::Same, &mut out);
        proof {
            assert(record_views(out@) =~= marked(texts(a@), DiffKind::Same));
        }
        return out;
    }
    let orig = joined(a);
    let edit = joined(lines);
    if small_enough(&orig, &edit) {
        let chunks = changeset(&orig, &edit, '\n');
        settle(&chunks, a, lines)
    } else {
        let mut out: Vec<DiffRecord> = Vec::new();
        proof {
            assert(record_views(out@) =~= Seq::<RecordView>::empty());
        }
        mark(a, DiffKind::Removed, &mut out);
        mark(lines, DiffKind::Added, &mut out);
        proof {
            assert(record_views(out@) =~= rewrite(texts(a@), texts(lines@)));
        }
        out
    }
}

} // verus!
