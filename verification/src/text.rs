//! Normalized text: the canonical, line-oriented form in which texts are
//! compared.
//!
//! A text is split into lines at every line feed. Within a line, ASCII
//! letters are folded to lower case, every run of whitespace counts as one
//! separator, and leading and trailing whitespace is dropped: a normalized
//! line is the line's words joined by single spaces. The number of lines is
//! kept, so that line `i` of the normalized text stands for line `i` of the
//! raw text.

use vstd::multiset::Multiset;
use vstd::prelude::*;
use crate::fingerprint::{shingle_bag, Fingerprint};

verus! {

/// The characters that separate words: ASCII whitespace.
pub open spec fn is_space(c: char) -> bool {
    c == ' ' || c == '\t' || c == '\n' || c == '\r' || c == '\x0b' || c == '\x0c'
}

/// Case folding of one character: ASCII capitals become small letters, every
/// other character stays as it is.
pub open spec fn fold_char(c: char) -> char {
    if 'A' <= c && c <= 'Z' {
        ((c as u8 + 32) as u8) as char
    } else {
        c
    }
}

/// Case folding of a text, character by character.
pub open spec fn fold_text(s: Seq<char>) -> Seq<char> {
    Seq::new(s.len(), |i: int| fold_char(s[i]))
}

/// The lines of a text: the pieces between line feeds. A text always has at
/// least one line; a text that ends in a line feed ends in an empty line.
pub open spec fn split_lines(s: Seq<char>) -> Seq<Seq<char>>
    decreases s.len(),
{
    if s.len() == 0 {
        seq![Seq::<char>::empty()]
    } else {
        let before = split_lines(s.drop_last());
        if s.last() == '\n' {
            before.push(Seq::<char>::empty())
        } else {
            before.drop_last().push(before.last().push(s.last()))
        }
    }
}

/// The words of a text: its maximal runs of characters that are not
/// whitespace, in order. A character that is not whitespace extends the last
/// word when the character before it belongs to a word, and starts a new word
/// otherwise.
pub open spec fn words(s: Seq<char>) -> Seq<Seq<char>>
    decreases s.len(),
{
    if s.len() == 0 {
        Seq::<Seq<char>>::empty()
    } else {
        let before = words(s.drop_last());
        if is_space(s.last()) {
            before
        } else if s.len() >= 2 && !is_space(s[s.len() - 2]) {
            before.drop_last().push(before.last().push(s.last()))
        } else {
            before.push(seq![s.last()])
        }
    }
}

/// Words joined by single spaces.
pub open spec fn join_words(ws: Seq<Seq<char>>) -> Seq<char>
    decreases ws.len(),
{
    if ws.len() == 0 {
        Seq::<char>::empty()
    } else if ws.len() == 1 {
        ws[0]
    } else {
        join_words(ws.drop_last()).push(' ') + ws.last()
    }
}

/// The normalized form of one line: its words, case-folded, joined by single
/// spaces.
pub open spec fn normalize_line(s: Seq<char>) -> Seq<char> {
    join_words(words(fold_text(s)))
}

/// The normalized lines of a raw text, one for each of its lines.
pub open spec fn normalized_lines(raw: Seq<char>) -> Seq<Seq<char>> {
    Seq::new(split_lines(raw).len(), |i: int| normalize_line(split_lines(raw)[i]))
}

/// The token stream of a sequence of lines: the words of each line, in order.
/// An empty line adds nothing.
pub open spec fn tokens(lines: Seq<Seq<char>>) -> Seq<Seq<char>>
    decreases lines.len(),
{
    if lines.len() == 0 {
        Seq::<Seq<char>>::empty()
    } else {
        tokens(lines.drop_last()) + words(lines.last())
    }
}

/// The fingerprint of a raw text: the shingles of the token stream of its
/// normalized lines.
pub open spec fn fingerprint_of(raw: Seq<char>) -> Multiset<Seq<char>> {
    shingle_bag(tokens(normalized_lines(raw)))
}

/// What a vector of character vectors holds, as a sequence of texts.
pub open spec fn texts(v: Seq<Vec<char>>) -> Seq<Seq<char>> {
    Seq::new(v.len(), |i: int| v[i]@)
}

/// Pushing onto a vector of texts pushes onto what it holds.
pub proof fn lemma_texts_push(v: Seq<Vec<char>>, x: Vec<char>)
    ensures
        texts(v.push(x)) == texts(v).push(x@),
{
    assert(texts(v.push(x)) =~= texts(v).push(x@));
}

/// A text has at least one line.
pub proof fn lemma_split_lines_nonempty(s: Seq<char>)
    ensures
        split_lines(s).len() >= 1,
    decreases s.len(),
{
    if s.len() > 0 {
        lemma_split_lines_nonempty(s.drop_last());
    }
}

/// The token stream of lines put one after the other is the token streams
/// put one after the other.
pub proof fn lemma_tokens_concat(a: Seq<Seq<char>>, b: Seq<Seq<char>>)
    ensures
        tokens(a + b) == tokens(a) + tokens(b),
    decreases b.len(),
{
    if b.len() == 0 {
        assert(a + b =~= a);
        assert(tokens(a) + tokens(b) =~= tokens(a));
    } else {
        lemma_tokens_concat(a, b.drop_last());
        assert((a + b).drop_last() =~= a + b.drop_last());
        assert((a + b).last() == b.last());
        assert(tokens(a + b) =~= tokens(a) + tokens(b));
    }
}

/// The tokens of the lines `lo..hi` are a stretch of the whole token stream:
/// they begin where the tokens of the lines before `lo` end, and end where
/// the tokens of the lines before `hi` end.
pub proof fn lemma_tokens_window(lines: Seq<Seq<char>>, lo: int, hi: int)
    requires
        0 <= lo <= hi <= lines.len(),
    ensures
        tokens(lines.take(lo)).len() <= tokens(lines.take(hi)).len() <= tokens(lines).len(),
        tokens(lines.subrange(lo, hi)) == tokens(lines).subrange(
            tokens(lines.take(lo)).len() as int,
            tokens(lines.take(hi)).len() as int,
        ),
{
    let head = lines.take(lo);
    let mid = lines.subrange(lo, hi);
    let tail = lines.skip(hi);
    assert(lines.take(hi) =~= head + mid);
    assert(lines =~= lines.take(hi) + tail);
    lemma_tokens_concat(head, mid);
    lemma_tokens_concat(lines.take(hi), tail);
    assert(tokens(mid) =~= tokens(lines).subrange(
        tokens(head).len() as int,
        tokens(lines.take(hi)).len() as int,
    ));
}

/// A text ends inside a word exactly when its last character is not
/// whitespace; its last word is then not empty.
pub proof fn lemma_words_open(s: Seq<char>)
    ensures
        s.len() > 0 && !is_space(s.last()) ==> words(s).len() > 0 && words(s).last().len() > 0,
    decreases s.len(),
{
    if s.len() > 0 {
        lemma_words_open(s.drop_last());
        if !is_space(s.last()) && s.len() >= 2 && !is_space(s[s.len() - 2]) {
            assert(s.drop_last().last() == s[s.len() - 2]);
        }
    }
}

/// Whether `c` is whitespace.
pub fn space(c: char) -> (r: bool)
    ensures
        r == is_space(c),
{
    c == ' ' || c == '\t' || c == '\n' || c == '\r' || c == '\x0b' || c == '\x0c'
}

/// Folds the case of one character.
pub fn fold(c: char) -> (r: char)
    ensures
        r == fold_char(c),
{
    if 'A' <= c && c <= 'Z' {
        let b: u8 = c as u8;
        (b + 32) as char
    } else {
        c
    }
}

/// The characters of a string, in order.
pub fn to_chars(text: &str) -> (r: Vec<char>)
    ensures
        r@ == text@,
{
    let mut out: Vec<char> = Vec::new();
    for c in it: text.chars()
        invariant
            out@ == it.seq().take(it.index() as int),
            it.seq() == text@,
    {
        out.push(c);
    }
    out
}

/// Whether two texts hold the same characters.
pub fn same_text(a: &Vec<char>, b: &Vec<char>) -> (r: bool)
    ensures
        r == (a@ == b@),
{
    if a.len() != b.len() {
        return false;
    }
    let mut i: usize = 0;
    while i < a.len()
        invariant
            a.len() == b.len(),
            i <= a.len(),
            a@.take(i as int) == b@.take(i as int),
        decreases a.len() - i,
    {
        if a[i] != b[i] {
            return false;
        }
        proof {
            assert(a@.take(i + 1) =~= a@.take(i as int).push(a@[i as int]));
            assert(b@.take(i + 1) =~= b@.take(i as int).push(b@[i as int]));
        }
        i += 1;
    }
    proof {
        assert(a@ =~= a@.take(a.len() as int));
        assert(b@ =~= b@.take(b.len() as int));
    }
    true
}

/// A copy of a text.
pub fn copy_text(a: &Vec<char>) -> (r: Vec<char>)
    ensures
        r@ == a@,
{
    let mut out: Vec<char> = Vec::new();
    let mut i: usize = 0;
    while i < a.len()
        invariant
            i <= a.len(),
            out@ == a@.take(i as int),
        decreases a.len() - i,
    {
        out.push(a[i]);
        proof {
            assert(a@.take(i + 1) =~= a@.take(i as int).push(a@[i as int]));
        }
        i += 1;
    }
    proof {
        assert(a@ =~= a@.take(a.len() as int));
    }
    out
}

/// Splits a text into its lines.
pub fn lines_of(text: &Vec<char>) -> (r: Vec<Vec<char>>)
    ensures
        texts(r@) == split_lines(text@),
{
    let mut done: Vec<Vec<char>> = Vec::new();
    let mut current: Vec<char> = Vec::new();
    let mut i: usize = 0;
    while i < text.len()
        invariant
            i <= text.len(),
            split_lines(text@.take(i as int)) == texts(done@).push(current@),
        decreases text.len() - i,
    {
        let c = text[i];
        proof {
            let s = text@.take(i + 1);
            assert(s.drop_last() =~= text@.take(i as int));
            assert(s.last() == c);
            assert(texts(done@).push(current@).drop_last() =~= texts(done@));
        }
        if c == '\n' {
            proof {
                lemma_texts_push(done@, current);
            }
            done.push(current);
            current = Vec::new();
        } else {
            current.push(c);
        }
        i += 1;
    }
    proof {
        assert(text@ =~= text@.take(text.len() as int));
        lemma_texts_push(done@, current);
    }
    done.push(current);
    done
}

/// Folds the case of a text.
pub fn fold_case(text: &Vec<char>) -> (r: Vec<char>)
    ensures
        r@ == fold_text(text@),
{
    let mut out: Vec<char> = Vec::new();
    let mut i: usize = 0;
    while i < text.len()
        invariant
            i <= text.len(),
            out@.len() == i,
            forall|k: int| 0 <= k < i ==> out@[k] == fold_char(text@[k]),
        decreases text.len() - i,
    {
        out.push(fold(text[i]));
        i += 1;
    }
    proof {
        assert(out@ =~= fold_text(text@));
    }
    out
}

/// Splits a text into its words.
pub fn words_of(text: &Vec<char>) -> (r: Vec<Vec<char>>)
    ensures
        texts(r@) == words(text@),
{
    let mut done: Vec<Vec<char>> = Vec::new();
    let mut current: Vec<char> = Vec::new();
    let mut i: usize = 0;
    while i < text.len()
        invariant
            i <= text.len(),
            current@.len() > 0 <==> i > 0 && !is_space(text@[i - 1]),
            words(text@.take(i as int)) == if current@.len() > 0 {
                texts(done@).push(current@)
            } else {
                texts(done@)
            },
        decreases text.len() - i,
    {
        let c = text[i];
        proof {
            let s = text@.take(i + 1);
            assert(s.drop_last() =~= text@.take(i as int));
            assert(s.last() == c);
            if i > 0 {
                assert(s[s.len() - 2] == text@[i - 1]);
            }
            assert(texts(done@).push(current@).drop_last() =~= texts(done@));
            assert(texts(done@).push(current@).last() == current@);
            if current@.len() == 0 {
                assert(current@.push(c) =~= seq![c]);
            }
        }
        if space(c) {
            if current.len() > 0 {
                proof {
                    lemma_texts_push(done@, current);
                }
                done.push(current);
                current = Vec::new();
            }
        } else {
            current.push(c);
        }
        i += 1;
    }
    proof {
        assert(text@ =~= text@.take(text.len() as int));
    }
    if current.len() > 0 {
        proof {
            lemma_texts_push(done@, current);
        }
        done.push(current);
    }
    done
}

/// Joins the words `from..to` of `ws` by single spaces.
pub fn join_range(ws: &Vec<Vec<char>>, from: usize, to: usize) -> (r: Vec<char>)
    requires
        from <= to <= ws.len(),
    ensures
        r@ == join_words(texts(ws@).subrange(from as int, to as int)),
{
    let mut out: Vec<char> = Vec::new();
    let mut i: usize = from;
    while i < to
        invariant
            from <= i <= to <= ws.len(),
            out@ == join_words(texts(ws@).subrange(from as int, i as int)),
        decreases to - i,
    {
        let ghost part = texts(ws@).subrange(from as int, i + 1);
        proof {
            assert(part.drop_last() =~= texts(ws@).subrange(from as int, i as int));
            assert(part.last() == ws@[i as int]@);
        }
        if i > from {
            out.push(' ');
        }
        let w = &ws[i];
        let mut k: usize = 0;
        let ghost head = out@;
        while k < w.len()
            invariant
                k <= w.len(),
                out@ == head + w@.take(k as int),
            decreases w.len() - k,
        {
            out.push(w[k]);
            proof {
                assert(w@.take(k + 1) =~= w@.take(k as int).push(w@[k as int]));
                assert(head + w@.take(k + 1) =~= (head + w@.take(k as int)).push(w@[k as int]));
            }
            k += 1;
        }
        proof {
            assert(w@ =~= w@.take(w.len() as int));
            if i == from {
                assert(part.len() == 1);
                assert(head =~= Seq::<char>::empty());
                assert(out@ =~= w@);
            }
        }
        i += 1;
    }
    out
}

/// Normalizes one line.
pub fn normalized(line: &Vec<char>) -> (r: Vec<char>)
    ensures
        r@ == normalize_line(line@),
{
    let folded = fold_case(line);
    let ws = words_of(&folded);
    proof {
        assert(texts(ws@).subrange(0, ws.len() as int) =~= texts(ws@));
    }
    join_range(&ws, 0, ws.len())
}

/// The token stream of `lines`, and for each line the place where its tokens
/// begin: `starts` has one entry more than there are lines, and the tokens of
/// the lines `a..b` are the tokens `starts[a]..starts[b]`.
pub fn tokenize(lines: &Vec<Vec<char>>) -> (r: (Vec<Vec<char>>, Vec<usize>))
    ensures
        texts(r.0@) == tokens(texts(lines@)),
        r.1@.len() == lines@.len() + 1,
        forall|i: int|
            0 <= i <= lines@.len() ==> #[trigger] r.1@[i] == tokens(
                texts(lines@).take(i),
            ).len(),
{
    let mut all: Vec<Vec<char>> = Vec::new();
    let mut starts: Vec<usize> = Vec::new();
    starts.push(0);
    let mut i: usize = 0;
    proof {
        assert(texts(lines@).take(0) =~= Seq::<Seq<char>>::empty());
    }
    while i < lines.len()
        invariant
            i <= lines.len(),
            texts(all@) == tokens(texts(lines@).take(i as int)),
            starts@.len() == i + 1,
            forall|k: int|
                0 <= k <= i ==> #[trigger] starts@[k] == tokens(texts(lines@).take(k)).len(),
        decreases lines.len() - i,
    {
        let mut ws = words_of(&lines[i]);
        proof {
            let part = texts(lines@).take(i + 1);
            assert(part.drop_last() =~= texts(lines@).take(i as int));
            assert(part.last() == lines@[i as int]@);
            assert(tokens(part) == tokens(texts(lines@).take(i as int)) + texts(ws@));
            assert(texts(all@ + ws@) =~= texts(all@) + texts(ws@));
        }
        all.append(&mut ws);
        starts.push(all.len());
        i += 1;
    }
    proof {
        assert(texts(lines@).take(lines.len() as int) =~= texts(lines@));
    }
    (all, starts)
}

/// A range of lines of a text, both ends included.
#[derive(Clone, Copy, Debug, PartialEq, Eq, Structural)]
pub struct LineRange {
    pub first: usize,
    pub last: usize,
}

/// A text in normalized form, ready to be compared.
///
/// It keeps the raw text it was made from, the normalized lines, and the
/// fingerprint of the normalized token stream. Lines and fingerprint are
/// functions of the raw text alone, so the raw text stands for the whole
/// value: it is the view.
pub struct TextData {
    raw: String,
    lines: Vec<Vec<char>>,
    fingerprint: Fingerprint,
}

impl View for TextData {
    type V = Seq<char>;

    closed spec fn view(&self) -> Seq<char> {
        self.raw@
    }
}

impl TextData {
    #[verifier::type_invariant]
    spec fn well_formed(self) -> bool {
        &&& texts(self.lines@) == normalized_lines(self.raw@)
        &&& self.fingerprint@ == shingle_bag(tokens(normalized_lines(self.raw@)))
    }

    /// The normalized lines that the value holds.
    pub closed spec fn held_lines(&self) -> Seq<Seq<char>> {
        texts(self.lines@)
    }

    /// The fingerprint that the value holds.
    pub closed spec fn held_fingerprint(&self) -> Multiset<Seq<char>> {
        self.fingerprint@
    }

    /// The raw text this value was made from.
    pub fn raw(&self) -> (r: &String)
        ensures
            r@ == self@,
    {
        &self.raw
    }

    /// The normalized lines, one for each line of the raw text.
    pub fn lines(&self) -> (r: &Vec<Vec<char>>)
        ensures
            texts(r@) == self.held_lines(),
            texts(r@) == normalized_lines(self@),
            r@.len() >= 1,
    {
        proof {
            use_type_invariant(self);
            lemma_split_lines_nonempty(self.raw@);
            assert(texts(self.lines@).len() == self.lines@.len());
        }
        &self.lines
    }

    /// The fingerprint of the normalized token stream.
    pub fn fingerprint(&self) -> (r: &Fingerprint)
        ensures
            r@ == self.held_fingerprint(),
            r@ == fingerprint_of(self@),
    {
        proof {
            use_type_invariant(self);
        }
        &self.fingerprint
    }

    /// Whether the raw text is empty.
    pub fn is_empty(&self) -> (r: bool)
        ensures
            r == (self@.len() == 0),
    {
        self.raw.as_str().is_empty()
    }
}

/// Normalizes a text: keeps the raw text, and makes its normalized lines and
/// the fingerprint of their token stream. Every text has a normalized form:
/// there is no input on which this fails.
pub fn normalize(text: &str) -> (r: TextData)
    ensures
        r@ == text@,
        r.held_lines() == normalized_lines(text@),
        r.held_fingerprint() == fingerprint_of(text@),
{
    let chars = to_chars(text);
    let raw_lines = lines_of(&chars);
    let mut lines: Vec<Vec<char>> = Vec::new();
    let mut i: usize = 0;
    while i < raw_lines.len()
        invariant
            i <= raw_lines.len(),
            texts(raw_lines@) == split_lines(text@),
            lines@.len() == i,
            forall|k: int| 0 <= k < i ==> (#[trigger] lines@[k])@ == normalize_line(raw_lines@[k]@),
        decreases raw_lines.len() - i,
    {
        lines.push(normalized(&raw_lines[i]));
        i += 1;
    }
    proof {
        assert(texts(lines@) =~= normalized_lines(text@)) by {
            assert forall|k: int| 0 <= k < lines@.len() implies texts(lines@)[k]
                == normalized_lines(text@)[k] by {
                assert(texts(raw_lines@)[k] == raw_lines@[k]@);
            }
        }
    }
    let (all, _starts) = tokenize(&lines);
    proof {
        assert(texts(all@).subrange(0, all.len() as int) =~= texts(all@));
    }
    let fingerprint = Fingerprint::of_tokens(&all, 0, all.len());
    TextData { raw: text.to_owned(), lines, fingerprint }
}

} // verus!
