//! The canonical form of a text, and the law that normalizing is idempotent.
//!
//! The canonical form of a text is its normalized lines joined by line
//! feeds. Normalizing the canonical form gives the same lines again, and so
//! the same token stream and the same fingerprint: normalized text is a fixed
//! point of normalization.

use vstd::prelude::*;
use crate::diff::join_lines;
use crate::text::{
    fingerprint_of, fold_char, fold_text, is_space, join_words, lemma_split_lines_nonempty,
    normalize_line, normalized_lines, split_lines, words,
};

verus! {

/// The canonical form of a text: its normalized lines, joined by line feeds.
pub open spec fn canonical(raw: Seq<char>) -> Seq<char> {
    join_lines(normalized_lines(raw))
}

/// A word: not empty, and without whitespace.
pub open spec fn is_word(w: Seq<char>) -> bool {
    w.len() > 0 && forall|j: int| 0 <= j < w.len() ==> !is_space(#[trigger] w[j])
}

/// A text in which case folding changes nothing.
pub open spec fn is_folded(s: Seq<char>) -> bool {
    forall|j: int| 0 <= j < s.len() ==> fold_char(#[trigger] s[j]) == s[j]
}

/// A text without a line feed.
pub open spec fn is_one_line(s: Seq<char>) -> bool {
    forall|j: int| 0 <= j < s.len() ==> #[trigger] s[j] != '\n'
}

/// Case folding changes nothing in a folded text.
pub proof fn lemma_fold_twice(s: Seq<char>)
    ensures
        is_folded(fold_text(s)),
        is_folded(s) ==> fold_text(s) == s,
{
    assert forall|j: int| 0 <= j < fold_text(s).len() implies fold_char(#[trigger] fold_text(s)[j])
        == fold_text(s)[j] by {
        lemma_fold_char_twice(s[j]);
    }
    if is_folded(s) {
        assert(fold_text(s) =~= s);
    }
}

/// Folding a folded character changes nothing.
pub proof fn lemma_fold_char_twice(c: char)
    ensures
        fold_char(fold_char(c)) == fold_char(c),
        is_space(fold_char(c)) == is_space(c),
{
}

/// The words of a text are words; and they are folded where the text is.
#[verifier::rlimit(40)]
pub proof fn lemma_words_are_words(s: Seq<char>)
    ensures
        forall|i: int| 0 <= i < words(s).len() ==> is_word(#[trigger] words(s)[i]),
        is_folded(s) ==> forall|i: int| 0 <= i < words(s).len() ==> is_folded(#[trigger] words(s)[i]),
    decreases s.len(),
{
    if s.len() > 0 {
        let init = s.drop_last();
        lemma_words_are_words(init);
        let before = words(init);
        let c = s.last();
        if is_folded(s) {
            assert forall|j: int| 0 <= j < init.len() implies fold_char(#[trigger] init[j])
                == init[j] by {
                assert(init[j] == s[j]);
            }
        }
        if !is_space(c) {
            if s.len() >= 2 && !is_space(s[s.len() - 2]) {
                assert(init.last() == s[s.len() - 2]);
                crate::text::lemma_words_open(init);
                let grown = before.last().push(c);
                assert(is_word(before.last()));
                assert(is_word(grown));
                assert forall|i: int| 0 <= i < words(s).len() implies is_word(
                    #[trigger] words(s)[i],
                ) by {
                    if i < before.len() - 1 {
                        assert(words(s)[i] == before[i]);
                    }
                }
                if is_folded(s) {
                    assert(is_folded(before.last()));
                    assert(is_folded(grown));
                    assert forall|i: int| 0 <= i < words(s).len() implies is_folded(
                        #[trigger] words(s)[i],
                    ) by {
                        if i < before.len() - 1 {
                            assert(words(s)[i] == before[i]);
                        }
                    }
                }
            } else {
                assert(is_word(seq![c]));
                assert forall|i: int| 0 <= i < words(s).len() implies is_word(
                    #[trigger] words(s)[i],
                ) by {
                    if i < before.len() {
                        assert(words(s)[i] == before[i]);
                    }
                }
                if is_folded(s) {
                    assert(is_folded(seq![c]));
                    assert forall|i: int| 0 <= i < words(s).len() implies is_folded(
                        #[trigger] words(s)[i],
                    ) by {
                        if i < before.len() {
                            assert(words(s)[i] == before[i]);
                        }
                    }
                }
            }
        }
    }
}

/// Words joined by spaces hold no line feed, and are folded where the words
/// are.
#[verifier::rlimit(40)]
pub proof fn lemma_join_words_chars(ws: Seq<Seq<char>>)
    requires
        forall|i: int| 0 <= i < ws.len() ==> is_word(#[trigger] ws[i]),
    ensures
        is_one_line(join_words(ws)),
        (forall|i: int| 0 <= i < ws.len() ==> is_folded(#[trigger] ws[i])) ==> is_folded(
            join_words(ws),
        ),
    decreases ws.len(),
{
    if ws.len() == 1 {
        assert(is_word(ws[0]));
        assert forall|j: int| 0 <= j < ws[0].len() implies #[trigger] ws[0][j] != '\n' by {
            assert(!is_space(ws[0][j]));
        }
        if forall|i: int| 0 <= i < ws.len() ==> is_folded(#[trigger] ws[i]) {
            assert(is_folded(ws[0]));
        }
    } else if ws.len() > 1 {
        let init = ws.drop_last();
        assert forall|i: int| 0 <= i < init.len() implies is_word(#[trigger] init[i]) by {
            assert(init[i] == ws[i]);
        }
        lemma_join_words_chars(init);
        let head = join_words(init).push(' ');
        let last = ws.last();
        assert(is_word(last));
        let all = head + last;
        assert forall|j: int| 0 <= j < all.len() implies #[trigger] all[j] != '\n' by {
            if j < head.len() - 1 {
                assert(all[j] == join_words(init)[j]);
            } else if j >= head.len() {
                assert(all[j] == last[j - head.len()]);
                assert(!is_space(last[j - head.len()]));
            }
        }
        if forall|i: int| 0 <= i < ws.len() ==> is_folded(#[trigger] ws[i]) {
            assert forall|i: int| 0 <= i < init.len() implies is_folded(#[trigger] init[i]) by {
                assert(init[i] == ws[i]);
            }
            assert(is_folded(last));
            assert forall|j: int| 0 <= j < all.len() implies fold_char(#[trigger] all[j])
                == all[j] by {
                if j < head.len() - 1 {
                    assert(all[j] == join_words(init)[j]);
                } else if j >= head.len() {
                    assert(all[j] == last[j - head.len()]);
                }
            }
        }
    }
}

/// A word written after a text that is empty or ends in whitespace is one
/// more word.
pub proof fn lemma_words_append_word(y: Seq<char>, w: Seq<char>)
    requires
        y.len() == 0 || is_space(y.last()),
        is_word(w),
    ensures
        words(y + w) == words(y).push(w),
    decreases w.len(),
{
    let c = w.last();
    let init = w.drop_last();
    let s = y + w;
    assert(s.drop_last() =~= y + init);
    assert(s.last() == c);
    assert(!is_space(c));
    if init.len() == 0 {
        assert(y + init =~= y);
        assert(w =~= seq![c]);
        if s.len() >= 2 {
            assert(s[s.len() - 2] == y.last());
        }
    } else {
        assert(is_word(init)) by {
            assert forall|j: int| 0 <= j < init.len() implies !is_space(#[trigger] init[j]) by {
                assert(init[j] == w[j]);
            }
        }
        lemma_words_append_word(y, init);
        assert(s[s.len() - 2] == w[w.len() - 2]);
        assert(!is_space(w[w.len() - 2]));
        assert(words(y).push(init).drop_last() =~= words(y));
        assert(init.push(c) =~= w);
    }
}

/// The words of words joined by spaces are those words.
pub proof fn lemma_words_of_joined(ws: Seq<Seq<char>>)
    requires
        forall|i: int| 0 <= i < ws.len() ==> is_word(#[trigger] ws[i]),
    ensures
        words(join_words(ws)) == ws,
    decreases ws.len(),
{
    if ws.len() == 0 {
        assert(words(join_words(ws)) =~= ws);
    } else if ws.len() == 1 {
        assert(is_word(ws[0]));
        lemma_words_append_word(Seq::<char>::empty(), ws[0]);
        assert(Seq::<char>::empty() + ws[0] =~= ws[0]);
        assert(Seq::<Seq<char>>::empty().push(ws[0]) =~= ws);
    } else {
        let init = ws.drop_last();
        assert forall|i: int| 0 <= i < init.len() implies is_word(#[trigger] init[i]) by {
            assert(init[i] == ws[i]);
        }
        lemma_words_of_joined(init);
        let head = join_words(init).push(' ');
        assert(head.drop_last() =~= join_words(init));
        assert(words(head) == init);
        assert(is_word(ws.last()));
        lemma_words_append_word(head, ws.last());
        assert(init.push(ws.last()) =~= ws);
    }
}

/// A normalized line holds no line feed, and normalizing it changes nothing.
pub proof fn lemma_normalize_line_twice(s: Seq<char>)
    ensures
        is_one_line(normalize_line(s)),
        normalize_line(normalize_line(s)) == normalize_line(s),
{
    let ws = words(fold_text(s));
    lemma_fold_twice(s);
    lemma_words_are_words(fold_text(s));
    lemma_join_words_chars(ws);
    lemma_fold_twice(join_words(ws));
    lemma_words_of_joined(ws);
}

/// A text without a line feed, written after another text, goes on that
/// text's last line.
pub proof fn lemma_split_lines_append(x: Seq<char>, l: Seq<char>)
    requires
        is_one_line(l),
    ensures
        split_lines(x + l) == split_lines(x).drop_last().push(split_lines(x).last() + l),
    decreases l.len(),
{
    lemma_split_lines_nonempty(x);
    let lines = split_lines(x);
    if l.len() == 0 {
        assert(x + l =~= x);
        assert(lines.last() + l =~= lines.last());
        assert(lines.drop_last().push(lines.last()) =~= lines);
    } else {
        let init = l.drop_last();
        assert(is_one_line(init)) by {
            assert forall|j: int| 0 <= j < init.len() implies #[trigger] init[j] != '\n' by {
                assert(init[j] == l[j]);
            }
        }
        lemma_split_lines_append(x, init);
        let s = x + l;
        assert(s.drop_last() =~= x + init);
        assert(s.last() == l.last());
        assert(l[l.len() - 1] != '\n');
        let before = lines.drop_last().push(lines.last() + init);
        assert(before.drop_last() =~= lines.drop_last());
        assert((lines.last() + init).push(l.last()) =~= lines.last() + l);
    }
}

/// The lines of lines joined by line feeds are those lines, where there is at
/// least one line and no line holds a line feed.
pub proof fn lemma_split_of_joined(ls: Seq<Seq<char>>)
    requires
        ls.len() >= 1,
        forall|i: int| 0 <= i < ls.len() ==> is_one_line(#[trigger] ls[i]),
    ensures
        split_lines(join_lines(ls)) == ls,
    decreases ls.len(),
{
    let empty = Seq::<char>::empty();
    assert(is_one_line(ls.last()));
    if ls.len() == 1 {
        lemma_split_lines_append(empty, ls[0]);
        assert(empty + ls[0] =~= ls[0]);
        assert(split_lines(empty) =~= seq![empty]);
        assert(seq![empty].drop_last().push(empty + ls[0]) =~= ls);
    } else {
        let init = ls.drop_last();
        assert forall|i: int| 0 <= i < init.len() implies is_one_line(#[trigger] init[i]) by {
            assert(init[i] == ls[i]);
        }
        lemma_split_of_joined(init);
        let head = join_lines(init).push('\n');
        assert(head.drop_last() =~= join_lines(init));
        assert(split_lines(head) == init.push(empty));
        lemma_split_lines_append(head, ls.last());
        assert(init.push(empty).drop_last() =~= init);
        assert(empty + ls.last() =~= ls.last());
        assert(init.push(ls.last()) =~= ls);
    }
}

/// Normalizing is idempotent: the canonical form of a text has the same
/// normalized lines as the text, so the same fingerprint, and is its own
/// canonical form.
pub proof fn lemma_normalize_idempotent(raw: Seq<char>)
    ensures
        normalized_lines(canonical(raw)) == normalized_lines(raw),
        fingerprint_of(canonical(raw)) == fingerprint_of(raw),
        canonical(canonical(raw)) == canonical(raw),
{
    let ls = normalized_lines(raw);
    lemma_split_lines_nonempty(raw);
    assert forall|i: int| 0 <= i < ls.len() implies is_one_line(#[trigger] ls[i])
        && normalize_line(ls[i]) == ls[i] by {
        lemma_normalize_line_twice(split_lines(raw)[i]);
    }
    lemma_split_of_joined(ls);
    assert(normalized_lines(canonical(raw)) =~= ls);
}

} // verus!
