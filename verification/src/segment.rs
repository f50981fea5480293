//! Segmentation: where the words of a source text begin and end.
//!
//! A text is cut into segments in two steps. A blank is put on each side of
//! every parenthesis, and the result is split at its runs of white space. So a
//! parenthesis is always a segment of its own, and every other segment is a
//! maximal run of characters that are neither white space nor parentheses.

use vstd::prelude::*;
use crate::chars::{char_is_paren, char_is_space, is_paren, is_space};

verus! {

/// The text with a blank put before and after each parenthesis.
pub open spec fn pad_parens(s: Seq<char>) -> Seq<char>
    decreases s.len(),
{
    if s.len() == 0 {
        s
    } else if is_paren(s.last()) {
        pad_parens(s.drop_last()) + seq![' ', s.last(), ' ']
    } else {
        pad_parens(s.drop_last()).push(s.last())
    }
}

/// The words of a text: its maximal runs of characters that are not white
/// space, from left to right.
pub open spec fn words(s: Seq<char>) -> Seq<Seq<char>>
    decreases s.len(),
{
    if s.len() == 0 {
        Seq::empty()
    } else {
        let before = s.drop_last();
        let c = s.last();
        if is_space(c) {
            words(before)
        } else if before.len() > 0 && !is_space(before.last()) {
            words(before).drop_last().push(words(before).last().push(c))
        } else {
            words(before).push(seq![c])
        }
    }
}

/// The segments of a source text, in the order in which they occur.
pub open spec fn segments(s: Seq<char>) -> Seq<Seq<char>> {
    words(pad_parens(s))
}

/// The text ends inside a word that a further character could continue.
pub open spec fn ends_in_word(s: Seq<char>) -> bool {
    s.len() > 0 && !is_space(s.last()) && !is_paren(s.last())
}

/// A segment is one parenthesis, or a non-empty run of characters that are
/// neither white space nor parentheses.
pub open spec fn is_segment(w: Seq<char>) -> bool {
    &&& w.len() > 0
    &&& forall|i: int| 0 <= i < w.len() ==> !is_space(#[trigger] w[i])
    &&& w.len() == 1 || forall|i: int| 0 <= i < w.len() ==> !is_paren(#[trigger] w[i])
}

/// The padded text ends in a character that is not white space exactly when the
/// text itself ends inside a word.
pub proof fn lemma_pad_parens_end(s: Seq<char>)
    ensures
        ends_in_word(s) <==> pad_parens(s).len() > 0 && !is_space(pad_parens(s).last()),
        ends_in_word(s) ==> pad_parens(s).last() == s.last(),
{
}

/// What one more character does to the segments of a text: white space changes
/// nothing, a parenthesis is a new segment, and any other character continues
/// the word that the text ends in, or begins a new one.
pub proof fn lemma_segments_push(s: Seq<char>, c: char)
    ensures
        is_space(c) ==> segments(s.push(c)) == segments(s),
        is_paren(c) ==> segments(s.push(c)) == segments(s).push(seq![c]),
        !is_space(c) && !is_paren(c) && ends_in_word(s) ==> segments(s).len() > 0 && segments(
            s.push(c),
        ) == segments(s).drop_last().push(segments(s).last().push(c)),
        !is_space(c) && !is_paren(c) && !ends_in_word(s) ==> segments(s.push(c)) == segments(
            s,
        ).push(seq![c]),
{
    let t = s.push(c);
    assert(t.drop_last() == s);
    let padded = pad_parens(s);
    lemma_pad_parens_end(s);
    if is_paren(c) {
        let opened = padded.push(' ');
        let named = opened.push(c);
        let closed = named.push(' ');
        assert(pad_parens(t) == closed);
        assert(closed.drop_last() == named);
        assert(named.drop_last() == opened);
        assert(opened.drop_last() == padded);
        assert(words(closed) == words(named));
        assert(words(named) == words(opened).push(seq![c]));
        assert(words(opened) == words(padded));
    } else {
        assert(pad_parens(t) == padded.push(c));
        assert(padded.push(c).drop_last() == padded);
    }
}

/// Every segment of a text is one parenthesis or a non-empty run of
/// characters that are neither white space nor parentheses: a parenthesis is
/// never part of a longer segment. The segment that is still open at the end
/// of the text holds no parenthesis.
pub proof fn lemma_segments_are_segments(s: Seq<char>)
    ensures
        forall|i: int| 0 <= i < segments(s).len() ==> is_segment(#[trigger] segments(s)[i]),
        ends_in_word(s) ==> segments(s).len() > 0 && forall|j: int|
            0 <= j < segments(s).last().len() ==> !is_paren(#[trigger] segments(s).last()[j]),
    decreases s.len(),
{
    if s.len() > 0 {
        let before = s.drop_last();
        let c = s.last();
        assert(s == before.push(c));
        lemma_segments_are_segments(before);
        lemma_segments_push(before, c);
    }
}

/// Holds of the characters that are not white space.
pub open spec fn not_space() -> spec_fn(char) -> bool {
    |c: char| !is_space(c)
}

/// The segments of a text, put end to end, are the text without its white
/// space: segmentation loses no character, adds none and moves none.
pub proof fn lemma_segments_keep_text(s: Seq<char>)
    ensures
        segments(s).flatten() == s.filter(not_space()),
    decreases s.len(),
{
    if s.len() == 0 {
        assert(s.filter(not_space()) == Seq::<char>::empty()) by {
            reveal(Seq::filter);
        }
    } else {
        let before = s.drop_last();
        let c = s.last();
        let segs = segments(before);
        assert(s == before.push(c));
        lemma_segments_keep_text(before);
        lemma_segments_push(before, c);
        before.lemma_filter_push(c, not_space());
        if is_space(c) {
        } else if !is_paren(c) && ends_in_word(before) {
            let closed = segs.drop_last();
            let open = segs.last();
            assert(segs == closed.push(open));
            closed.lemma_flatten_push(open);
            closed.lemma_flatten_push(open.push(c));
            assert(closed.flatten() + open.push(c) == (closed.flatten() + open).push(c));
        } else {
            segs.lemma_flatten_push(seq![c]);
            assert(segs.flatten() + seq![c] == segs.flatten().push(c));
        }
    }
}

/// A text of white space alone has no segments.
pub proof fn lemma_blank_text_has_no_segments(s: Seq<char>)
    requires
        forall|i: int| 0 <= i < s.len() ==> is_space(#[trigger] s[i]),
    ensures
        segments(s) == Seq::<Seq<char>>::empty(),
    decreases s.len(),
{
    if s.len() > 0 {
        let before = s.drop_last();
        assert(s == before.push(s.last()));
        lemma_blank_text_has_no_segments(before);
        lemma_segments_push(before, s.last());
    }
}

/// A text that is one segment is cut into itself and nothing else.
pub proof fn lemma_segment_alone(w: Seq<char>)
    requires
        is_segment(w),
    ensures
        segments(w) == seq![w],
    decreases w.len(),
{
    let before = w.drop_last();
    let c = w.last();
    assert(w == before.push(c));
    lemma_segments_push(before, c);
    if before.len() == 0 {
        assert(seq![c] == w);
    } else {
        assert(!is_paren(w[w.len() - 1]));
        assert forall|i: int| 0 <= i < before.len() implies !is_space(#[trigger] before[i])
            && !is_paren(before[i]) by {
            assert(before[i] == w[i]);
        }
        lemma_segment_alone(before);
        assert(seq![before].drop_last().push(before.push(c)) == seq![w]);
    }
}

/// White space put in where no word is cut in two changes no segment: at
/// either end of the text, next to white space, and on either side of a
/// parenthesis. So a parenthesis is a segment of its own however the text
/// around it is spaced.
pub proof fn lemma_blank_between_segments(a: Seq<char>, blank: char, b: Seq<char>)
    requires
        is_space(blank),
        !ends_in_word(a) || b.len() == 0 || is_space(b[0]) || is_paren(b[0]),
    ensures
        segments(a.push(blank) + b) == segments(a + b),
    decreases b.len(),
{
    lemma_segments_push(a, blank);
    if b.len() == 0 {
        assert(a.push(blank) + b == a.push(blank));
        assert(a + b == a);
    } else {
        let rest = b.drop_last();
        let c = b.last();
        let with = a.push(blank) + rest;
        let without = a + rest;
        assert(a.push(blank) + b == with.push(c));
        assert(a + b == without.push(c));
        lemma_segments_push(with, c);
        lemma_segments_push(without, c);
        if rest.len() == 0 {
            assert(with == a.push(blank));
            assert(without == a);
            assert(b[0] == c);
        } else {
            assert(rest[0] == b[0]);
            lemma_blank_between_segments(a, blank, rest);
            assert(with.last() == rest.last());
            assert(without.last() == rest.last());
        }
    }
}

/// Putting the blanks round the parentheses a second time changes nothing:
/// a text that is already spaced out has the segments of the text as written.
pub proof fn lemma_padding_keeps_segments(s: Seq<char>)
    ensures
        segments(pad_parens(s)) == segments(s),
        ends_in_word(pad_parens(s)) == ends_in_word(s),
    decreases s.len(),
{
    if s.len() > 0 {
        let before = s.drop_last();
        let c = s.last();
        let padded = pad_parens(before);
        assert(s == before.push(c));
        lemma_padding_keeps_segments(before);
        lemma_segments_push(before, c);
        if is_paren(c) {
            assert(pad_parens(s) == padded.push(' ').push(c).push(' '));
            lemma_segments_push(padded, ' ');
            lemma_segments_push(padded.push(' '), c);
            lemma_segments_push(padded.push(' ').push(c), ' ');
        } else {
            assert(pad_parens(s) == padded.push(c));
            lemma_segments_push(padded, c);
        }
    }
}

/// Cuts a source text into its segments.
pub fn split(program: &str) -> (out: Vec<Vec<char>>)
    ensures
        out.deep_view() == segments(program@),
{
    let mut out: Vec<Vec<char>> = Vec::new();
    let mut word: Vec<char> = Vec::new();
    for c in it: program.chars()
        invariant
            it.seq() == program@,
            word@.len() > 0 <==> ends_in_word(program@.take(it.index())),
            segments(program@.take(it.index())) == if word@.len() > 0 {
                out.deep_view().push(word@)
            } else {
                out.deep_view()
            },
    {
        let ghost read = program@.take(it.index());
        let ghost done = out.deep_view();
        let ghost open = word@;
        proof {
            lemma_segments_push(read, c);
            assert(program@.take(it.index() + 1) == read.push(c));
        }
        if char_is_space(c) || char_is_paren(c) {
            if word.len() > 0 {
                assert(word.deep_view() == open);
                out.push(word);
                word = Vec::new();
                assert(out.deep_view() == done.push(open));
            }
            if char_is_paren(c) {
                let ghost closed = out.deep_view();
                let mut paren: Vec<char> = Vec::new();
                paren.push(c);
                assert(paren.deep_view() == seq![c]);
                out.push(paren);
                assert(out.deep_view() == closed.push(seq![c]));
            }
        } else {
            word.push(c);
            assert(open.len() > 0 ==> done.push(open).drop_last() == done);
            assert(open.len() == 0 ==> word@ == seq![c]);
        }
    }
    assert(program@.take(program@.len() as int) == program@);
    if word.len() > 0 {
        let ghost done = out.deep_view();
        let ghost open = word@;
        assert(word.deep_view() == open);
        out.push(word);
        assert(out.deep_view() == done.push(open));
    }
    out
}

} // verus!
