//! The grammar of tokens: which token each segment of a source text is, and
//! what a whole text lexes to.

use vstd::prelude::*;
use crate::chars::{is_digit, is_paren, is_space};
use crate::numeral::{
    decimal_value,
    float_prefix_len,
    integer_prefix_len,
    integer_text,
    is_float_literal,
    is_integer_literal,
    lemma_longest_prefix_is_longest,
    lemma_natural_text,
    starts_float,
    starts_integer,
};
use crate::segment::{
    ends_in_word,
    is_segment,
    lemma_blank_between_segments,
    lemma_blank_text_has_no_segments,
    lemma_padding_keeps_segments,
    lemma_segment_alone,
    lemma_segments_are_segments,
    pad_parens,
    segments,
};

verus! {

/// A token as a mathematical value: the texts it carries are sequences of
/// characters.
pub enum TokenView {
    Integer(i64),
    Float(Seq<char>),
    Symbol(Seq<char>),
    Define,
    Begin,
    Plus,
    Minus,
    Multiply,
    Divide,
    LParen,
    RParen,
}

impl TokenView {
    /// The text that the token is written as.
    pub open spec fn text(self) -> Seq<char> {
        match self {
            TokenView::Integer(n) => integer_text(n as int),
            TokenView::Float(w) => w,
            TokenView::Symbol(w) => w,
            TokenView::Define => seq!['d', 'e', 'f', 'i', 'n', 'e'],
            TokenView::Begin => seq!['b', 'e', 'g', 'i', 'n'],
            TokenView::Plus => seq!['+'],
            TokenView::Minus => seq!['-'],
            TokenView::Multiply => seq!['*'],
            TokenView::Divide => seq!['/'],
            TokenView::LParen => seq!['('],
            TokenView::RParen => seq![')'],
        }
    }
}

/// The delimiter, keyword or operator that a word is, if it is one. These
/// readings come before any other: no symbol is written `define`.
pub open spec fn fixed_token(w: Seq<char>) -> Option<TokenView> {
    if w == seq!['('] {
        Some(TokenView::LParen)
    } else if w == seq![')'] {
        Some(TokenView::RParen)
    } else if w == seq!['d', 'e', 'f', 'i', 'n', 'e'] {
        Some(TokenView::Define)
    } else if w == seq!['b', 'e', 'g', 'i', 'n'] {
        Some(TokenView::Begin)
    } else if w == seq!['+'] {
        Some(TokenView::Plus)
    } else if w == seq!['-'] {
        Some(TokenView::Minus)
    } else if w == seq!['*'] {
        Some(TokenView::Multiply)
    } else if w == seq!['/'] {
        Some(TokenView::Divide)
    } else {
        None
    }
}

/// The token that a word is, or the character at which it is refused.
///
/// A word that is no delimiter, keyword or operator is a number if its first
/// character is a digit, and a symbol if not. A number with a point in it is a
/// float, one without is an integer. A word that begins with a digit and is
/// not such a literal is refused at the first character up to which it
/// is no longer the beginning of one.
pub open spec fn token_of(w: Seq<char>) -> Result<TokenView, char> {
    if fixed_token(w) is Some {
        Ok(fixed_token(w)->0)
    } else if w.len() > 0 && is_digit(w[0]) {
        if w.contains('.') {
            if starts_float(w) {
                Ok(TokenView::Float(w))
            } else {
                Err(w[float_prefix_len(w) as int])
            }
        } else {
            if starts_integer(w) {
                Ok(TokenView::Integer(decimal_value(w) as i64))
            } else {
                Err(w[integer_prefix_len(w) as int])
            }
        }
    } else {
        Ok(TokenView::Symbol(w))
    }
}

/// The tokens of a sequence of words, in order, or the character at which the
/// first word that is refused is refused.
pub open spec fn tokens_of(ws: Seq<Seq<char>>) -> Result<Seq<TokenView>, char>
    decreases ws.len(),
{
    if ws.len() == 0 {
        Ok(Seq::empty())
    } else {
        match tokens_of(ws.drop_last()) {
            Err(c) => Err(c),
            Ok(ts) => match token_of(ws.last()) {
                Err(c) => Err(c),
                Ok(t) => Ok(ts.push(t)),
            },
        }
    }
}

/// What a source text lexes to: the tokens of its segments, or the character
/// at which its first refused segment is refused.
pub open spec fn lex(s: Seq<char>) -> Result<Seq<TokenView>, char> {
    tokens_of(segments(s))
}

/// A word is a token if it is a delimiter, keyword or operator, an integer or
/// float literal, or does not begin with a digit.
pub open spec fn is_token(w: Seq<char>) -> bool {
    ||| fixed_token(w) is Some
    ||| is_integer_literal(w)
    ||| is_float_literal(w)
    ||| w.len() == 0
    ||| !is_digit(w[0])
}

/// The words that are tokens are those that `token_of` accepts.
pub proof fn lemma_is_token(w: Seq<char>)
    ensures
        is_token(w) <==> token_of(w) is Ok,
        is_integer_literal(w) ==> token_of(w) == Ok::<TokenView, char>(
            TokenView::Integer(decimal_value(w) as i64),
        ),
        is_float_literal(w) ==> token_of(w) == Ok::<TokenView, char>(TokenView::Float(w)),
{
    if w.len() > 0 && is_digit(w[0]) {
        lemma_digit_first_is_not_fixed(w);
    }
    if w.contains('.') {
        let j = choose|j: int| 0 <= j < w.len() && w[j] == '.';
        assert(!is_digit(w[j]));
    }
}

/// No delimiter, keyword or operator begins with a digit.
pub proof fn lemma_digit_first_is_not_fixed(w: Seq<char>)
    requires
        w.len() > 0,
        is_digit(w[0]),
    ensures
        fixed_token(w) is None,
{
    assert(seq!['('][0] == '(');
    assert(seq![')'][0] == ')');
    assert(seq!['d', 'e', 'f', 'i', 'n', 'e'][0] == 'd');
    assert(seq!['b', 'e', 'g', 'i', 'n'][0] == 'b');
    assert(seq!['+'][0] == '+');
    assert(seq!['-'][0] == '-');
    assert(seq!['*'][0] == '*');
    assert(seq!['/'][0] == '/');
}

/// A word is refused only if it begins with a digit, and then at the first
/// character that does not fit: what stands before that character is the
/// beginning of a literal, and with it, it no longer is.
pub proof fn lemma_refused_character(w: Seq<char>)
    requires
        token_of(w) is Err,
    ensures
        w.len() > 0 && is_digit(w[0]),
        exists|k: int|
            0 < k < w.len() && token_of(w) == Err::<TokenView, char>(#[trigger] w[k]) && (
            w.contains('.') ==> starts_float(w.take(k)) && !starts_float(w.take(k + 1))) && (
            !w.contains('.') ==> starts_integer(w.take(k)) && !starts_integer(w.take(k + 1))),
{
    let first = w.take(1);
    assert(first[0] == w[0]);
    assert(w.take(w.len() as int) == w);
    if w.contains('.') {
        let accepted = |p: Seq<char>| starts_float(p);
        let k = float_prefix_len(w) as int;
        lemma_longest_prefix_is_longest(w, accepted);
        assert(starts_float(first));
        assert(accepted(w.take(1)));
        assert(!accepted(w.take(w.len() as int)));
        assert(!accepted(w.take(k + 1)));
        assert(token_of(w) == Err::<TokenView, char>(w[k]));
    } else {
        let accepted = |p: Seq<char>| starts_integer(p);
        let k = integer_prefix_len(w) as int;
        lemma_longest_prefix_is_longest(w, accepted);
        assert(first.drop_last() == Seq::<char>::empty());
        assert(decimal_value(first.drop_last()) == 0);
        assert(starts_integer(first));
        assert(accepted(w.take(1)));
        assert(!accepted(w.take(w.len() as int)));
        assert(!accepted(w.take(k + 1)));
        assert(token_of(w) == Err::<TokenView, char>(w[k]));
    }
}

/// The words are lexed one by one: there are as many tokens as words, each
/// word gives the token at its place, and a failure is that of the first word
/// that is no token.
pub proof fn lemma_tokens_of_pointwise(ws: Seq<Seq<char>>)
    ensures
        tokens_of(ws) is Ok <==> forall|i: int| 0 <= i < ws.len() ==> is_token(#[trigger] ws[i]),
        tokens_of(ws) matches Ok(ts) ==> ts.len() == ws.len() && forall|i: int|
            0 <= i < ws.len() ==> token_of(#[trigger] ws[i]) == Ok::<TokenView, char>(ts[i]),
        tokens_of(ws) matches Err(c) ==> exists|k: int|
            0 <= k < ws.len() && token_of(#[trigger] ws[k]) == Err::<TokenView, char>(c)
                && forall|i: int| 0 <= i < k ==> is_token(#[trigger] ws[i]),
    decreases ws.len(),
{
    if ws.len() > 0 {
        let before = ws.drop_last();
        lemma_tokens_of_pointwise(before);
        lemma_is_token(ws.last());
        assert forall|i: int| 0 <= i < before.len() implies before[i] == ws[i] by {}
        match tokens_of(before) {
            Err(c) => {
                let k = choose|k: int|
                    0 <= k < before.len() && token_of(#[trigger] before[k]) == Err::<
                        TokenView,
                        char,
                    >(c) && forall|i: int| 0 <= i < k ==> is_token(#[trigger] before[i]);
                assert(token_of(ws[k]) == Err::<TokenView, char>(c));
                assert forall|i: int| 0 <= i < k implies is_token(#[trigger] ws[i]) by {
                    assert(is_token(before[i]));
                }
                lemma_is_token(ws[k]);
            },
            Ok(ts) => {
                assert forall|i: int| 0 <= i < before.len() implies is_token(
                    #[trigger] ws[i],
                ) by {
                    assert(is_token(before[i]));
                }
                match token_of(ws.last()) {
                    Err(c) => {
                        let k = ws.len() - 1;
                        assert(token_of(ws[k]) == Err::<TokenView, char>(c));
                    },
                    Ok(t) => {
                        assert forall|i: int| 0 <= i < ws.len() implies token_of(
                            #[trigger] ws[i],
                        ) == Ok::<TokenView, char>(ts.push(t)[i]) by {
                            if i < before.len() {
                                assert(token_of(before[i]) == Ok::<TokenView, char>(ts[i]));
                            }
                        }
                    },
                }
            },
        }
    }
}

/// A text whose segments are all tokens lexes, to as many tokens as it has
/// segments; a text with a segment that is no token does not lex.
pub proof fn lemma_lex_succeeds(s: Seq<char>)
    ensures
        lex(s) is Ok <==> forall|i: int|
            0 <= i < segments(s).len() ==> is_token(#[trigger] segments(s)[i]),
        lex(s) matches Ok(ts) ==> ts.len() == segments(s).len(),
{
    lemma_tokens_of_pointwise(segments(s));
}

/// A text that is one segment lexes to the token that the segment is.
pub proof fn lemma_lex_segment(w: Seq<char>)
    requires
        is_segment(w),
    ensures
        lex(w) == match token_of(w) {
            Ok(t) => Ok::<Seq<TokenView>, char>(seq![t]),
            Err(c) => Err::<Seq<TokenView>, char>(c),
        },
{
    lemma_segment_alone(w);
    assert(seq![w].drop_last() == Seq::<Seq<char>>::empty());
    assert(tokens_of(seq![w].drop_last()) == Ok::<Seq<TokenView>, char>(Seq::empty()));
    if token_of(w) is Ok {
        let t = token_of(w)->Ok_0;
        assert(Seq::<TokenView>::empty().push(t) == seq![t]);
    }
}

/// A word that does not begin with a digit and is no delimiter, keyword or
/// operator is a symbol, whose text is the word as it stands.
pub proof fn lemma_symbol_fallback(w: Seq<char>)
    requires
        w.len() > 0,
        !is_digit(w[0]),
        fixed_token(w) is None,
    ensures
        token_of(w) == Ok::<TokenView, char>(TokenView::Symbol(w)),
        is_segment(w) ==> lex(w) == Ok::<Seq<TokenView>, char>(seq![TokenView::Symbol(w)]),
{
    if is_segment(w) {
        lemma_lex_segment(w);
    }
}

/// A text of white space alone, the empty text too, lexes to no tokens.
pub proof fn lemma_blank_text_lexes_to_nothing(s: Seq<char>)
    requires
        forall|i: int| 0 <= i < s.len() ==> is_space(#[trigger] s[i]),
    ensures
        lex(s) == Ok::<Seq<TokenView>, char>(Seq::empty()),
{
    lemma_blank_text_has_no_segments(s);
}

/// White space put in at either end of a text, next to white space, or on
/// either side of a parenthesis changes nothing of what the text lexes to.
pub proof fn lemma_spacing_is_immaterial(a: Seq<char>, blank: char, b: Seq<char>)
    requires
        is_space(blank),
        !ends_in_word(a) || b.len() == 0 || is_space(b[0]) || is_paren(b[0]),
    ensures
        lex(a.push(blank) + b) == lex(a + b),
{
    lemma_blank_between_segments(a, blank, b);
}

/// A text lexes to the same as the text with a blank put before and after
/// each of its parentheses.
pub proof fn lemma_padding_is_immaterial(s: Seq<char>)
    ensures
        lex(pad_parens(s)) == lex(s),
{
    lemma_padding_keeps_segments(s);
}

/// A token written out and read again is the same token. A token other than
/// an integer is written as the word it was read from; an integer is written
/// without the leading zeros of its word.
pub proof fn lemma_written_token_reads_back(w: Seq<char>)
    requires
        token_of(w) is Ok,
    ensures
        token_of(token_of(w)->Ok_0.text()) == token_of(w),
        token_of(w)->Ok_0 is Integer ==> decimal_value(token_of(w)->Ok_0.text())
            == decimal_value(w),
        !(token_of(w)->Ok_0 is Integer) ==> token_of(w)->Ok_0.text() == w,
        is_segment(w) ==> is_segment(token_of(w)->Ok_0.text()) && lex(token_of(w)->Ok_0.text())
            == Ok::<Seq<TokenView>, char>(seq![token_of(w)->Ok_0]),
{
    let t = token_of(w)->Ok_0;
    let x = t.text();
    if fixed_token(w) is Some {
        assert(x == w);
    } else if t is Integer {
        let n = decimal_value(w);
        lemma_natural_text(n);
        assert(x == crate::numeral::natural_text(n));
        assert(is_digit(x[0]));
        lemma_is_token(x);
        assert forall|i: int| 0 <= i < x.len() implies !is_space(#[trigger] x[i]) && !is_paren(
            x[i],
        ) by {
            assert(is_digit(x[i]));
        }
    }
    if is_segment(w) {
        lemma_lex_segment(x);
    }
}

/// Each token that a text lexes to, written out on its own, lexes to itself.
pub proof fn lemma_lexed_token_reads_back(s: Seq<char>, i: int)
    requires
        lex(s) is Ok,
        0 <= i < lex(s)->Ok_0.len(),
    ensures
        lex(lex(s)->Ok_0[i].text()) == Ok::<Seq<TokenView>, char>(seq![lex(s)->Ok_0[i]]),
{
    let ws = segments(s);
    lemma_tokens_of_pointwise(ws);
    lemma_segments_are_segments(s);
    assert(is_segment(ws[i]));
    assert(token_of(ws[i]) == Ok::<TokenView, char>(lex(s)->Ok_0[i]));
    lemma_written_token_reads_back(ws[i]);
}

/// Once a word is refused, so is every sequence of words that goes on from it.
pub proof fn lemma_tokens_of_fails(ws: Seq<Seq<char>>, k: int)
    requires
        0 <= k < ws.len(),
        tokens_of(ws.take(k + 1)) is Err,
    ensures
        tokens_of(ws) == tokens_of(ws.take(k + 1)),
    decreases ws.len(),
{
    if ws.len() == k + 1 {
        assert(ws.take(k + 1) == ws);
    } else {
        assert(ws.drop_last().take(k + 1) == ws.take(k + 1));
        lemma_tokens_of_fails(ws.drop_last(), k);
    }
}

} // verus!
