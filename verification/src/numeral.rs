//! Number literals: which words are numbers, what they denote, and at which
//! character a word stops being one.
//!
//! An integer literal is a run of decimal digits whose number fits in an `i64`.
//! A float literal is a run of decimal digits, one point, and a possibly empty
//! run of decimal digits; it has no exponent and no sign. A word that begins
//! with a digit and is not a literal is rejected at the first character up to
//! which it no longer is the beginning of one.

use vstd::prelude::*;
use crate::chars::{
    char_digit_value,
    char_is_digit,
    char_of_digit,
    digit_char,
    digit_value,
    is_digit,
};

verus! {

/// Every character of `w` is a decimal digit.
pub open spec fn all_digits(w: Seq<char>) -> bool {
    forall|i: int| 0 <= i < w.len() ==> is_digit(#[trigger] w[i])
}

/// The number that a run of decimal digits denotes; 0 for the empty run.
pub open spec fn decimal_value(w: Seq<char>) -> nat
    decreases w.len(),
{
    if w.len() == 0 {
        0
    } else {
        decimal_value(w.drop_last()) * 10 + digit_value(w.last())
    }
}

/// `w` is the beginning of an integer literal, or a whole one: digits only,
/// and their number fits in an `i64`.
pub open spec fn starts_integer(w: Seq<char>) -> bool {
    all_digits(w) && decimal_value(w) <= i64::MAX
}

/// `w` is an integer literal.
pub open spec fn is_integer_literal(w: Seq<char>) -> bool {
    w.len() > 0 && starts_integer(w)
}

/// `w` is the beginning of a float literal, or a whole one: digits and at most
/// one point, with a digit first.
pub open spec fn starts_float(w: Seq<char>) -> bool {
    &&& forall|i: int| 0 <= i < w.len() ==> is_digit(#[trigger] w[i]) || w[i] == '.'
    &&& forall|i: int, j: int|
        0 <= i < j < w.len() ==> !(#[trigger] w[i] == '.' && #[trigger] w[j] == '.')
    &&& w.len() > 0 ==> is_digit(w[0])
}

/// `w` is a float literal.
pub open spec fn is_float_literal(w: Seq<char>) -> bool {
    starts_float(w) && w.contains('.')
}

/// The length of the longest prefix of `w` that `accepted` holds of, for a
/// property that holds of the empty text.
pub open spec fn longest_prefix(w: Seq<char>, accepted: spec_fn(Seq<char>) -> bool) -> nat
    decreases w.len(),
{
    if w.len() == 0 || accepted(w) {
        w.len()
    } else {
        longest_prefix(w.drop_last(), accepted)
    }
}

/// How many characters of `w` can be read as the beginning of an integer
/// literal. Where this is less than the length of `w`, the character at that
/// index is the first that does not fit.
pub open spec fn integer_prefix_len(w: Seq<char>) -> nat {
    longest_prefix(w, |p: Seq<char>| starts_integer(p))
}

/// How many characters of `w` can be read as the beginning of a float literal.
pub open spec fn float_prefix_len(w: Seq<char>) -> nat {
    longest_prefix(w, |p: Seq<char>| starts_float(p))
}

/// The longest accepted prefix is the one after which every longer prefix is
/// refused.
pub proof fn lemma_longest_prefix(w: Seq<char>, accepted: spec_fn(Seq<char>) -> bool, k: int)
    requires
        0 <= k <= w.len(),
        k == 0 || accepted(w.take(k)),
        forall|j: int| k < j <= w.len() ==> !accepted(#[trigger] w.take(j)),
    ensures
        longest_prefix(w, accepted) == k,
    decreases w.len(),
{
    assert(w.take(w.len() as int) == w);
    if k < w.len() {
        let v = w.drop_last();
        assert(v.take(k) == w.take(k));
        assert forall|j: int| k < j <= v.len() implies !accepted(#[trigger] v.take(j)) by {
            assert(v.take(j) == w.take(j));
        }
        lemma_longest_prefix(v, accepted, k);
    }
}

/// The longest accepted prefix is accepted, unless it is empty, and no longer
/// prefix is.
pub proof fn lemma_longest_prefix_is_longest(w: Seq<char>, accepted: spec_fn(Seq<char>) -> bool)
    ensures
        longest_prefix(w, accepted) <= w.len(),
        longest_prefix(w, accepted) == 0 || accepted(w.take(longest_prefix(w, accepted) as int)),
        forall|j: int|
            longest_prefix(w, accepted) < j <= w.len() ==> !accepted(#[trigger] w.take(j)),
    decreases w.len(),
{
    assert(w.take(w.len() as int) == w);
    if w.len() > 0 && !accepted(w) {
        let v = w.drop_last();
        let k = longest_prefix(v, accepted) as int;
        lemma_longest_prefix_is_longest(v, accepted);
        assert(v.take(k) == w.take(k));
        assert forall|j: int| k < j <= w.len() implies !accepted(#[trigger] w.take(j)) by {
            if j < w.len() {
                assert(v.take(j) == w.take(j));
            }
        }
    }
}

/// The beginning of the beginning of an integer literal is one too.
pub proof fn lemma_starts_integer_take(w: Seq<char>, k: int)
    requires
        starts_integer(w),
        0 <= k <= w.len(),
    ensures
        starts_integer(w.take(k)),
        decimal_value(w.take(k)) <= decimal_value(w),
    decreases w.len(),
{
    if k == w.len() {
        assert(w.take(k) == w);
    } else {
        assert(w.drop_last().take(k) == w.take(k));
        lemma_starts_integer_take(w.drop_last(), k);
    }
}

/// The beginning of the beginning of a float literal is one too.
pub proof fn lemma_starts_float_take(w: Seq<char>, k: int)
    requires
        starts_float(w),
        0 <= k <= w.len(),
    ensures
        starts_float(w.take(k)),
{
}

/// Reads a word as an integer literal: its number, or the index of the first
/// character at which the word stops being the beginning of one.
pub(crate) fn parse_integer(word: &Vec<char>) -> (r: Result<i64, usize>)
    ensures
        match r {
            Ok(n) => starts_integer(word@) && n == decimal_value(word@),
            Err(k) => !starts_integer(word@) && k < word@.len() && k == integer_prefix_len(
                word@,
            ),
        },
{
    let mut value: i64 = 0;
    let mut i: usize = 0;
    while i < word.len()
        invariant
            i <= word@.len(),
            starts_integer(word@.take(i as int)),
            value == decimal_value(word@.take(i as int)),
        decreases word@.len() - i,
    {
        let c = word[i];
        let ghost next = word@.take(i + 1);
        assert(next.drop_last() == word@.take(i as int));
        assert(next.last() == c);
        let fits = if char_is_digit(c) {
            let d = char_digit_value(c);
            value < 922337203685477580 || (value == 922337203685477580 && d <= 7)
        } else {
            false
        };
        if !fits {
            proof {
                assert forall|j: int| i < j <= word@.len() implies !starts_integer(
                    #[trigger] word@.take(j),
                ) by {
                    if starts_integer(word@.take(j)) {
                        lemma_starts_integer_take(word@.take(j), i + 1);
                        assert(word@.take(j).take(i + 1) == next);
                    }
                }
                assert(word@.take(word@.len() as int) == word@);
                lemma_longest_prefix(word@, |p: Seq<char>| starts_integer(p), i as int);
            }
            return Err(i);
        }
        value = value * 10 + char_digit_value(c) as i64;
        i = i + 1;
    }
    assert(word@.take(i as int) == word@);
    Ok(value)
}

/// Reads a word as a float literal without its point being required: nothing
/// to report where the whole word is the beginning of one, else the index of
/// the first character at which it stops being so.
pub(crate) fn scan_float(word: &Vec<char>) -> (r: Result<(), usize>)
    ensures
        match r {
            Ok(_) => starts_float(word@),
            Err(k) => !starts_float(word@) && k < word@.len() && k == float_prefix_len(word@),
        },
{
    let mut seen_point = false;
    let mut i: usize = 0;
    while i < word.len()
        invariant
            i <= word@.len(),
            starts_float(word@.take(i as int)),
            seen_point <==> word@.take(i as int).contains('.'),
        decreases word@.len() - i,
    {
        let c = word[i];
        let ghost read = word@.take(i as int);
        let ghost next = word@.take(i + 1);
        assert(next == read.push(c));
        let fits = char_is_digit(c) || (c == '.' && !seen_point && i > 0);
        if !fits {
            proof {
                assert(next[i as int] == c);
                if c == '.' && seen_point {
                    let j = choose|j: int| 0 <= j < read.len() && read[j] == '.';
                    assert(next[j] == '.');
                }
                assert(!starts_float(next));
                assert forall|j: int| i < j <= word@.len() implies !starts_float(
                    #[trigger] word@.take(j),
                ) by {
                    if starts_float(word@.take(j)) {
                        lemma_starts_float_take(word@.take(j), i + 1);
                        assert(word@.take(j).take(i + 1) == next);
                    }
                }
                assert(word@.take(word@.len() as int) == word@);
                lemma_longest_prefix(word@, |p: Seq<char>| starts_float(p), i as int);
            }
            return Err(i);
        }
        proof {
            if c == '.' {
                assert(next[i as int] == '.');
                assert forall|a: int, b: int| 0 <= a < b < next.len() implies !(next[a] == '.'
                    && next[b] == '.') by {
                    if b < i {
                        assert(read[a] == next[a] && read[b] == next[b]);
                    } else if next[a] == '.' {
                        assert(read[a] == '.');
                        assert(read.contains('.'));
                    }
                }
            } else {
                if next.contains('.') {
                    let j = choose|j: int| 0 <= j < next.len() && next[j] == '.';
                    assert(read[j] == '.');
                }
                if read.contains('.') {
                    let j = choose|j: int| 0 <= j < read.len() && read[j] == '.';
                    assert(next[j] == '.');
                }
            }
        }
        if c == '.' {
            seen_point = true;
        }
        i = i + 1;
    }
    assert(word@.take(i as int) == word@);
    Ok(())
}

/// Tells whether the word holds a point.
pub(crate) fn has_point(word: &Vec<char>) -> (b: bool)
    ensures
        b == word@.contains('.'),
{
    let mut i: usize = 0;
    while i < word.len()
        invariant
            i <= word@.len(),
            forall|j: int| 0 <= j < i ==> word@[j] != '.',
        decreases word@.len() - i,
    {
        if word[i] == '.' {
            return true;
        }
        i = i + 1;
    }
    false
}

/// The decimal digits of a natural number, without leading zeros.
pub open spec fn natural_text(n: nat) -> Seq<char>
    decreases n,
{
    if n < 10 {
        seq![digit_char(n)]
    } else {
        natural_text(n / 10).push(digit_char(n % 10))
    }
}

/// An integer in decimal, with a minus sign before a negative one.
pub open spec fn integer_text(n: int) -> Seq<char> {
    if n < 0 {
        seq!['-'] + natural_text((-n) as nat)
    } else {
        natural_text(n as nat)
    }
}

/// The digits written for a number are digits, begin with one, and denote
/// that number.
pub proof fn lemma_natural_text(n: nat)
    ensures
        natural_text(n).len() > 0,
        all_digits(natural_text(n)),
        decimal_value(natural_text(n)) == n,
    decreases n,
{
    let t = natural_text(n);
    if n < 10 {
        assert(t.drop_last() == Seq::<char>::empty());
        assert(decimal_value(t.drop_last()) == 0);
    } else {
        lemma_natural_text(n / 10);
        assert(t.drop_last() == natural_text(n / 10));
    }
}

/// Writes an integer in decimal.
pub(crate) fn integer_to_text(n: i64) -> (s: String)
    ensures
        s@ == integer_text(n as int),
{
    let magnitude: u64 = if n < 0 {
        (-(n + 1)) as u64 + 1
    } else {
        n as u64
    };
    let mut rest = magnitude;
    let mut low: Vec<char> = Vec::new();
    while rest >= 10
        invariant
            natural_text(magnitude as nat) == natural_text(rest as nat) + low@.reverse(),
        decreases rest,
    {
        let ghost before = low@;
        let d = char_of_digit((rest % 10) as u8);
        low.push(d);
        assert(low@.reverse() == seq![d] + before.reverse());
        assert(natural_text(rest as nat) == natural_text((rest / 10) as nat).push(d));
        rest = rest / 10;
    }
    let mut s = String::new();
    if n < 0 {
        s.push('-');
    }
    s.push(char_of_digit(rest as u8));
    let ghost head = s@;
    assert(natural_text(rest as nat) == seq![digit_char(rest as nat)]);
    let mut i: usize = low.len();
    while i > 0
        invariant
            i <= low@.len(),
            s@ == head + low@.skip(i as int).reverse(),
        decreases i,
    {
        i = i - 1;
        let ghost tail = low@.skip(i + 1);
        assert(low@.skip(i as int) == seq![low@[i as int]] + tail);
        assert(low@.skip(i as int).reverse() == tail.reverse().push(low@[i as int]));
        s.push(low[i]);
    }
    assert(low@.skip(0) == low@);
    s
}

} // verus!
