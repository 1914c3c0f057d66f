//! Integers as decimal text, in both directions.

use vstd::prelude::*;
use crate::ascii::{is_digit, DIGIT_ZERO, MINUS};

verus! {

/// The decimal digits of `n`, most significant first, without leading zeros.
pub open spec fn digits_text(n: nat) -> Seq<u8>
    decreases n,
{
    if n < 10 {
        seq![(DIGIT_ZERO + n) as u8]
    } else {
        digits_text(n / 10).push((DIGIT_ZERO + n % 10) as u8)
    }
}

/// The decimal text of an integer: a minus sign for a negative number, then its digits.
pub open spec fn int_text(n: int) -> Seq<u8> {
    if n < 0 {
        seq![MINUS] + digits_text((-n) as nat)
    } else {
        digits_text(n as nat)
    }
}

pub open spec fn all_digits(d: Seq<u8>) -> bool {
    forall|k: int| 0 <= k < d.len() ==> is_digit(#[trigger] d[k])
}

/// The number that a sequence of decimal digits denotes.
pub open spec fn digits_value(d: Seq<u8>) -> nat
    decreases d.len(),
{
    if d.len() == 0 {
        0
    } else {
        digits_value(d.drop_last()) * 10 + (d.last() - DIGIT_ZERO) as nat
    }
}

/// The digits of an integer literal: the text without its minus sign.
pub open spec fn literal_digits(t: Seq<u8>) -> Seq<u8> {
    if t.len() > 0 && t[0] == MINUS {
        t.skip(1)
    } else {
        t
    }
}

/// The number that an integer literal denotes, whatever its size.
pub open spec fn literal_value(t: Seq<u8>) -> int {
    if t.len() > 0 && t[0] == MINUS {
        -(digits_value(literal_digits(t)) as int)
    } else {
        digits_value(literal_digits(t)) as int
    }
}

/// What an integer literal denotes as 64-bit signed integer: the text is an optional
/// minus sign and at least one digit, and its number is in range.
pub open spec fn int_of_text(t: Seq<u8>) -> Option<i64> {
    let d = literal_digits(t);
    if d.len() > 0 && all_digits(d) && i64::MIN <= literal_value(t) <= i64::MAX {
        Some(literal_value(t) as i64)
    } else {
        None
    }
}

pub proof fn lemma_digits_text(n: nat)
    ensures
        digits_text(n).len() >= 1,
        all_digits(digits_text(n)),
        digits_value(digits_text(n)) == n,
        digits_text(n)[0] != MINUS,
    decreases n,
{
    if n >= 10 {
        lemma_digits_text(n / 10);
        let t = digits_text(n);
        assert(t.drop_last() =~= digits_text(n / 10));
    } else {
        let t = digits_text(n);
        assert(t.drop_last() =~= Seq::<u8>::empty());
        assert(digits_value(t.drop_last()) == 0);
    }
}

/// A longer run of digits denotes no smaller a number than its beginning.
pub proof fn lemma_digits_value_prefix(d: Seq<u8>, k: int)
    requires
        0 <= k <= d.len(),
    ensures
        digits_value(d.take(k)) <= digits_value(d),
    decreases d.len() - k,
{
    if k < d.len() {
        lemma_digits_value_prefix(d, k + 1);
        assert(d.take(k + 1).drop_last() =~= d.take(k));
    } else {
        assert(d.take(k) =~= d);
    }
}

/// Reading the decimal text of an integer gives the integer back.
pub proof fn lemma_int_text_round_trip(n: i64)
    ensures
        int_of_text(int_text(n as int)) == Some(n),
{
    if n < 0 {
        let m = (-n) as nat;
        lemma_digits_text(m);
        let t = int_text(n as int);
        assert(t.skip(1) =~= digits_text(m));
    } else {
        lemma_digits_text(n as nat);
    }
}

/// Appends the decimal digits of `n` to `out`.
pub fn fmt_unsigned(n: u64, out: &mut Vec<u8>)
    ensures
        final(out)@ == old(out)@ + digits_text(n as nat),
    decreases n,
{
    if n >= 10 {
        fmt_unsigned(n / 10, out);
    }
    let digit: u8 = (n % 10) as u8;
    out.push(DIGIT_ZERO + digit);
    assert(final(out)@ =~= old(out)@ + digits_text(n as nat));
}

/// Appends the decimal text of `n` to `out`: an explicit minus sign for a negative number,
/// no leading zeros.
pub fn fmt_integer(n: i64, out: &mut Vec<u8>)
    ensures
        final(out)@ == old(out)@ + int_text(n as int),
{
    if n < 0 {
        out.push(MINUS);
        let magnitude: u64 = ((-(n + 1)) as u64) + 1;
        fmt_unsigned(magnitude, out);
        assert(final(out)@ =~= old(out)@ + int_text(n as int));
    } else {
        fmt_unsigned(n as u64, out);
    }
}

/// Reads an integer literal: `Some` of its number where the text is an optional minus sign
/// followed by digits and the number fits, `None` for any other text.
pub fn parse_integer(text: &[u8]) -> (r: Option<i64>)
    ensures
        r == int_of_text(text@),
{
    let negative = text.len() > 0 && text[0] == MINUS;
    let start: usize = if negative { 1 } else { 0 };
    if start == text.len() {
        return None;
    }
    let limit: u64 = if negative { 9223372036854775808 } else { 9223372036854775807 };
    let ghost digits = literal_digits(text@);
    let mut acc: u64 = 0;
    let mut i: usize = start;
    while i < text.len()
        invariant
            start <= i <= text.len(),
            start == (if negative { 1usize } else { 0usize }),
            negative == (text@.len() > 0 && text@[0] == MINUS),
            digits == literal_digits(text@),
            digits.len() == text@.len() - start,
            limit == (if negative { 9223372036854775808u64 } else { 9223372036854775807u64 }),
            all_digits(digits.take(i - start)),
            acc == digits_value(digits.take(i - start)),
            acc <= limit,
        decreases text.len() - i,
    {
        let b = text[i];
        assert(digits[i - start] == b);
        if !is_digit(b) {
            return None;
        }
        let d: u64 = (b - DIGIT_ZERO) as u64;
        proof {
            assert(digits.take(i - start + 1).drop_last() =~= digits.take(i - start));
            lemma_digits_value_prefix(digits, i - start + 1);
        }
        if acc > (limit - d) / 10 {
            return None;
        }
        acc = acc * 10 + d;
        i = i + 1;
    }
    assert(digits.take(i - start) =~= digits);
    if negative {
        if acc == 9223372036854775808 {
            Some(i64::MIN)
        } else {
            Some(-(acc as i64))
        }
    } else {
        Some(acc as i64)
    }
}

} // verus!
