//! Double-precision numbers as text: from what a formatter prints to what a file holds.

use vstd::prelude::*;
use crate::ascii::{is_digit, DIGIT_ZERO, MINUS, PERIOD};
use crate::bytes::{bytes_of, copy_bytes, text};
use crate::literal::{
    is_double_text, is_integer_literal, is_number_literal, lemma_number_shape, number_shape,
};
use crate::path::{ends_with, has_suffix};
use crate::token::{Token, Tokenizer};
use crate::value::{Double, DoubleView};

verus! {

/// Whether a number literal denotes zero: its digits before and behind the point are
/// zeros, whatever its sign and its exponent.
pub open spec fn mantissa_is_zero(t: Seq<u8>) -> bool {
    let shape = number_shape(t, 0);
    forall|k: int|
        shape.digits_start <= k < shape.frac_end ==> #[trigger] t[k] == DIGIT_ZERO || t[k]
            == PERIOD
}

/// `t` without a `.0` at its end.
pub open spec fn without_point_zero(t: Seq<u8>) -> Seq<u8> {
    if has_suffix(t, text(".0")) {
        t.take(t.len() - 2)
    } else {
        t
    }
}

/// The text that a file holds for the finite number that prints as `repr`: `0` for
/// zero, else `repr` without a `.0` at its end. There is none where `repr` is no number
/// literal, or where what is left is a whole number that is no integer literal: one with
/// leading zeros, or too large.
pub open spec fn shortest_text(repr: Seq<u8>) -> Option<Seq<u8>> {
    if !is_number_literal(repr) {
        None
    } else if mantissa_is_zero(repr) {
        Some(text("0"))
    } else if is_double_text(without_point_zero(repr)) {
        Some(without_point_zero(repr))
    } else {
        None
    }
}

/// Whether `t` can stand for a finite number.
pub fn is_double(t: &[u8]) -> (r: bool)
    ensures
        r == is_double_text(t@),
{
    if t.len() == 0 {
        return false;
    }
    if !(t[0] == MINUS || is_digit(t[0])) {
        return false;
    }
    proof {
        lemma_number_shape(t@, 0);
        assert(t@.subrange(0, t@.len() as int) =~= t@);
        if is_integer_literal(t@) {
            lemma_integer_literal(crate::number::int_of_text(t@)->0);
        }
    }
    let mut tokens = Tokenizer::new(t);
    match tokens.next_token() {
        Ok(Some(Token::Integer(n))) => {
            if !tokens.at_end() {
                return false;
            }
            let mut canonical: Vec<u8> = Vec::new();
            crate::number::fmt_integer(n, &mut canonical);
            assert(canonical@ =~= crate::number::int_text(n as int));
            crate::bytes::bytes_eq(canonical.as_slice(), t)
        },
        Ok(Some(Token::Double(_))) => tokens.at_end(),
        _ => false,
    }
}

/// Whether `t` is one number literal from its first byte to its last.
pub fn is_literal(t: &[u8]) -> (r: bool)
    ensures
        r == is_number_literal(t@),
{
    if t.len() == 0 {
        return false;
    }
    if !(t[0] == MINUS || is_digit(t[0])) {
        return false;
    }
    proof {
        lemma_number_shape(t@, 0);
        assert(t@.subrange(0, t@.len() as int) =~= t@);
    }
    let mut tokens = Tokenizer::new(t);
    match tokens.next_token() {
        Ok(Some(Token::Integer(_))) => tokens.at_end(),
        Ok(Some(Token::Double(_))) => tokens.at_end(),
        _ => false,
    }
}

/// Whether the number literal `t` denotes zero.
fn is_zero(t: &[u8]) -> (r: bool)
    requires
        is_number_literal(t@),
    ensures
        r == mantissa_is_zero(t@),
{
    proof {
        lemma_number_shape(t@, 0);
    }
    let ghost shape = number_shape(t@, 0);
    let start: usize = if t[0] == MINUS { 1 } else { 0 };
    let mut k: usize = start;
    while k < t.len() && (is_digit(t[k]) || t[k] == PERIOD)
        invariant
            start <= k <= t.len(),
            is_number_literal(t@),
            start == shape.digits_start,
            shape == number_shape(t@, 0),
            k <= shape.frac_end <= t.len(),
            forall|i: int| start <= i < k ==> #[trigger] t@[i] == DIGIT_ZERO || t@[i] == PERIOD,
        decreases t.len() - k,
    {
        proof {
            crate::ascii::lemma_run_end(t@, shape.digits_start, crate::ascii::ByteClass::Digit);
            if shape.has_point {
                crate::ascii::lemma_run_end(t@, shape.int_end + 1, crate::ascii::ByteClass::Digit);
            }
        }
        if t[k] != DIGIT_ZERO && t[k] != PERIOD {
            assert(k < shape.frac_end);
            return false;
        }
        k = k + 1;
    }
    proof {
        crate::ascii::lemma_run_end(t@, shape.digits_start, crate::ascii::ByteClass::Digit);
        if shape.has_point {
            crate::ascii::lemma_run_end(t@, shape.int_end + 1, crate::ascii::ByteClass::Digit);
        }
        assert(k >= shape.frac_end);
    }
    true
}

impl Double {
    /// The finite number that a formatter prints as `repr`, its shortest decimal form:
    /// zero is held as `0`, and a whole number without the `.0` at its end. `None` where
    /// `repr` is no number that a file can hold.
    pub fn from_shortest(repr: &[u8]) -> (r: Option<Double>)
        ensures
            match shortest_text(repr@) {
                Some(t) => r matches Some(d) && d@ == DoubleView::Finite(t),
                None => r is None,
            },
            r matches Some(d) ==> d@.well_formed(),
    {
        if !is_literal(repr) {
            return None;
        }
        if is_zero(repr) {
            proof {
                lemma_zero_literal();
            }
            return Some(Double::Finite(bytes_of("0")));
        }
        let kept: &[u8] = if ends_with(repr, ".0".as_bytes()) {
            proof {
                reveal_strlit(".0");
                broadcast use vstd::string::is_ascii_spec_bytes;
                assert(vstd::string::is_ascii(".0"));
            }
            &repr[0..repr.len() - 2]
        } else {
            repr
        };
        assert(kept@ =~= without_point_zero(repr@));
        if is_double(kept) {
            Some(Double::Finite(copy_bytes(kept)))
        } else {
            None
        }
    }
}

/// The text of an integer is a number literal without fraction and exponent.
pub proof fn lemma_integer_literal(n: i64)
    ensures
        is_number_literal(crate::number::int_text(n as int)),
        !number_shape(crate::number::int_text(n as int), 0).is_float(),
        is_integer_literal(crate::number::int_text(n as int)),
{
    let t = crate::number::int_text(n as int);
    crate::number::lemma_int_text_round_trip(n);
    if n < 0 {
        let m = (-n) as nat;
        crate::number::lemma_digits_text(m);
        let d = crate::number::digits_text(m);
        assert forall|k: int| 1 <= k < t.len() implies crate::ascii::in_class(
            crate::ascii::ByteClass::Digit,
            #[trigger] t[k],
        ) by {
            assert(t[k] == d[k - 1]);
        }
        crate::ascii::lemma_run_end_is(t, 1, t.len() as int, crate::ascii::ByteClass::Digit);
    } else {
        crate::number::lemma_digits_text(n as nat);
        assert forall|k: int| 0 <= k < t.len() implies crate::ascii::in_class(
            crate::ascii::ByteClass::Digit,
            #[trigger] t[k],
        ) by {
        }
        crate::ascii::lemma_run_end_is(t, 0, t.len() as int, crate::ascii::ByteClass::Digit);
    }
}

/// `0` is the text of a number.
pub proof fn lemma_zero_literal()
    ensures
        is_double_text(text("0")),
        text("0") == seq![DIGIT_ZERO],
{
    reveal_strlit("0");
    broadcast use vstd::string::is_ascii_spec_bytes;
    assert(vstd::string::is_ascii("0"));
    let t = text("0");
    assert(t =~= seq![DIGIT_ZERO]);
    crate::ascii::lemma_run_end_is(t, 0, 1, crate::ascii::ByteClass::Digit);
    assert(crate::number::literal_digits(t) == t);
    assert(t.drop_last() =~= Seq::<u8>::empty());
    assert(crate::number::digits_value(t.drop_last()) == 0);
    assert(crate::number::digits_value(t) == 0);
    assert(t =~= crate::number::int_text(0));
}

} // verus!
