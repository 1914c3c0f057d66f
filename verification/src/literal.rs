//! The shape of number literals.

use vstd::prelude::*;
use crate::ascii::{is_digit, run_end, ByteClass, LOWER_E, MINUS, PERIOD, PLUS};
use crate::number::{int_of_text, int_text};

verus! {

/// The parts of the number literal that starts at some position of a text: an optional
/// minus sign, digits, an optional point with digits behind it, an optional `e` with an
/// optional sign and digits behind it. Each part is as long as it can be.
pub struct NumberShape {
    /// Where the digits before the point begin.
    pub digits_start: int,
    /// Where the digits before the point end.
    pub int_end: int,
    /// Whether a point follows them.
    pub has_point: bool,
    /// Where the digits behind the point end.
    pub frac_end: int,
    /// Whether an exponent follows.
    pub has_exponent: bool,
    /// Where the digits of the exponent begin.
    pub exp_digits_start: int,
    /// Where the literal ends.
    pub end: int,
}

impl NumberShape {
    /// A point or an exponent makes the literal a double.
    pub open spec fn is_float(self) -> bool {
        self.has_point || self.has_exponent
    }

    pub open spec fn mantissa_digits(self) -> int {
        (self.int_end - self.digits_start) + (if self.has_point {
            self.frac_end - self.int_end - 1
        } else {
            0
        })
    }

    pub open spec fn exponent_digits(self) -> int {
        self.end - self.exp_digits_start
    }

    /// A decimal number has a digit before or behind its point, and an exponent has one.
    pub open spec fn valid_float(self) -> bool {
        self.mantissa_digits() >= 1 && (self.has_exponent ==> self.exponent_digits() >= 1)
    }
}

pub open spec fn is_sign(b: u8) -> bool {
    b == MINUS || b == PLUS
}

pub open spec fn number_shape(s: Seq<u8>, i: int) -> NumberShape {
    let digits_start = if 0 <= i < s.len() && s[i] == MINUS {
        i + 1
    } else {
        i
    };
    let int_end = run_end(s, digits_start, ByteClass::Digit);
    let has_point = int_end < s.len() && s[int_end] == PERIOD;
    let frac_end = if has_point {
        run_end(s, int_end + 1, ByteClass::Digit)
    } else {
        int_end
    };
    let has_exponent = frac_end < s.len() && s[frac_end] == LOWER_E;
    let exp_digits_start = if has_exponent && frac_end + 1 < s.len() && is_sign(s[frac_end + 1]) {
        frac_end + 2
    } else {
        frac_end + 1
    };
    let end = if has_exponent {
        run_end(s, exp_digits_start, ByteClass::Digit)
    } else {
        frac_end
    };
    NumberShape { digits_start, int_end, has_point, frac_end, has_exponent, exp_digits_start, end }
}

/// Whether `t` is one number literal from its first byte to its last: a double that is a
/// decimal number, or an integer that fits in 64 bits.
pub open spec fn is_number_literal(t: Seq<u8>) -> bool {
    let shape = number_shape(t, 0);
    &&& t.len() > 0
    &&& (t[0] == MINUS || is_digit(t[0]))
    &&& shape.end == t.len()
    &&& if shape.is_float() {
        shape.valid_float()
    } else {
        int_of_text(t) is Some
    }
}

/// Whether `t` is a literal with a fraction or an exponent that is a decimal number.
pub open spec fn is_float_literal(t: Seq<u8>) -> bool {
    is_number_literal(t) && number_shape(t, 0).is_float()
}

/// Whether `t` is the decimal text of a 64-bit integer: no leading zeros, no `-0`.
pub open spec fn is_integer_literal(t: Seq<u8>) -> bool {
    int_of_text(t) matches Some(n) && t == int_text(n as int)
}

/// Whether `t` can stand for a finite double-precision number: a literal with a
/// fraction or an exponent, or the text of an integer.
pub open spec fn is_double_text(t: Seq<u8>) -> bool {
    is_float_literal(t) || is_integer_literal(t)
}

pub proof fn lemma_number_shape(s: Seq<u8>, i: int)
    requires
        0 <= i < s.len(),
        s[i] == MINUS || is_digit(s[i]),
    ensures
        ({
            let shape = number_shape(s, i);
            &&& i <= shape.digits_start <= shape.int_end <= shape.frac_end <= shape.end <= s.len()
            &&& i < shape.end
            &&& shape.has_point ==> shape.int_end < shape.frac_end
            &&& shape.has_exponent ==> shape.frac_end < shape.exp_digits_start <= shape.end
        }),
{
    let shape = number_shape(s, i);
    crate::ascii::lemma_run_end(s, shape.digits_start, ByteClass::Digit);
    if shape.has_point {
        crate::ascii::lemma_run_end(s, shape.int_end + 1, ByteClass::Digit);
    }
    if shape.has_exponent {
        if shape.exp_digits_start <= s.len() {
            crate::ascii::lemma_run_end(s, shape.exp_digits_start, ByteClass::Digit);
        }
    }
}

} // verus!
