//! Byte classes of the resource text format.

use vstd::prelude::*;

verus! {

pub const NEWLINE: u8 = 10;

pub const SPACE: u8 = 32;

pub const QUOTE: u8 = 34;

pub const HASH: u8 = 35;

pub const AMPERSAND: u8 = 38;

pub const PAREN_OPEN: u8 = 40;

pub const PAREN_CLOSE: u8 = 41;

pub const PLUS: u8 = 43;

pub const COMMA: u8 = 44;

pub const MINUS: u8 = 45;

pub const PERIOD: u8 = 46;

pub const SLASH: u8 = 47;

pub const DIGIT_ZERO: u8 = 48;

pub const DIGIT_NINE: u8 = 57;

pub const COLON: u8 = 58;

pub const SEMICOLON: u8 = 59;

pub const EQUAL: u8 = 61;

pub const AT_SIGN: u8 = 64;

pub const BRACKET_OPEN: u8 = 91;

pub const BRACKET_CLOSE: u8 = 93;

pub const UNDERSCORE: u8 = 95;

pub const LOWER_E: u8 = 101;

pub const CURLY_OPEN: u8 = 123;

pub const CURLY_CLOSE: u8 = 125;

/// Bytes that separate tokens without being one: every control byte and the space.
#[verifier::allow_in_spec]
pub fn is_space(b: u8) -> bool
    returns
        b <= SPACE,
{
    b <= SPACE
}

#[verifier::allow_in_spec]
pub fn is_digit(b: u8) -> bool
    returns
        DIGIT_ZERO <= b && b <= DIGIT_NINE,
{
    DIGIT_ZERO <= b && b <= DIGIT_NINE
}

#[verifier::allow_in_spec]
pub fn is_alphabetic(b: u8) -> bool
    returns
        (65 <= b && b <= 90) || (97 <= b && b <= 122),
{
    (65 <= b && b <= 90) || (97 <= b && b <= 122)
}

#[verifier::allow_in_spec]
pub fn is_hex_digit(b: u8) -> bool
    returns
        is_digit(b) || (65 <= b && b <= 70) || (97 <= b && b <= 102),
{
    is_digit(b) || (65 <= b && b <= 70) || (97 <= b && b <= 102)
}

/// A byte that may begin an identifier.
#[verifier::allow_in_spec]
pub fn is_identifier_start(b: u8) -> bool
    returns
        is_alphabetic(b) || b == UNDERSCORE,
{
    is_alphabetic(b) || b == UNDERSCORE
}

/// A byte that may continue an identifier.
#[verifier::allow_in_spec]
pub fn is_identifier_byte(b: u8) -> bool
    returns
        is_alphabetic(b) || is_digit(b) || b == UNDERSCORE,
{
    is_alphabetic(b) || is_digit(b) || b == UNDERSCORE
}

/// The classes of bytes of which the lexer reads a whole run at once.
#[derive(Clone, Copy, PartialEq, Eq, Structural, Debug)]
pub enum ByteClass {
    Digit,
    HexDigit,
    Identifier,
}

/// Whether `b` is of `class`.
#[verifier::allow_in_spec]
pub fn in_class(class: ByteClass, b: u8) -> bool
    returns
        match class {
            ByteClass::Digit => is_digit(b),
            ByteClass::HexDigit => is_hex_digit(b),
            ByteClass::Identifier => is_identifier_byte(b),
        },
{
    match class {
        ByteClass::Digit => is_digit(b),
        ByteClass::HexDigit => is_hex_digit(b),
        ByteClass::Identifier => is_identifier_byte(b),
    }
}

/// Where the run of bytes of `class` that starts at `i` ends: the first
/// position at or after `i` that holds no byte of the class.
pub open spec fn run_end(s: Seq<u8>, i: int, class: ByteClass) -> int
    decreases s.len() - i,
{
    if 0 <= i < s.len() && in_class(class, s[i]) {
        run_end(s, i + 1, class)
    } else {
        i
    }
}

pub proof fn lemma_run_end(s: Seq<u8>, i: int, class: ByteClass)
    requires
        0 <= i <= s.len(),
    ensures
        i <= run_end(s, i, class) <= s.len(),
        forall|k: int| i <= k < run_end(s, i, class) ==> in_class(class, #[trigger] s[k]),
        run_end(s, i, class) < s.len() ==> !in_class(class, s[run_end(s, i, class)]),
    decreases s.len() - i,
{
    if i < s.len() && in_class(class, s[i]) {
        lemma_run_end(s, i + 1, class);
    }
}

/// A run is found by its two ends: all bytes before `j` are of the class, and `j` is the
/// end of input or holds another byte.
pub proof fn lemma_run_end_is(s: Seq<u8>, i: int, j: int, class: ByteClass)
    requires
        0 <= i <= j <= s.len(),
        forall|k: int| i <= k < j ==> in_class(class, #[trigger] s[k]),
        j < s.len() ==> !in_class(class, s[j]),
    ensures
        run_end(s, i, class) == j,
    decreases j - i,
{
    if i < j {
        lemma_run_end_is(s, i + 1, j, class);
    }
}

} // verus!
