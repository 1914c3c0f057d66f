//! What the lexer reads from text that is written as the writer writes it.

use vstd::prelude::*;
use crate::ascii::{
    in_class, is_digit, is_hex_digit, is_identifier_byte, is_identifier_start, is_space,
    lemma_run_end, lemma_run_end_is, run_end, AMPERSAND, BRACKET_CLOSE, ByteClass, COMMA, HASH,
    LOWER_E, MINUS, NEWLINE, PAREN_CLOSE, PERIOD, QUOTE, SPACE,
};
use crate::double::lemma_integer_literal;
use crate::error::SyntaxError;
use crate::literal::{
    is_float_literal, is_number_literal, is_sign, lemma_number_shape, number_shape,
};
use crate::number::{int_of_text, int_text};
use crate::token::{
    find_byte, number_token, punctuation, spec_next_token, string_text, without_newlines, TokenView,
};
use crate::value::{is_color_literal, is_quotable};

verus! {

/// Whether `t` stands in `s` at `i`.
pub open spec fn holds_at(s: Seq<u8>, i: int, t: Seq<u8>) -> bool {
    &&& 0 <= i
    &&& i + t.len() <= s.len()
    &&& forall|k: int| 0 <= k < t.len() ==> s[i + k] == #[trigger] t[k]
}

/// The bytes that the writer puts behind a value or an argument.
pub open spec fn is_delimiter(b: u8) -> bool {
    b == SPACE || b == NEWLINE || b == BRACKET_CLOSE || b == COMMA || b == PAREN_CLOSE
}

/// Whether position `j` of `s` holds a delimiter.
pub open spec fn delimited(s: Seq<u8>, j: int) -> bool {
    0 <= j < s.len() && is_delimiter(s[j])
}

/// An identifier: a letter or an underscore, then letters, digits and underscores.
pub open spec fn is_identifier(w: Seq<u8>) -> bool {
    &&& w.len() >= 1
    &&& is_identifier_start(w[0])
    &&& forall|k: int| 0 <= k < w.len() ==> is_identifier_byte(#[trigger] w[k])
}

/// Where two texts stand one behind the other, each of them stands.
pub proof fn lemma_holds_split(s: Seq<u8>, i: int, a: Seq<u8>, b: Seq<u8>)
    requires
        holds_at(s, i, a + b),
    ensures
        holds_at(s, i, a),
        holds_at(s, i + a.len(), b),
{
    assert forall|k: int| 0 <= k < a.len() implies s[i + k] == #[trigger] a[k] by {
        assert((a + b)[k] == a[k]);
    }
    assert forall|k: int| 0 <= k < b.len() implies s[i + a.len() + k] == #[trigger] b[k] by {
        assert((a + b)[a.len() + k] == b[k]);
    }
}

/// A text stands at the beginning of itself with anything behind it.
pub proof fn lemma_holds_prefix(a: Seq<u8>, b: Seq<u8>)
    ensures
        holds_at(a + b, 0, a),
        holds_at(a + b, a.len() as int, b),
{
    assert forall|k: int| 0 <= k < b.len() implies (a + b)[a.len() + k] == #[trigger] b[k] by {
    }
}

/// What stands at a place is the part of the text that begins there.
pub proof fn lemma_holds_subrange(s: Seq<u8>, i: int, t: Seq<u8>)
    requires
        holds_at(s, i, t),
    ensures
        s.subrange(i, i + t.len()) == t,
{
    assert forall|k: int| 0 <= k < t.len() implies s.subrange(i, i + t.len())[k] == t[k] by {
        assert(s[i + k] == t[k]);
    }
    assert(s.subrange(i, i + t.len()) =~= t);
}

/// Bytes up to the space before a token are skipped.
pub proof fn lemma_lex_space(s: Seq<u8>, i: int)
    requires
        0 <= i < s.len(),
        s[i] == SPACE || s[i] == NEWLINE,
    ensures
        spec_next_token(s, i) == spec_next_token(s, i + 1),
{
}

/// A byte of punctuation is a token of its own.
pub proof fn lemma_lex_punctuation(s: Seq<u8>, i: int, b: u8)
    requires
        0 <= i < s.len(),
        s[i] == b,
        punctuation(b) is Some,
    ensures
        spec_next_token(s, i) == Ok::<(Option<TokenView>, int), SyntaxError>(
            (punctuation(b), i + 1),
        ),
{
}

/// An identifier is read whole where no byte of an identifier follows it.
pub proof fn lemma_lex_identifier(s: Seq<u8>, i: int, w: Seq<u8>)
    requires
        holds_at(s, i, w),
        is_identifier(w),
        i + w.len() == s.len() || !is_identifier_byte(s[i + w.len()]),
    ensures
        spec_next_token(s, i) == Ok::<(Option<TokenView>, int), SyntaxError>(
            (Some(TokenView::Identifier(w)), i + w.len()),
        ),
{
    assert(s[i] == w[0]);
    assert forall|k: int| i + 1 <= k < i + w.len() implies in_class(
        ByteClass::Identifier,
        #[trigger] s[k],
    ) by {
        assert(s[k] == w[k - i]);
    }
    lemma_run_end_is(s, i + 1, i + w.len(), ByteClass::Identifier);
    lemma_holds_subrange(s, i, w);
}

/// Text without line feeds is its own text.
pub proof fn lemma_without_newlines(t: Seq<u8>)
    requires
        forall|k: int| 0 <= k < t.len() ==> #[trigger] t[k] != NEWLINE,
    ensures
        without_newlines(t) == t,
    decreases t.len(),
{
    if t.len() > 0 {
        lemma_without_newlines(t.drop_last());
        assert(t.drop_last().push(t.last()) =~= t);
    }
}

/// The first `b` at or after `i` is found where no `b` stands before it.
pub proof fn lemma_find_byte_is(s: Seq<u8>, i: int, j: int, b: u8)
    requires
        0 <= i <= j <= s.len(),
        forall|k: int| i <= k < j ==> #[trigger] s[k] != b,
        j < s.len() ==> s[j] == b,
    ensures
        find_byte(s, i, b) == j,
    decreases j - i,
{
    if i < j {
        lemma_find_byte_is(s, i + 1, j, b);
    }
}

/// The text of a quoted string that begins at `start` and is closed by a quote.
pub proof fn lemma_string_text(s: Seq<u8>, start: int, t: Seq<u8>)
    requires
        holds_at(s, start, t),
        is_quotable(t),
        start + t.len() < s.len(),
        s[start + t.len()] == QUOTE,
    ensures
        find_byte(s, start, QUOTE) == start + t.len(),
        string_text(s, start) == t,
{
    assert forall|k: int| start <= k < start + t.len() implies #[trigger] s[k] != QUOTE by {
        assert(s[k] == t[k - start]);
    }
    lemma_find_byte_is(s, start, start + t.len(), QUOTE);
    lemma_holds_subrange(s, start, t);
    lemma_without_newlines(t);
}

/// A quoted string is read as its text.
pub proof fn lemma_lex_string(s: Seq<u8>, i: int, t: Seq<u8>)
    requires
        holds_at(s, i, seq![QUOTE] + t + seq![QUOTE]),
        is_quotable(t),
    ensures
        spec_next_token(s, i) == Ok::<(Option<TokenView>, int), SyntaxError>(
            (Some(TokenView::String(t)), i + t.len() + 2),
        ),
{
    lemma_holds_split(s, i, seq![QUOTE] + t, seq![QUOTE]);
    lemma_holds_split(s, i, seq![QUOTE], t);
    assert(s[i] == seq![QUOTE][0]);
    assert(s[i + 1 + t.len()] == seq![QUOTE][0]);
    lemma_string_text(s, i + 1, t);
}

/// A quoted string behind `&` is read as a name.
pub proof fn lemma_lex_string_name(s: Seq<u8>, i: int, t: Seq<u8>)
    requires
        holds_at(s, i, seq![AMPERSAND, QUOTE] + t + seq![QUOTE]),
        is_quotable(t),
    ensures
        spec_next_token(s, i) == Ok::<(Option<TokenView>, int), SyntaxError>(
            (Some(TokenView::StringName(t)), i + t.len() + 3),
        ),
{
    lemma_holds_split(s, i, seq![AMPERSAND, QUOTE] + t, seq![QUOTE]);
    lemma_holds_split(s, i, seq![AMPERSAND, QUOTE], t);
    assert(s[i] == seq![AMPERSAND, QUOTE][0]);
    assert(s[i + 1] == seq![AMPERSAND, QUOTE][1]);
    assert(s[i + 2 + t.len()] == seq![QUOTE][0]);
    lemma_string_text(s, i + 2, t);
}

/// A colour literal is read whole where a byte follows it that is no hexadecimal digit.
pub proof fn lemma_lex_color(s: Seq<u8>, i: int, t: Seq<u8>)
    requires
        holds_at(s, i, t),
        is_color_literal(t),
        i + t.len() < s.len(),
        !is_hex_digit(s[i + t.len()]),
    ensures
        spec_next_token(s, i) == Ok::<(Option<TokenView>, int), SyntaxError>(
            (Some(TokenView::Color(t)), i + t.len()),
        ),
{
    assert(s[i] == t[0]);
    assert forall|k: int| i + 1 <= k < i + t.len() implies in_class(
        ByteClass::HexDigit,
        #[trigger] s[k],
    ) by {
        assert(s[k] == t[k - i]);
    }
    lemma_run_end_is(s, i + 1, i + t.len(), ByteClass::HexDigit);
    lemma_holds_subrange(s, i, t);
}

/// A byte that can make a number literal longer.
pub open spec fn extends_number(b: u8) -> bool {
    is_digit(b) || b == PERIOD || b == LOWER_E || is_sign(b)
}

/// A run of digits inside `t` is the same run in `s`, where `t` stands in `s` and no
/// digit follows it.
proof fn lemma_run_in_context(s: Seq<u8>, i: int, t: Seq<u8>, a: int)
    requires
        holds_at(s, i, t),
        0 <= a <= t.len(),
        i + t.len() == s.len() || !is_digit(s[i + t.len()]),
    ensures
        run_end(s, i + a, ByteClass::Digit) == i + run_end(t, a, ByteClass::Digit),
        a <= run_end(t, a, ByteClass::Digit) <= t.len(),
{
    lemma_run_end(t, a, ByteClass::Digit);
    let b = run_end(t, a, ByteClass::Digit);
    assert forall|k: int| i + a <= k < i + b implies in_class(
        ByteClass::Digit,
        #[trigger] s[k],
    ) by {
        assert(s[k] == t[k - i]);
        assert(in_class(ByteClass::Digit, t[k - i]));
    }
    if b < t.len() {
        assert(s[i + b] == t[b]);
    }
    lemma_run_end_is(s, i + a, i + b, ByteClass::Digit);
}

/// A number literal has the same parts wherever it stands, as long as no byte follows
/// it that could make it longer.
pub proof fn lemma_number_in_context(s: Seq<u8>, i: int, t: Seq<u8>)
    requires
        holds_at(s, i, t),
        is_number_literal(t),
        i + t.len() == s.len() || !extends_number(s[i + t.len()]),
    ensures
        ({
            let inner = number_shape(t, 0);
            let outer = number_shape(s, i);
            &&& outer.end == i + t.len()
            &&& outer.is_float() == inner.is_float()
            &&& outer.valid_float() == inner.valid_float()
        }),
        s.subrange(i, i + t.len()) == t,
{
    let inner = number_shape(t, 0);
    let outer = number_shape(s, i);
    lemma_number_shape(t, 0);
    lemma_holds_subrange(s, i, t);
    assert(s[i] == t[0]);
    assert(outer.digits_start == i + inner.digits_start);
    lemma_run_in_context(s, i, t, inner.digits_start);
    assert(outer.int_end == i + inner.int_end);
    if inner.int_end < t.len() {
        assert(s[i + inner.int_end] == t[inner.int_end]);
    }
    assert(outer.has_point == inner.has_point);
    if inner.has_point {
        lemma_run_in_context(s, i, t, inner.int_end + 1);
    }
    assert(outer.frac_end == i + inner.frac_end);
    if inner.frac_end < t.len() {
        assert(s[i + inner.frac_end] == t[inner.frac_end]);
    }
    assert(outer.has_exponent == inner.has_exponent);
    if inner.has_exponent {
        if inner.frac_end + 1 < t.len() {
            assert(s[i + inner.frac_end + 1] == t[inner.frac_end + 1]);
        }
        assert(outer.exp_digits_start == i + inner.exp_digits_start);
        lemma_run_in_context(s, i, t, inner.exp_digits_start);
    }
}

/// The token that a number literal is read as.
pub open spec fn number_token_of(t: Seq<u8>) -> TokenView {
    if number_shape(t, 0).is_float() {
        TokenView::Double(t)
    } else {
        TokenView::Integer(int_of_text(t)->0)
    }
}

/// A number literal is read whole where no byte follows it that could make it longer.
pub proof fn lemma_lex_number(s: Seq<u8>, i: int, t: Seq<u8>)
    requires
        holds_at(s, i, t),
        is_number_literal(t),
        i + t.len() == s.len() || !extends_number(s[i + t.len()]),
    ensures
        spec_next_token(s, i) == Ok::<(Option<TokenView>, int), SyntaxError>(
            (Some(number_token_of(t)), i + t.len()),
        ),
{
    lemma_number_in_context(s, i, t);
    assert(s[i] == t[0]);
    assert(spec_next_token(s, i) == number_token(s, i));
}

/// The text of an integer is read as the integer.
pub proof fn lemma_lex_integer(s: Seq<u8>, i: int, n: i64)
    requires
        holds_at(s, i, int_text(n as int)),
        i + int_text(n as int).len() == s.len() || !extends_number(s[i + int_text(n as int).len()]),
    ensures
        spec_next_token(s, i) == Ok::<(Option<TokenView>, int), SyntaxError>(
            (Some(TokenView::Integer(n)), i + int_text(n as int).len()),
        ),
{
    lemma_integer_literal(n);
    crate::number::lemma_int_text_round_trip(n);
    lemma_lex_number(s, i, int_text(n as int));
}

/// A run of digits of `s` that ends inside a part of `s` is the same run in the part.
proof fn lemma_run_in_part(s: Seq<u8>, i: int, e: int, a: int)
    requires
        0 <= i <= i + a <= e <= s.len(),
        0 <= a,
        run_end(s, i + a, ByteClass::Digit) <= e,
    ensures
        run_end(s.subrange(i, e), a, ByteClass::Digit) == run_end(s, i + a, ByteClass::Digit) - i,
{
    let t = s.subrange(i, e);
    let r = run_end(s, i + a, ByteClass::Digit);
    lemma_run_end(s, i + a, ByteClass::Digit);
    assert forall|k: int| a <= k < r - i implies in_class(ByteClass::Digit, #[trigger] t[k]) by {
        assert(t[k] == s[i + k]);
    }
    if r - i < t.len() {
        assert(t[r - i] == s[r]);
    }
    lemma_run_end_is(t, a, r - i, ByteClass::Digit);
}

/// The number literal that is read at `i` has the same parts when it stands alone.
pub proof fn lemma_number_extracted(s: Seq<u8>, i: int)
    requires
        0 <= i < s.len(),
        s[i] == MINUS || is_digit(s[i]),
    ensures
        ({
            let outer = number_shape(s, i);
            let inner = number_shape(s.subrange(i, outer.end), 0);
            &&& inner.end == outer.end - i
            &&& inner.is_float() == outer.is_float()
            &&& inner.valid_float() == outer.valid_float()
        }),
{
    let outer = number_shape(s, i);
    lemma_number_shape(s, i);
    let e = outer.end;
    let t = s.subrange(i, e);
    let inner = number_shape(t, 0);
    assert(t[0] == s[i]);
    assert(inner.digits_start == outer.digits_start - i);
    lemma_run_in_part(s, i, e, outer.digits_start - i);
    assert(inner.int_end == outer.int_end - i);
    if outer.int_end < e {
        assert(t[outer.int_end - i] == s[outer.int_end]);
    }
    assert(inner.has_point == outer.has_point);
    if outer.has_point {
        lemma_run_in_part(s, i, e, outer.int_end + 1 - i);
    }
    assert(inner.frac_end == outer.frac_end - i);
    if outer.frac_end < e {
        assert(t[outer.frac_end - i] == s[outer.frac_end]);
    }
    assert(inner.has_exponent == outer.has_exponent);
    if outer.has_exponent {
        if outer.frac_end + 1 < e {
            assert(t[outer.frac_end + 1 - i] == s[outer.frac_end + 1]);
        }
        assert(inner.exp_digits_start == outer.exp_digits_start - i);
        lemma_run_in_part(s, i, e, outer.exp_digits_start - i);
    }
}

/// Text without its line feeds has no line feed, and no quote where it had none.
pub proof fn lemma_without_newlines_quotable(t: Seq<u8>)
    requires
        forall|k: int| 0 <= k < t.len() ==> #[trigger] t[k] != QUOTE,
    ensures
        is_quotable(without_newlines(t)),
    decreases t.len(),
{
    if t.len() > 0 {
        lemma_without_newlines_quotable(t.drop_last());
    }
}

/// Whether the text of a token is such that it is read again as the same token.
pub open spec fn token_well_formed(token: TokenView) -> bool {
    match token {
        TokenView::String(t) => is_quotable(t),
        TokenView::StringName(t) => is_quotable(t),
        TokenView::Color(t) => is_color_literal(t),
        TokenView::Double(t) => is_float_literal(t),
        _ => true,
    }
}

/// The text of a quoted string that was read can stand between quotes.
proof fn lemma_string_read(s: Seq<u8>, start: int)
    requires
        0 <= start <= s.len(),
    ensures
        is_quotable(string_text(s, start)),
{
    crate::token::lemma_find_byte(s, start, QUOTE);
    let close = find_byte(s, start, QUOTE);
    let t = s.subrange(start, close);
    assert forall|k: int| 0 <= k < t.len() implies #[trigger] t[k] != QUOTE by {
        assert(t[k] == s[start + k]);
    }
    lemma_without_newlines_quotable(t);
}

/// Every token that is read is well formed.
pub proof fn lemma_token_read(s: Seq<u8>, i: int)
    requires
        0 <= i <= s.len(),
    ensures
        spec_next_token(s, i) matches Ok((Some(token), _)) ==> token_well_formed(token),
    decreases s.len() - i,
{
    if i < s.len() {
        let c = s[i];
        if punctuation(c) is Some {
        } else if c == crate::ascii::SEMICOLON {
            crate::token::lemma_find_byte(s, i + 1, NEWLINE);
            let next = crate::token::line_end(s, i + 1);
            if i < next < s.len() {
                lemma_token_read(s, next);
            }
        } else if c == HASH {
            lemma_run_end(s, i + 1, ByteClass::HexDigit);
            let end = run_end(s, i + 1, ByteClass::HexDigit);
            let t = s.subrange(i, end);
            assert(t[0] == s[i]);
            assert forall|k: int| 1 <= k < t.len() implies is_hex_digit(#[trigger] t[k]) by {
                assert(t[k] == s[i + k]);
                assert(in_class(ByteClass::HexDigit, s[i + k]));
            }
        } else if c == QUOTE {
            lemma_string_read(s, i + 1);
        } else if c == crate::ascii::AT_SIGN || c == AMPERSAND {
            if i + 1 < s.len() && s[i + 1] == QUOTE {
                lemma_string_read(s, i + 2);
            }
        } else if c == MINUS || is_digit(c) {
            lemma_number_shape(s, i);
            lemma_number_extracted(s, i);
            let shape = number_shape(s, i);
            let t = s.subrange(i, shape.end);
            assert(t[0] == s[i]);
        } else if is_identifier_start(c) {
        } else if is_space(c) {
            lemma_token_read(s, i + 1);
        }
    }
}

} // verus!
