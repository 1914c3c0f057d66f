//! What the parser reads from the text of a value that the writer wrote.

use vstd::prelude::*;
use crate::ascii::{AMPERSAND, COMMA, PAREN_CLOSE, PAREN_OPEN, QUOTE, SPACE};
use crate::bytes::text;
use crate::double::lemma_integer_literal;
use crate::error::{Expected, SyntaxError};
use crate::roundtrip::tokens::{
    delimited, holds_at, lemma_holds_split, lemma_lex_color, lemma_lex_identifier,
    lemma_lex_integer, lemma_lex_number, lemma_lex_punctuation, lemma_lex_space, lemma_lex_string,
    lemma_lex_string_name,
};
use crate::literal::{is_double_text, is_integer_literal};
use crate::roundtrip::words::{lemma_constructors, lemma_signs, lemma_words};
use crate::number::{int_of_text, int_text};
use crate::parser::{
    spec_double_arg, spec_double_args, spec_expect, spec_int_arg, spec_int_args,
    spec_parse_double_constructor, spec_parse_int_constructor, spec_parse_reference,
    spec_parse_value, spec_parse_word,
};
use crate::token::{spec_next_token, TokenView};
use crate::value::{
    is_quotable, render_color, render_value, render_vector, ColorView, DoubleView, ValueView,
    Vector2i,
};

verus! {

/// The value that is read from the text of `v`: `v` itself, but for a whole number,
/// whose text is that of an integer.
pub open spec fn read_back_value(v: ValueView) -> ValueView {
    match v {
        ValueView::Double(DoubleView::Finite(t)) => if is_integer_literal(t) {
            ValueView::Integer(int_of_text(t)->0)
        } else {
            v
        },
        _ => v,
    }
}

/// One argument of a list of integers is read and added to the list.
proof fn lemma_read_int_arg(s: Seq<u8>, p: int, n: i64, args: Seq<i64>)
    requires
        holds_at(s, p, int_text(n as int)),
        delimited(s, p + int_text(n as int).len()),
    ensures
        spec_int_arg(s, p, args) == spec_int_args(
            s,
            p + int_text(n as int).len(),
            args.push(n),
        ),
{
    lemma_lex_integer(s, p, n);
}

/// A comma and a space before the next integer.
proof fn lemma_read_int_comma(s: Seq<u8>, p: int, args: Seq<i64>)
    requires
        0 <= p,
        p + 2 <= s.len(),
        s[p] == COMMA,
        s[p + 1] == SPACE,
        args.len() > 0,
    ensures
        spec_int_args(s, p, args) == spec_int_arg(s, p + 2, args),
{
    lemma_lex_punctuation(s, p, COMMA);
    lemma_lex_space(s, p + 1);
    assert(spec_int_args(s, p, args) == spec_int_arg(s, p + 1, args));
}

/// The parenthesis that closes a list of integers.
proof fn lemma_read_int_close(s: Seq<u8>, p: int, args: Seq<i64>)
    requires
        0 <= p < s.len(),
        s[p] == PAREN_CLOSE,
        args.len() > 0,
    ensures
        spec_int_args(s, p, args) == Ok::<(Seq<i64>, int), SyntaxError>((args, p + 1)),
{
    lemma_lex_punctuation(s, p, PAREN_CLOSE);
}

/// One argument of a list of numbers is read and added to the list.
proof fn lemma_read_double_arg(s: Seq<u8>, p: int, t: Seq<u8>, args: Seq<DoubleView>)
    requires
        holds_at(s, p, t),
        is_double_text(t),
        delimited(s, p + t.len()),
    ensures
        spec_double_arg(s, p, args) == spec_double_args(
            s,
            p + t.len(),
            args.push(DoubleView::Finite(t)),
        ),
{
    if is_integer_literal(t) {
        lemma_integer_literal(int_of_text(t)->0);
    }
    lemma_lex_number(s, p, t);
}

/// A comma and a space before the next number.
proof fn lemma_read_double_comma(s: Seq<u8>, p: int, args: Seq<DoubleView>)
    requires
        0 <= p,
        p + 2 <= s.len(),
        s[p] == COMMA,
        s[p + 1] == SPACE,
        args.len() > 0,
    ensures
        spec_double_args(s, p, args) == spec_double_arg(s, p + 2, args),
{
    lemma_lex_punctuation(s, p, COMMA);
    lemma_lex_space(s, p + 1);
    assert(spec_double_args(s, p, args) == spec_double_arg(s, p + 1, args));
}

/// The parenthesis that closes a list of numbers.
proof fn lemma_read_double_close(s: Seq<u8>, p: int, args: Seq<DoubleView>)
    requires
        0 <= p < s.len(),
        s[p] == PAREN_CLOSE,
        args.len() > 0,
    ensures
        spec_double_args(s, p, args) == Ok::<(Seq<DoubleView>, int), SyntaxError>(
            (args, p + 1),
        ),
{
    lemma_lex_punctuation(s, p, PAREN_CLOSE);
}

/// A vector is read from its text.
proof fn lemma_read_vector(s: Seq<u8>, i: int, v: Vector2i)
    requires
        holds_at(s, i, render_vector(v)),
    ensures
        spec_parse_value(s, i) == Ok::<(ValueView, int), SyntaxError>(
            (ValueView::Vector2i(v), i + render_vector(v).len()),
        ),
{
    lemma_signs();
    lemma_constructors();
    lemma_words();
    let word = text("Vector2i");
    let x = int_text(v.x as int);
    let y = int_text(v.y as int);
    let comma = text(", ");
    let close = text(")");
    lemma_holds_split(s, i, text("Vector2i(") + x + comma + y, close);
    lemma_holds_split(s, i, text("Vector2i(") + x + comma, y);
    lemma_holds_split(s, i, text("Vector2i(") + x, comma);
    lemma_holds_split(s, i, text("Vector2i("), x);
    lemma_holds_split(s, i, word, seq![PAREN_OPEN]);
    let open = i + word.len();
    let at_first = open + 1;
    let behind_first = at_first + x.len();
    let at_second = behind_first + 2;
    let behind_second = at_second + y.len();
    assert(s[open] == seq![PAREN_OPEN][0]);
    assert(s[behind_first] == comma[0]);
    assert(s[behind_first + 1] == comma[1]);
    assert(s[behind_second] == close[0]);
    lemma_lex_identifier(s, i, word);
    lemma_lex_punctuation(s, open, PAREN_OPEN);
    assert(spec_expect(s, open, PAREN_OPEN, Expected::ParenthesisOpen) == Ok::<
        int,
        SyntaxError,
    >(at_first));
    let none = Seq::<i64>::empty();
    lemma_read_int_arg(s, at_first, v.x, none);
    lemma_read_int_comma(s, behind_first, none.push(v.x));
    lemma_read_int_arg(s, at_second, v.y, none.push(v.x));
    lemma_read_int_close(s, behind_second, none.push(v.x).push(v.y));
    assert(spec_int_args(s, at_first, none) == spec_int_arg(s, at_first, none));
    assert(spec_parse_int_constructor(s, open) == Ok::<(Seq<i64>, int), SyntaxError>(
        (none.push(v.x).push(v.y), behind_second + 1),
    ));
    assert(spec_parse_word(s, open, word) == Ok::<(ValueView, int), SyntaxError>(
        (ValueView::Vector2i(v), behind_second + 1),
    ));
}

/// The text of a colour of four components.
pub open spec fn rgba_text(r: Seq<u8>, g: Seq<u8>, b: Seq<u8>, a: Seq<u8>) -> Seq<u8> {
    render_color(
        ColorView::Rgba(
            DoubleView::Finite(r),
            DoubleView::Finite(g),
            DoubleView::Finite(b),
            DoubleView::Finite(a),
        ),
    )
}

/// Where the parts of a colour stand in its text.
proof fn lemma_rgba_parts(s: Seq<u8>, i: int, r: Seq<u8>, g: Seq<u8>, b: Seq<u8>, a: Seq<u8>)
    requires
        holds_at(s, i, rgba_text(r, g, b, a)),
    ensures
        rgba_text(r, g, b, a).len() == 13 + r.len() + g.len() + b.len() + a.len(),
        holds_at(s, i, text("Color")),
        s[i + 5] == PAREN_OPEN,
        holds_at(s, i + 6, r),
        s[i + 6 + r.len()] == COMMA,
        s[i + 7 + r.len()] == SPACE,
        holds_at(s, i + 8 + r.len(), g),
        s[i + 8 + r.len() + g.len()] == COMMA,
        s[i + 9 + r.len() + g.len()] == SPACE,
        holds_at(s, i + 10 + r.len() + g.len(), b),
        s[i + 10 + r.len() + g.len() + b.len()] == COMMA,
        s[i + 11 + r.len() + g.len() + b.len()] == SPACE,
        holds_at(s, i + 12 + r.len() + g.len() + b.len(), a),
        s[i + 12 + r.len() + g.len() + b.len() + a.len()] == PAREN_CLOSE,
        0 <= i,
        i + 13 + r.len() + g.len() + b.len() + a.len() <= s.len(),
{
    lemma_signs();
    lemma_constructors();
    let word = text("Color");
    let head = text("Color(");
    let comma = text(", ");
    let close = text(")");
    lemma_holds_split(s, i, head + r + comma + g + comma + b + comma + a, close);
    lemma_holds_split(s, i, head + r + comma + g + comma + b + comma, a);
    lemma_holds_split(s, i, head + r + comma + g + comma + b, comma);
    lemma_holds_split(s, i, head + r + comma + g + comma, b);
    lemma_holds_split(s, i, head + r + comma + g, comma);
    lemma_holds_split(s, i, head + r + comma, g);
    lemma_holds_split(s, i, head + r, comma);
    lemma_holds_split(s, i, head, r);
    lemma_holds_split(s, i, word, seq![PAREN_OPEN]);
    let behind_first = i + 6 + r.len();
    let behind_second = behind_first + 2 + g.len();
    let behind_third = behind_second + 2 + b.len();
    let behind_fourth = behind_third + 2 + a.len();
    assert(s[i + 5] == seq![PAREN_OPEN][0]);
    assert(s[behind_first] == comma[0]);
    assert(s[behind_first + 1] == comma[1]);
    assert(s[behind_second] == comma[0]);
    assert(s[behind_second + 1] == comma[1]);
    assert(s[behind_third] == comma[0]);
    assert(s[behind_third + 1] == comma[1]);
    assert(s[behind_fourth] == close[0]);
}

/// A list of four numbers is read from its text.
proof fn lemma_read_four(s: Seq<u8>, at_first: int, r: Seq<u8>, g: Seq<u8>, b: Seq<u8>, a: Seq<u8>)
    requires
        0 <= at_first,
        at_first + 7 + r.len() + g.len() + b.len() + a.len() <= s.len(),
        holds_at(s, at_first, r),
        s[at_first + r.len()] == COMMA,
        s[at_first + 1 + r.len()] == SPACE,
        holds_at(s, at_first + 2 + r.len(), g),
        s[at_first + 2 + r.len() + g.len()] == COMMA,
        s[at_first + 3 + r.len() + g.len()] == SPACE,
        holds_at(s, at_first + 4 + r.len() + g.len(), b),
        s[at_first + 4 + r.len() + g.len() + b.len()] == COMMA,
        s[at_first + 5 + r.len() + g.len() + b.len()] == SPACE,
        holds_at(s, at_first + 6 + r.len() + g.len() + b.len(), a),
        s[at_first + 6 + r.len() + g.len() + b.len() + a.len()] == PAREN_CLOSE,
        is_double_text(r),
        is_double_text(g),
        is_double_text(b),
        is_double_text(a),
    ensures
        spec_double_args(s, at_first, Seq::empty()) == Ok::<(Seq<DoubleView>, int), SyntaxError>(
            (
                seq![
                    DoubleView::Finite(r),
                    DoubleView::Finite(g),
                    DoubleView::Finite(b),
                    DoubleView::Finite(a),
                ],
                at_first + 7 + r.len() + g.len() + b.len() + a.len(),
            ),
        ),
{
    let behind_first = at_first + r.len();
    let at_second = behind_first + 2;
    let behind_second = at_second + g.len();
    let at_third = behind_second + 2;
    let behind_third = at_third + b.len();
    let at_fourth = behind_third + 2;
    let behind_fourth = at_fourth + a.len();
    let none = Seq::<DoubleView>::empty();
    let one = none.push(DoubleView::Finite(r));
    let two = one.push(DoubleView::Finite(g));
    let three = two.push(DoubleView::Finite(b));
    let four = three.push(DoubleView::Finite(a));
    lemma_read_double_arg(s, at_first, r, none);
    lemma_read_double_comma(s, behind_first, one);
    lemma_read_double_arg(s, at_second, g, one);
    lemma_read_double_comma(s, behind_second, two);
    lemma_read_double_arg(s, at_third, b, two);
    lemma_read_double_comma(s, behind_third, three);
    lemma_read_double_arg(s, at_fourth, a, three);
    lemma_read_double_close(s, behind_fourth, four);
    assert(spec_double_args(s, at_first, none) == spec_double_arg(s, at_first, none));
    assert(four =~= seq![
        DoubleView::Finite(r),
        DoubleView::Finite(g),
        DoubleView::Finite(b),
        DoubleView::Finite(a),
    ]);
}

/// A colour of four components is read from its text.
proof fn lemma_read_rgba(s: Seq<u8>, i: int, r: Seq<u8>, g: Seq<u8>, b: Seq<u8>, a: Seq<u8>)
    requires
        holds_at(s, i, rgba_text(r, g, b, a)),
        is_double_text(r),
        is_double_text(g),
        is_double_text(b),
        is_double_text(a),
    ensures
        spec_parse_value(s, i) == Ok::<(ValueView, int), SyntaxError>(
            (
                ValueView::Color(
                    ColorView::Rgba(
                        DoubleView::Finite(r),
                        DoubleView::Finite(g),
                        DoubleView::Finite(b),
                        DoubleView::Finite(a),
                    ),
                ),
                i + rgba_text(r, g, b, a).len(),
            ),
        ),
{
    lemma_rgba_parts(s, i, r, g, b, a);
    lemma_constructors();
    lemma_words();
    let word = text("Color");
    lemma_read_four(s, i + 6, r, g, b, a);
    lemma_lex_identifier(s, i, word);
    lemma_lex_punctuation(s, i + 5, PAREN_OPEN);
    assert(spec_expect(s, i + 5, PAREN_OPEN, Expected::ParenthesisOpen) == Ok::<
        int,
        SyntaxError,
    >(i + 6));
    let four = seq![
        DoubleView::Finite(r),
        DoubleView::Finite(g),
        DoubleView::Finite(b),
        DoubleView::Finite(a),
    ];
    let end = i + 13 + r.len() + g.len() + b.len() + a.len();
    assert(spec_parse_double_constructor(s, i + 5) == Ok::<
        (Seq<DoubleView>, int),
        SyntaxError,
    >((four, end)));
    assert(spec_parse_word(s, i + 5, word) == Ok::<(ValueView, int), SyntaxError>(
        (ValueView::Color(ColorView::Rgba(four[0], four[1], four[2], four[3])), end),
    ));
}

/// The argument of a reference is read from its text.
proof fn lemma_read_reference(s: Seq<u8>, open: int, id: Seq<u8>)
    requires
        holds_at(s, open, seq![PAREN_OPEN, QUOTE] + id + seq![QUOTE, PAREN_CLOSE]),
        is_quotable(id),
    ensures
        spec_parse_reference(s, open) == Ok::<(Seq<u8>, int), SyntaxError>(
            (id, open + id.len() + 4),
        ),
{
    let head = seq![PAREN_OPEN, QUOTE];
    let tail = seq![QUOTE, PAREN_CLOSE];
    lemma_holds_split(s, open, head + id, tail);
    lemma_holds_split(s, open, head, id);
    assert(s[open] == head[0]);
    assert(s[open + 1] == head[1]);
    assert(s[open + 2 + id.len()] == tail[0]);
    assert(s[open + 3 + id.len()] == tail[1]);
    lemma_lex_punctuation(s, open, PAREN_OPEN);
    assert(holds_at(s, open + 1, seq![QUOTE] + id + seq![QUOTE])) by {
        let quoted = seq![QUOTE] + id + seq![QUOTE];
        assert forall|k: int| 0 <= k < quoted.len() implies s[open + 1 + k]
            == #[trigger] quoted[k] by {
            if 1 <= k <= id.len() {
                assert(s[open + 2 + (k - 1)] == id[k - 1]);
            }
        }
    }
    lemma_lex_string(s, open + 1, id);
    lemma_lex_punctuation(s, open + 3 + id.len(), PAREN_CLOSE);
}

/// Whether the text of `v` ends at `j`: a delimiter stands there, as in every file, or
/// the input ends there. A colour literal is not read at the end of the input.
pub open spec fn value_ends(s: Seq<u8>, j: int, v: ValueView) -> bool {
    delimited(s, j) || (j == s.len() && !(v matches ValueView::Color(ColorView::Html(_))))
}

/// Reading the text of a value gives the value back.
///
/// The value that is read is equal to the one that was written, but for a whole number,
/// which is read as the integer with the same text.
pub proof fn lemma_read_value(s: Seq<u8>, i: int, v: ValueView)
    requires
        v.well_formed(),
        holds_at(s, i, render_value(v)),
        value_ends(s, i + render_value(v).len(), v),
    ensures
        spec_parse_value(s, i) == Ok::<(ValueView, int), SyntaxError>(
            (read_back_value(v), i + render_value(v).len()),
        ),
        render_value(read_back_value(v)) == render_value(v),
{
    lemma_signs();
    lemma_words();
    lemma_constructors();
    let t = render_value(v);
    let end = i + t.len();
    match v {
        ValueView::Null => {
            lemma_lex_identifier(s, i, t);
        },
        ValueView::Bool(b) => {
            lemma_lex_identifier(s, i, t);
        },
        ValueView::Integer(n) => {
            lemma_lex_integer(s, i, n);
        },
        ValueView::Double(d) => {
            match d {
                DoubleView::Finite(literal) => {
                    if is_integer_literal(literal) {
                        lemma_integer_literal(int_of_text(literal)->0);
                    }
                    lemma_lex_number(s, i, literal);
                },
                _ => {
                    lemma_lex_identifier(s, i, t);
                },
            }
        },
        ValueView::String(text) => {
            assert(t == seq![QUOTE] + text + seq![QUOTE]);
            lemma_lex_string(s, i, text);
        },
        ValueView::StringName(text) => {
            assert(t == seq![AMPERSAND, QUOTE] + text + seq![QUOTE]);
            lemma_lex_string_name(s, i, text);
        },
        ValueView::Color(c) => {
            match c {
                ColorView::Html(literal) => {
                    lemma_lex_color(s, i, literal);
                },
                ColorView::Rgba(r, g, b, a) => {
                    lemma_read_rgba(s, i, r->0, g->0, b->0, a->0);
                },
            }
        },
        ValueView::Vector2i(vector) => {
            lemma_read_vector(s, i, vector);
        },
        ValueView::SubResource(id) => {
            let word = crate::bytes::text("SubResource");
            assert(t =~= word + (seq![PAREN_OPEN, QUOTE] + id + seq![QUOTE, PAREN_CLOSE]));
            lemma_holds_split(s, i, word, seq![PAREN_OPEN, QUOTE] + id + seq![QUOTE, PAREN_CLOSE]);
            assert(s[i + word.len()] == (seq![PAREN_OPEN, QUOTE] + id + seq![
                QUOTE,
                PAREN_CLOSE,
            ])[0]);
            lemma_lex_identifier(s, i, word);
            lemma_read_reference(s, i + word.len(), id);
        },
        ValueView::ExtResource(id) => {
            let word = crate::bytes::text("ExtResource");
            assert(t =~= word + (seq![PAREN_OPEN, QUOTE] + id + seq![QUOTE, PAREN_CLOSE]));
            lemma_holds_split(s, i, word, seq![PAREN_OPEN, QUOTE] + id + seq![QUOTE, PAREN_CLOSE]);
            assert(s[i + word.len()] == (seq![PAREN_OPEN, QUOTE] + id + seq![
                QUOTE,
                PAREN_CLOSE,
            ])[0]);
            lemma_lex_identifier(s, i, word);
            lemma_read_reference(s, i + word.len(), id);
        },
    }
}

/// Whether every number of a list is finite and well formed.
pub open spec fn all_finite(args: Seq<DoubleView>) -> bool {
    forall|k: int| 0 <= k < args.len() ==> (#[trigger] args[k]).is_finite() && args[k].well_formed()
}

/// The numbers of a list that is read are finite and well formed.
proof fn lemma_double_args_read(s: Seq<u8>, i: int, args: Seq<DoubleView>)
    requires
        0 <= i <= s.len(),
        all_finite(args),
    ensures
        spec_double_args(s, i, args) matches Ok((all, _)) ==> all_finite(all),
        spec_double_arg(s, i, args) matches Ok((all, _)) ==> all_finite(all),
    decreases s.len() - i,
{
    crate::token::lemma_next_token_advances(s, i);
    crate::roundtrip::tokens::lemma_token_read(s, i);
    match spec_next_token(s, i) {
        Ok((Some(token), end)) => {
            lemma_double_args_read(s, end, args);
            match token {
                TokenView::Integer(n) => {
                    lemma_integer_literal(n);
                    let more = args.push(DoubleView::Finite(int_text(n as int)));
                    assert(all_finite(more));
                    lemma_double_args_read(s, end, more);
                },
                TokenView::Double(t) => {
                    let more = args.push(DoubleView::Finite(t));
                    assert(all_finite(more));
                    lemma_double_args_read(s, end, more);
                },
                _ => {},
            }
        },
        _ => {},
    }
}

/// The argument of a reference that is read can stand between quotes.
proof fn lemma_reference_read(s: Seq<u8>, i: int)
    requires
        0 <= i <= s.len(),
    ensures
        spec_parse_reference(s, i) matches Ok((id, _)) ==> is_quotable(id),
{
    crate::token::lemma_next_token_advances(s, i);
    if let Ok(open) = spec_expect(s, i, PAREN_OPEN, Expected::ParenthesisOpen) {
        crate::roundtrip::tokens::lemma_token_read(s, open);
    }
}

/// Every value that is read is well formed.
pub proof fn lemma_value_read(s: Seq<u8>, i: int)
    requires
        0 <= i <= s.len(),
    ensures
        spec_parse_value(s, i) matches Ok((v, _)) ==> v.well_formed(),
{
    crate::token::lemma_next_token_advances(s, i);
    crate::roundtrip::tokens::lemma_token_read(s, i);
    if let Ok((Some(token), end)) = spec_next_token(s, i) {
        if let TokenView::Identifier(word) = token {
            lemma_reference_read(s, end);
            crate::token::lemma_next_token_advances(s, end);
            if let Ok(open) = spec_expect(s, end, PAREN_OPEN, Expected::ParenthesisOpen) {
                lemma_double_args_read(s, open, Seq::empty());
                if let Ok((args, _)) = spec_double_args(s, open, Seq::empty()) {
                    if args.len() == 4 {
                        assert(args[0].is_finite() && args[1].is_finite() && args[2].is_finite()
                            && args[3].is_finite());
                    }
                }
            }
        }
    }
}

} // verus!
