//! The parser: from tokens to values, tags and files.

use vstd::prelude::*;
use crate::ascii::{
    is_space, BRACKET_OPEN, COLON, EQUAL, PAREN_CLOSE, PAREN_OPEN, PERIOD, QUOTE, SEMICOLON,
};
use crate::bytes::{is_text, push_bytes, text};
use crate::document::{
    lemma_deep_view_prefix, lemma_deep_view_push, Field, FieldView, GodotFile, GodotFileView, Tag,
    TagAssign, TagAssignView, TagView,
};
use crate::error::{Constructor, Expected, ParseError, SyntaxError};
use crate::number::{fmt_integer, int_text};
use crate::token::{
    lemma_find_byte, lemma_next_token_advances, line_end, punctuation, spec_next_token, Token,
    TokenView, Tokenizer,
};
use crate::value::{Color, ColorView, Double, DoubleView, Value, ValueView, Vector2i};

verus! {

/// The serialization format that is understood.
pub const FORMAT_VERSION: i64 = 3;

/// What parsing gives: a result and the position behind it, or a failure.
pub type Parsed<T> = Result<(T, int), SyntaxError>;

/// Asks for the byte of punctuation `b` as next token: the position behind it.
pub open spec fn spec_expect(s: Seq<u8>, i: int, b: u8, expected: Expected) -> Result<
    int,
    SyntaxError,
> {
    match spec_next_token(s, i) {
        Err(e) => Err(e),
        Ok((None, _)) => Err(SyntaxError::UnexpectedEnd(expected)),
        Ok((Some(token), end)) => if punctuation(b) == Some(token) {
            Ok(end)
        } else {
            Err(SyntaxError::UnexpectedToken(expected))
        },
    }
}

/// The rest of a list of integer arguments, `args` having been read: a comma and the
/// next argument, or the closing parenthesis. An empty list has no comma.
pub open spec fn spec_int_args(s: Seq<u8>, i: int, args: Seq<i64>) -> Parsed<Seq<i64>>
    decreases s.len() - i, 1int,
    when 0 <= i <= s.len()
{
    if args.len() > 0 {
        match spec_next_token(s, i) {
            Err(e) => Err(e),
            Ok((None, _)) => Err(SyntaxError::UnexpectedEnd(Expected::CommaOrParenthesisClose)),
            Ok((Some(TokenView::Comma), end)) => {
                proof {
                    lemma_next_token_advances(s, i);
                }
                spec_int_arg(s, end, args)
            },
            Ok((Some(TokenView::ParenthesisClose), end)) => Ok((args, end)),
            Ok((Some(_), _)) => Err(
                SyntaxError::UnexpectedToken(Expected::CommaOrParenthesisClose),
            ),
        }
    } else {
        spec_int_arg(s, i, args)
    }
}

/// One integer argument and the rest of the list; in place of the first argument the
/// closing parenthesis may stand.
pub open spec fn spec_int_arg(s: Seq<u8>, i: int, args: Seq<i64>) -> Parsed<Seq<i64>>
    decreases s.len() - i, 0int,
    when 0 <= i <= s.len()
{
    match spec_next_token(s, i) {
        Err(e) => Err(e),
        Ok((None, _)) => Err(SyntaxError::UnexpectedEnd(Expected::Integer)),
        Ok((Some(TokenView::Integer(n)), end)) => {
            proof {
                lemma_next_token_advances(s, i);
            }
            spec_int_args(s, end, args.push(n))
        },
        Ok((Some(token), end)) => if token == TokenView::ParenthesisClose && args.len() == 0 {
            Ok((args, end))
        } else {
            Err(SyntaxError::UnexpectedToken(Expected::Integer))
        },
    }
}

/// A parenthesised list of integers, separated by commas.
pub open spec fn spec_parse_int_constructor(s: Seq<u8>, i: int) -> Parsed<Seq<i64>> {
    match spec_expect(s, i, PAREN_OPEN, Expected::ParenthesisOpen) {
        Err(e) => Err(e),
        Ok(open) => spec_int_args(s, open, Seq::empty()),
    }
}

/// The rest of a list of numbers, `args` having been read.
pub open spec fn spec_double_args(s: Seq<u8>, i: int, args: Seq<DoubleView>) -> Parsed<
    Seq<DoubleView>,
>
    decreases s.len() - i, 1int,
    when 0 <= i <= s.len()
{
    if args.len() > 0 {
        match spec_next_token(s, i) {
            Err(e) => Err(e),
            Ok((None, _)) => Err(SyntaxError::UnexpectedEnd(Expected::CommaOrParenthesisClose)),
            Ok((Some(TokenView::Comma), end)) => {
                proof {
                    lemma_next_token_advances(s, i);
                }
                spec_double_arg(s, end, args)
            },
            Ok((Some(TokenView::ParenthesisClose), end)) => Ok((args, end)),
            Ok((Some(_), _)) => Err(
                SyntaxError::UnexpectedToken(Expected::CommaOrParenthesisClose),
            ),
        }
    } else {
        spec_double_arg(s, i, args)
    }
}

/// One number and the rest of the list. An integer literal stands for the number of the
/// same value.
pub open spec fn spec_double_arg(s: Seq<u8>, i: int, args: Seq<DoubleView>) -> Parsed<
    Seq<DoubleView>,
>
    decreases s.len() - i, 0int,
    when 0 <= i <= s.len()
{
    match spec_next_token(s, i) {
        Err(e) => Err(e),
        Ok((None, _)) => Err(SyntaxError::UnexpectedEnd(Expected::Float)),
        Ok((Some(TokenView::Integer(n)), end)) => {
            proof {
                lemma_next_token_advances(s, i);
            }
            spec_double_args(s, end, args.push(DoubleView::Finite(int_text(n as int))))
        },
        Ok((Some(TokenView::Double(t)), end)) => {
            proof {
                lemma_next_token_advances(s, i);
            }
            spec_double_args(s, end, args.push(DoubleView::Finite(t)))
        },
        Ok((Some(token), end)) => if token == TokenView::ParenthesisClose && args.len() == 0 {
            Ok((args, end))
        } else {
            Err(SyntaxError::UnexpectedToken(Expected::Float))
        },
    }
}

/// A parenthesised list of numbers, separated by commas.
pub open spec fn spec_parse_double_constructor(s: Seq<u8>, i: int) -> Parsed<Seq<DoubleView>> {
    match spec_expect(s, i, PAREN_OPEN, Expected::ParenthesisOpen) {
        Err(e) => Err(e),
        Ok(open) => spec_double_args(s, open, Seq::empty()),
    }
}

/// The argument of a reference: one quoted string in parentheses.
pub open spec fn spec_parse_reference(s: Seq<u8>, i: int) -> Parsed<Seq<u8>> {
    match spec_expect(s, i, PAREN_OPEN, Expected::ParenthesisOpen) {
        Err(e) => Err(e),
        Ok(open) => match spec_next_token(s, open) {
            Err(e) => Err(e),
            Ok((None, _)) => Err(SyntaxError::UnexpectedEnd(Expected::StringArgument)),
            Ok((Some(TokenView::String(id)), end)) => match spec_expect(
                s,
                end,
                PAREN_CLOSE,
                Expected::ParenthesisClose,
            ) {
                Err(e) => Err(e),
                Ok(close) => Ok((id, close)),
            },
            Ok((Some(_), _)) => Err(SyntaxError::UnexpectedToken(Expected::StringArgument)),
        },
    }
}

/// The value that the bare word `word` begins, the word having been read up to `i`.
pub open spec fn spec_parse_word(s: Seq<u8>, i: int, word: Seq<u8>) -> Parsed<ValueView> {
    if word == text("true") {
        Ok((ValueView::Bool(true), i))
    } else if word == text("false") {
        Ok((ValueView::Bool(false), i))
    } else if word == text("null") || word == text("nil") {
        Ok((ValueView::Null, i))
    } else if word == text("inf") {
        Ok((ValueView::Double(DoubleView::Infinity), i))
    } else if word == text("neg_inf") {
        Ok((ValueView::Double(DoubleView::NegInfinity), i))
    } else if word == text("nan") {
        Ok((ValueView::Double(DoubleView::Nan), i))
    } else if word == text("Vector2i") {
        match spec_parse_int_constructor(s, i) {
            Err(e) => Err(e),
            Ok((args, end)) => if args.len() == 2 {
                Ok((ValueView::Vector2i(Vector2i { x: args[0], y: args[1] }), end))
            } else {
                Err(SyntaxError::WrongArgumentCount(Constructor::Vector2i))
            },
        }
    } else if word == text("Color") {
        match spec_parse_double_constructor(s, i) {
            Err(e) => Err(e),
            Ok((args, end)) => if args.len() == 4 {
                Ok((ValueView::Color(ColorView::Rgba(args[0], args[1], args[2], args[3])), end))
            } else {
                Err(SyntaxError::WrongArgumentCount(Constructor::Color))
            },
        }
    } else if word == text("SubResource") {
        match spec_parse_reference(s, i) {
            Err(e) => Err(e),
            Ok((id, end)) => Ok((ValueView::SubResource(id), end)),
        }
    } else if word == text("ExtResource") {
        match spec_parse_reference(s, i) {
            Err(e) => Err(e),
            Ok((id, end)) => Ok((ValueView::ExtResource(id), end)),
        }
    } else {
        Err(SyntaxError::UnsupportedValue)
    }
}

/// The value that stands at the first significant byte at or after `i`.
pub open spec fn spec_parse_value(s: Seq<u8>, i: int) -> Parsed<ValueView> {
    match spec_next_token(s, i) {
        Err(e) => Err(e),
        Ok((None, _)) => Err(SyntaxError::UnexpectedEnd(Expected::Value)),
        Ok((Some(token), end)) => match token {
            TokenView::Identifier(word) => spec_parse_word(s, end, word),
            TokenView::Integer(n) => Ok((ValueView::Integer(n), end)),
            TokenView::Double(t) => Ok((ValueView::Double(DoubleView::Finite(t)), end)),
            TokenView::String(t) => Ok((ValueView::String(t), end)),
            TokenView::StringName(t) => Ok((ValueView::StringName(t), end)),
            TokenView::Color(t) => Ok((ValueView::Color(ColorView::Html(t)), end)),
            _ => Err(SyntaxError::UnexpectedToken(Expected::Value)),
        },
    }
}

/// Whether `=` is the next token at `i`: an identifier before it then begins a field.
pub open spec fn begins_field(s: Seq<u8>, i: int) -> bool {
    spec_next_token(s, i) matches Ok((Some(TokenView::Equal), _))
}

/// The failure of an identifier that begins no field where one is required.
pub open spec fn missing_equal(s: Seq<u8>, i: int) -> SyntaxError {
    match spec_next_token(s, i) {
        Err(e) => e,
        Ok((None, _)) => SyntaxError::UnexpectedEnd(Expected::Equal),
        Ok((Some(_), _)) => SyntaxError::UnexpectedToken(Expected::Equal),
    }
}

/// The rest of a tag's header up to its closing bracket, `name` and `fields` having been
/// read. While `in_name` holds no field has begun: identifiers, periods and colons are
/// added to the name. An identifier with `=` behind it begins a field, and from the first
/// field on nothing but fields may follow.
pub open spec fn spec_tag_body(
    s: Seq<u8>,
    i: int,
    name: Seq<u8>,
    fields: Seq<FieldView>,
    in_name: bool,
) -> Parsed<TagView>
    decreases s.len() - i,
    when 0 <= i <= s.len()
{
    match spec_next_token(s, i) {
        Err(e) => Err(e),
        Ok((None, _)) => Err(SyntaxError::UnexpectedEnd(Expected::BracketClose)),
        Ok((Some(token), end)) => {
            proof {
                lemma_next_token_advances(s, i);
            }
            match token {
                TokenView::BracketClose => Ok(
                    (TagView { name, fields, assigns: Seq::empty() }, end),
                ),
                TokenView::Identifier(id) => if begins_field(s, end) {
                    match spec_parse_value(s, spec_next_token(s, end)->Ok_0.1) {
                        Err(e) => Err(e),
                        Ok((value, after)) => if end < after <= s.len() {
                            spec_tag_body(
                                s,
                                after,
                                name,
                                fields.push(FieldView { identifier: id, value }),
                                false,
                            )
                        } else {
                            Err(SyntaxError::UnexpectedEnd(Expected::BracketClose))
                        },
                    }
                } else if in_name {
                    spec_tag_body(s, end, name + id, fields, true)
                } else {
                    Err(missing_equal(s, end))
                },
                TokenView::Period => if in_name {
                    spec_tag_body(s, end, name.push(PERIOD), fields, true)
                } else {
                    Err(SyntaxError::UnexpectedToken(Expected::Identifier))
                },
                TokenView::Colon => if in_name {
                    spec_tag_body(s, end, name.push(COLON), fields, true)
                } else {
                    Err(SyntaxError::UnexpectedToken(Expected::Identifier))
                },
                _ => Err(SyntaxError::UnexpectedToken(Expected::Identifier)),
            }
        },
    }
}

/// The tag whose opening bracket is the next token at `i`; no tag at the end of the
/// input. The first token behind the bracket is an identifier, with which the name begins.
pub open spec fn spec_parse_tag(s: Seq<u8>, i: int) -> Parsed<Option<TagView>> {
    match spec_next_token(s, i) {
        Err(e) => Err(e),
        Ok((None, end)) => Ok((None, end)),
        Ok((Some(TokenView::BracketOpen), open)) => match spec_next_token(s, open) {
            Err(e) => Err(e),
            Ok((None, _)) => Err(SyntaxError::UnexpectedEnd(Expected::TagName)),
            Ok((Some(TokenView::Identifier(name)), end)) => match spec_tag_body(
                s,
                end,
                name,
                Seq::empty(),
                true,
            ) {
                Err(e) => Err(e),
                Ok((tag, after)) => Ok((Some(tag), after)),
            },
            Ok((Some(_), _)) => Err(SyntaxError::UnexpectedToken(Expected::TagName)),
        },
        Ok((Some(_), _)) => Err(SyntaxError::UnexpectedToken(Expected::BracketOpen)),
    }
}

/// What the end of the input means for a property line: with no path begun there is no
/// further line, else the `=` is missing.
pub open spec fn assign_at_end(path: Seq<u8>, i: int) -> Parsed<Option<TagAssignView>> {
    if path.len() == 0 {
        Ok((None, i))
    } else {
        Err(SyntaxError::UnexpectedEnd(Expected::Equal))
    }
}

/// The property line that begins at `i`, `path` having been read of it.
///
/// The path is made of the bytes before `=`: bytes up to the space are skipped, a
/// comment is skipped, a quoted string adds its text. Behind `=` stands the value. An
/// opening bracket before any byte of a path is left in place and ends the lines of the tag.
pub open spec fn spec_parse_assign(s: Seq<u8>, i: int, path: Seq<u8>) -> Parsed<
    Option<TagAssignView>,
>
    decreases s.len() - i,
{
    if i < 0 || i >= s.len() {
        assign_at_end(path, i)
    } else {
        let c = s[i];
        if c == SEMICOLON {
            let next = line_end(s, i + 1);
            if i < next < s.len() {
                spec_parse_assign(s, next, path)
            } else {
                assign_at_end(path, s.len() as int)
            }
        } else if c == BRACKET_OPEN && path.len() == 0 {
            Ok((None, i))
        } else if c == QUOTE {
            match spec_next_token(s, i) {
                Err(e) => Err(e),
                Ok((Some(TokenView::String(t)), end)) => if i < end {
                    spec_parse_assign(s, end, path + t)
                } else {
                    Err(SyntaxError::UnterminatedString)
                },
                Ok(_) => Err(SyntaxError::UnterminatedString),
            }
        } else if c == EQUAL {
            match spec_parse_value(s, i + 1) {
                Err(e) => Err(e),
                Ok((value, end)) => Ok((Some(TagAssignView { assign: path, value }), end)),
            }
        } else if is_space(c) {
            spec_parse_assign(s, i + 1, path)
        } else {
            spec_parse_assign(s, i + 1, path.push(c))
        }
    }
}

/// The property lines of a tag from `i` on, `assigns` having been read.
pub open spec fn spec_parse_assigns(s: Seq<u8>, i: int, assigns: Seq<TagAssignView>) -> Parsed<
    Seq<TagAssignView>,
>
    decreases s.len() - i,
{
    match spec_parse_assign(s, i, Seq::empty()) {
        Err(e) => Err(e),
        Ok((None, end)) => Ok((assigns, end)),
        Ok((Some(assign), end)) => if i < end <= s.len() {
            spec_parse_assigns(s, end, assigns.push(assign))
        } else {
            Ok((assigns, end))
        },
    }
}

/// The position of the first field named `name` at or after `from`.
pub open spec fn first_field(fields: Seq<FieldView>, name: Seq<u8>, from: int) -> Option<int>
    decreases fields.len() - from,
{
    if from < 0 || from >= fields.len() {
        None
    } else if fields[from].identifier == name {
        Some(from)
    } else {
        first_field(fields, name, from + 1)
    }
}

/// A header without a `format` field is accepted; with one, its first must hold the
/// supported version as an integer.
pub open spec fn format_supported(header: TagView) -> bool {
    match first_field(header.fields, text("format"), 0) {
        None => true,
        Some(k) => header.fields[k].value == ValueView::Integer(FORMAT_VERSION),
    }
}

/// The tag at `i` together with its property lines; `index` is its place among the tags.
pub open spec fn spec_parse_block(s: Seq<u8>, i: int, index: usize) -> Result<
    (Option<TagView>, int),
    ParseError,
> {
    match spec_parse_tag(s, i) {
        Err(error) => Err(ParseError::Tag { index, error }),
        Ok((None, end)) => Ok((None, end)),
        Ok((Some(tag), end)) => match spec_parse_assigns(s, end, Seq::empty()) {
            Err(error) => Err(ParseError::Assign { index, error }),
            Ok((assigns, after)) => Ok(
                (Some(TagView { name: tag.name, fields: tag.fields, assigns }), after),
            ),
        },
    }
}

/// The tags from `i` to the end of the input, each with its property lines, `tags`
/// having been read.
pub open spec fn spec_parse_tags(s: Seq<u8>, i: int, tags: Seq<TagView>) -> Result<
    Seq<TagView>,
    ParseError,
>
    decreases s.len() - i,
{
    match spec_parse_block(s, i, tags.len() as usize) {
        Err(e) => Err(e),
        Ok((None, _)) => Ok(tags),
        Ok((Some(tag), after)) => if i < after <= s.len() {
            spec_parse_tags(s, after, tags.push(tag))
        } else {
            Ok(tags)
        },
    }
}

/// The file that a text holds: a header tag of a supported format, then tags with their
/// property lines up to the end.
pub open spec fn spec_parse_file(s: Seq<u8>) -> Result<GodotFileView, ParseError> {
    match spec_parse_tag(s, 0) {
        Err(error) => Err(ParseError::Header(error)),
        Ok((None, _)) => Err(ParseError::EmptyFile),
        Ok((Some(header), end)) => if !format_supported(header) {
            Err(ParseError::UnsupportedFormat)
        } else {
            match spec_parse_tags(s, end, Seq::empty()) {
                Err(e) => Err(e),
                Ok(tags) => Ok(GodotFileView { header, tags }),
            }
        },
    }
}

pub proof fn lemma_expect_advances(s: Seq<u8>, i: int, b: u8, expected: Expected)
    requires
        0 <= i <= s.len(),
    ensures
        spec_expect(s, i, b, expected) matches Ok(end) ==> i < end <= s.len(),
{
    lemma_next_token_advances(s, i);
}

pub proof fn lemma_int_args_advance(s: Seq<u8>, i: int, args: Seq<i64>)
    requires
        0 <= i <= s.len(),
    ensures
        spec_int_args(s, i, args) matches Ok((_, end)) ==> i < end <= s.len(),
        spec_int_arg(s, i, args) matches Ok((_, end)) ==> i < end <= s.len(),
    decreases s.len() - i,
{
    lemma_next_token_advances(s, i);
    match spec_next_token(s, i) {
        Ok((Some(token), end)) => {
            lemma_int_args_advance(s, end, args);
            if let TokenView::Integer(n) = token {
                lemma_int_args_advance(s, end, args.push(n));
            }
        },
        _ => {},
    }
}

pub proof fn lemma_double_args_advance(s: Seq<u8>, i: int, args: Seq<DoubleView>)
    requires
        0 <= i <= s.len(),
    ensures
        spec_double_args(s, i, args) matches Ok((_, end)) ==> i < end <= s.len(),
        spec_double_arg(s, i, args) matches Ok((_, end)) ==> i < end <= s.len(),
    decreases s.len() - i,
{
    lemma_next_token_advances(s, i);
    match spec_next_token(s, i) {
        Ok((Some(token), end)) => {
            lemma_double_args_advance(s, end, args);
            match token {
                TokenView::Integer(n) => {
                    lemma_double_args_advance(
                        s,
                        end,
                        args.push(DoubleView::Finite(int_text(n as int))),
                    );
                },
                TokenView::Double(t) => {
                    lemma_double_args_advance(s, end, args.push(DoubleView::Finite(t)));
                },
                _ => {},
            }
        },
        _ => {},
    }
}

pub proof fn lemma_reference_advances(s: Seq<u8>, i: int)
    requires
        0 <= i <= s.len(),
    ensures
        spec_parse_reference(s, i) matches Ok((_, end)) ==> i < end <= s.len(),
{
    lemma_expect_advances(s, i, PAREN_OPEN, Expected::ParenthesisOpen);
    if let Ok(open) = spec_expect(s, i, PAREN_OPEN, Expected::ParenthesisOpen) {
        lemma_next_token_advances(s, open);
        if let Ok((Some(_), end)) = spec_next_token(s, open) {
            lemma_expect_advances(s, end, PAREN_CLOSE, Expected::ParenthesisClose);
        }
    }
}

/// A value ends behind the place where the search for it began, and inside the input.
pub proof fn lemma_value_advances(s: Seq<u8>, i: int)
    requires
        0 <= i <= s.len(),
    ensures
        spec_parse_value(s, i) matches Ok((_, end)) ==> i < end <= s.len(),
{
    lemma_next_token_advances(s, i);
    if let Ok((Some(_), end)) = spec_next_token(s, i) {
        lemma_reference_advances(s, end);
        lemma_expect_advances(s, end, PAREN_OPEN, Expected::ParenthesisOpen);
        if let Ok(open) = spec_expect(s, end, PAREN_OPEN, Expected::ParenthesisOpen) {
            lemma_int_args_advance(s, open, Seq::empty());
            lemma_double_args_advance(s, open, Seq::empty());
        }
    }
}

/// Asks for the byte of punctuation `b` as next token.
fn expect(tokens: &mut Tokenizer, b: u8, expected: Expected) -> (r: Result<(), SyntaxError>)
    ensures
        final(tokens).input() == old(tokens).input(),
        0 <= final(tokens).position() <= final(tokens).input().len(),
        match spec_expect(old(tokens).input(), old(tokens).position(), b, expected) {
            Ok(end) => r is Ok && final(tokens).position() == end,
            Err(e) => r == Err::<(), SyntaxError>(e),
        },
{
    match tokens.next_token() {
        Err(e) => Err(e),
        Ok(None) => Err(SyntaxError::UnexpectedEnd(expected)),
        Ok(Some(token)) => if token.is_punctuation(b) {
            Ok(())
        } else {
            Err(SyntaxError::UnexpectedToken(expected))
        },
    }
}

/// The views of the numbers of a vector.
pub open spec fn doubles_view(args: Seq<Double>) -> Seq<DoubleView> {
    args.map_values(|d: Double| d@)
}

impl Value {
    /// Reads a parenthesised list of integers, separated by commas.
    pub fn parse_int_constructor(tokens: &mut Tokenizer) -> (r: Result<Vec<i64>, SyntaxError>)
        ensures
            final(tokens).input() == old(tokens).input(),
            0 <= final(tokens).position() <= final(tokens).input().len(),
            match spec_parse_int_constructor(old(tokens).input(), old(tokens).position()) {
                Ok((args, end)) => {
                    &&& r matches Ok(v)
                    &&& v@ == args
                    &&& final(tokens).position() == end
                },
                Err(e) => r == Err::<Vec<i64>, SyntaxError>(e),
            },
    {
        let ghost s = tokens.input();
        match expect(tokens, PAREN_OPEN, Expected::ParenthesisOpen) {
            Err(e) => {
                return Err(e);
            },
            Ok(_) => {},
        }
        let ghost open = tokens.position();
        let mut args: Vec<i64> = Vec::new();
        loop
            invariant
                tokens.input() == s,
                s == old(tokens).input(),
                0 <= tokens.position() <= s.len(),
                spec_int_args(s, tokens.position(), args@) == spec_int_args(s, open, Seq::empty()),
                spec_parse_int_constructor(s, old(tokens).position()) == spec_int_args(
                    s,
                    open,
                    Seq::empty(),
                ),
            decreases s.len() - tokens.position(),
        {
            if args.len() > 0 {
                proof {
                    lemma_next_token_advances(s, tokens.position());
                }
                match tokens.next_token() {
                    Err(e) => {
                        return Err(e);
                    },
                    Ok(None) => {
                        return Err(
                            SyntaxError::UnexpectedEnd(Expected::CommaOrParenthesisClose),
                        );
                    },
                    Ok(Some(Token::Comma)) => {},
                    Ok(Some(Token::ParenthesisClose)) => {
                        return Ok(args);
                    },
                    Ok(Some(_)) => {
                        return Err(
                            SyntaxError::UnexpectedToken(Expected::CommaOrParenthesisClose),
                        );
                    },
                }
            }
            proof {
                lemma_next_token_advances(s, tokens.position());
            }
            match tokens.next_token() {
                Err(e) => {
                    return Err(e);
                },
                Ok(None) => {
                    return Err(SyntaxError::UnexpectedEnd(Expected::Integer));
                },
                Ok(Some(Token::Integer(value))) => {
                    args.push(value);
                },
                Ok(Some(token)) => {
                    if token.is_punctuation(PAREN_CLOSE) && args.len() == 0 {
                        return Ok(args);
                    }
                    return Err(SyntaxError::UnexpectedToken(Expected::Integer));
                },
            }
        }
    }

    /// Reads a parenthesised list of numbers, separated by commas. An integer literal is
    /// taken as the number of the same value.
    pub fn parse_double_constructor(tokens: &mut Tokenizer) -> (r: Result<
        Vec<Double>,
        SyntaxError,
    >)
        ensures
            final(tokens).input() == old(tokens).input(),
            0 <= final(tokens).position() <= final(tokens).input().len(),
            match spec_parse_double_constructor(old(tokens).input(), old(tokens).position()) {
                Ok((args, end)) => {
                    &&& r matches Ok(v)
                    &&& doubles_view(v@) == args
                    &&& final(tokens).position() == end
                },
                Err(e) => r == Err::<Vec<Double>, SyntaxError>(e),
            },
    {
        let ghost s = tokens.input();
        match expect(tokens, PAREN_OPEN, Expected::ParenthesisOpen) {
            Err(e) => {
                return Err(e);
            },
            Ok(_) => {},
        }
        let ghost open = tokens.position();
        let mut args: Vec<Double> = Vec::new();
        assert(doubles_view(args@) =~= Seq::empty());
        loop
            invariant
                tokens.input() == s,
                s == old(tokens).input(),
                0 <= tokens.position() <= s.len(),
                spec_double_args(s, tokens.position(), doubles_view(args@)) == spec_double_args(
                    s,
                    open,
                    Seq::empty(),
                ),
                spec_parse_double_constructor(s, old(tokens).position()) == spec_double_args(
                    s,
                    open,
                    Seq::empty(),
                ),
            decreases s.len() - tokens.position(),
        {
            if args.len() > 0 {
                proof {
                    lemma_next_token_advances(s, tokens.position());
                }
                match tokens.next_token() {
                    Err(e) => {
                        return Err(e);
                    },
                    Ok(None) => {
                        return Err(
                            SyntaxError::UnexpectedEnd(Expected::CommaOrParenthesisClose),
                        );
                    },
                    Ok(Some(Token::Comma)) => {},
                    Ok(Some(Token::ParenthesisClose)) => {
                        return Ok(args);
                    },
                    Ok(Some(_)) => {
                        return Err(
                            SyntaxError::UnexpectedToken(Expected::CommaOrParenthesisClose),
                        );
                    },
                }
            }
            proof {
                lemma_next_token_advances(s, tokens.position());
            }
            let ghost before = args@;
            match tokens.next_token() {
                Err(e) => {
                    return Err(e);
                },
                Ok(None) => {
                    return Err(SyntaxError::UnexpectedEnd(Expected::Float));
                },
                Ok(Some(Token::Integer(value))) => {
                    let mut literal: Vec<u8> = Vec::new();
                    fmt_integer(value, &mut literal);
                    assert(literal@ =~= int_text(value as int));
                    args.push(Double::Finite(literal));
                    assert(doubles_view(args@) =~= doubles_view(before).push(
                        DoubleView::Finite(int_text(value as int)),
                    ));
                },
                Ok(Some(Token::Double(literal))) => {
                    let ghost t = literal@;
                    args.push(Double::Finite(literal));
                    assert(doubles_view(args@) =~= doubles_view(before).push(
                        DoubleView::Finite(t),
                    ));
                },
                Ok(Some(token)) => {
                    if token.is_punctuation(PAREN_CLOSE) && args.len() == 0 {
                        return Ok(args);
                    }
                    return Err(SyntaxError::UnexpectedToken(Expected::Float));
                },
            }
        }
    }

    /// Reads the argument of a reference: one quoted string in parentheses.
    fn parse_reference(tokens: &mut Tokenizer) -> (r: Result<Vec<u8>, SyntaxError>)
        ensures
            final(tokens).input() == old(tokens).input(),
            0 <= final(tokens).position() <= final(tokens).input().len(),
            match spec_parse_reference(old(tokens).input(), old(tokens).position()) {
                Ok((id, end)) => {
                    &&& r matches Ok(v)
                    &&& v@ == id
                    &&& final(tokens).position() == end
                },
                Err(e) => r == Err::<Vec<u8>, SyntaxError>(e),
            },
    {
        match expect(tokens, PAREN_OPEN, Expected::ParenthesisOpen) {
            Err(e) => {
                return Err(e);
            },
            Ok(_) => {},
        }
        let id = match tokens.next_token() {
            Err(e) => {
                return Err(e);
            },
            Ok(None) => {
                return Err(SyntaxError::UnexpectedEnd(Expected::StringArgument));
            },
            Ok(Some(Token::String(id))) => id,
            Ok(Some(_)) => {
                return Err(SyntaxError::UnexpectedToken(Expected::StringArgument));
            },
        };
        match expect(tokens, PAREN_CLOSE, Expected::ParenthesisClose) {
            Err(e) => Err(e),
            Ok(_) => Ok(id),
        }
    }

    /// Reads the value that the bare word `word` begins.
    fn parse_word(tokens: &mut Tokenizer, word: &[u8]) -> (r: Result<Value, SyntaxError>)
        requires
            0 <= old(tokens).position() <= old(tokens).input().len(),
        ensures
            final(tokens).input() == old(tokens).input(),
            0 <= final(tokens).position() <= final(tokens).input().len(),
            match spec_parse_word(old(tokens).input(), old(tokens).position(), word@) {
                Ok((value, end)) => {
                    &&& r matches Ok(v)
                    &&& v@ == value
                    &&& final(tokens).position() == end
                },
                Err(e) => r == Err::<Value, SyntaxError>(e),
            },
    {
        if is_text(word, "true") {
            Ok(Value::Bool(true))
        } else if is_text(word, "false") {
            Ok(Value::Bool(false))
        } else if is_text(word, "null") || is_text(word, "nil") {
            Ok(Value::Null)
        } else if is_text(word, "inf") {
            Ok(Value::Double(Double::Infinity))
        } else if is_text(word, "neg_inf") {
            Ok(Value::Double(Double::NegInfinity))
        } else if is_text(word, "nan") {
            Ok(Value::Double(Double::Nan))
        } else if is_text(word, "Vector2i") {
            match Value::parse_int_constructor(tokens) {
                Err(e) => Err(e),
                Ok(args) => if args.len() == 2 {
                    Ok(Value::Vector2i(Vector2i { x: args[0], y: args[1] }))
                } else {
                    Err(SyntaxError::WrongArgumentCount(Constructor::Vector2i))
                },
            }
        } else if is_text(word, "Color") {
            match Value::parse_double_constructor(tokens) {
                Err(e) => Err(e),
                Ok(mut args) => if args.len() == 4 {
                    let ghost all = doubles_view(args@);
                    let a = args.pop().unwrap();
                    let b = args.pop().unwrap();
                    let g = args.pop().unwrap();
                    let r = args.pop().unwrap();
                    assert(r@ == all[0] && g@ == all[1] && b@ == all[2] && a@ == all[3]);
                    Ok(Value::Color(Color::Rgba(r, g, b, a)))
                } else {
                    Err(SyntaxError::WrongArgumentCount(Constructor::Color))
                },
            }
        } else if is_text(word, "SubResource") {
            match Value::parse_reference(tokens) {
                Err(e) => Err(e),
                Ok(id) => Ok(Value::SubResource(id)),
            }
        } else if is_text(word, "ExtResource") {
            match Value::parse_reference(tokens) {
                Err(e) => Err(e),
                Ok(id) => Ok(Value::ExtResource(id)),
            }
        } else {
            Err(SyntaxError::UnsupportedValue)
        }
    }

    /// Reads the next value.
    pub fn parse(tokens: &mut Tokenizer) -> (r: Result<Value, SyntaxError>)
        ensures
            final(tokens).input() == old(tokens).input(),
            0 <= final(tokens).position() <= final(tokens).input().len(),
            match spec_parse_value(old(tokens).input(), old(tokens).position()) {
                Ok((value, end)) => {
                    &&& r matches Ok(v)
                    &&& v@ == value
                    &&& final(tokens).position() == end
                },
                Err(e) => r == Err::<Value, SyntaxError>(e),
            },
            r matches Ok(v) ==> v@.well_formed(),
    {
        proof {
            tokens.lemma_position();
            crate::roundtrip::values::lemma_value_read(tokens.input(), tokens.position());
        }
        match tokens.next_token() {
            Err(e) => Err(e),
            Ok(None) => Err(SyntaxError::UnexpectedEnd(Expected::Value)),
            Ok(Some(token)) => match token {
                Token::Identifier(word) => Value::parse_word(tokens, word.as_slice()),
                Token::Integer(n) => Ok(Value::Integer(n)),
                Token::Double(t) => Ok(Value::Double(Double::Finite(t))),
                Token::String(t) => Ok(Value::String(t)),
                Token::StringName(t) => Ok(Value::StringName(t)),
                Token::Color(t) => Ok(Value::Color(Color::Html(t))),
                _ => Err(SyntaxError::UnexpectedToken(Expected::Value)),
            },
        }
    }
}

pub proof fn lemma_tag_body_advances(
    s: Seq<u8>,
    i: int,
    name: Seq<u8>,
    fields: Seq<FieldView>,
    in_name: bool,
)
    requires
        0 <= i <= s.len(),
    ensures
        spec_tag_body(s, i, name, fields, in_name) matches Ok((_, end)) ==> i < end <= s.len(),
    decreases s.len() - i,
{
    lemma_next_token_advances(s, i);
    if let Ok((Some(token), end)) = spec_next_token(s, i) {
        match token {
            TokenView::Identifier(id) => {
                if begins_field(s, end) {
                    if let Ok((value, after)) = spec_parse_value(
                        s,
                        spec_next_token(s, end)->Ok_0.1,
                    ) {
                        if end < after <= s.len() {
                            lemma_tag_body_advances(
                                s,
                                after,
                                name,
                                fields.push(FieldView { identifier: id, value }),
                                false,
                            );
                        }
                    }
                } else if in_name {
                    lemma_tag_body_advances(s, end, name + id, fields, true);
                }
            },
            TokenView::Period => {
                if in_name {
                    lemma_tag_body_advances(s, end, name.push(PERIOD), fields, true);
                }
            },
            TokenView::Colon => {
                if in_name {
                    lemma_tag_body_advances(s, end, name.push(COLON), fields, true);
                }
            },
            _ => {},
        }
    }
}

/// A tag ends behind the place where the search for it began; without a tag the
/// position is the end of the input.
pub proof fn lemma_tag_advances(s: Seq<u8>, i: int)
    requires
        0 <= i <= s.len(),
    ensures
        spec_parse_tag(s, i) matches Ok((tag, end)) ==> i <= end <= s.len() && (tag is Some ==> i
            < end),
{
    lemma_next_token_advances(s, i);
    if let Ok((Some(_), open)) = spec_next_token(s, i) {
        lemma_next_token_advances(s, open);
        if let Ok((Some(TokenView::Identifier(name)), end)) = spec_next_token(s, open) {
            lemma_tag_body_advances(s, end, name, Seq::empty(), true);
        }
    }
}

/// A property line ends behind the place where the search for it began.
pub proof fn lemma_assign_advances(s: Seq<u8>, i: int, path: Seq<u8>)
    requires
        0 <= i <= s.len(),
    ensures
        spec_parse_assign(s, i, path) matches Ok((assign, end)) ==> i <= end <= s.len() && (assign
            is Some ==> i < end),
    decreases s.len() - i,
{
    if i < s.len() {
        let c = s[i];
        if c == SEMICOLON {
            lemma_find_byte(s, i + 1, crate::ascii::NEWLINE);
            let next = line_end(s, i + 1);
            if i < next < s.len() {
                lemma_assign_advances(s, next, path);
            }
        } else if c == BRACKET_OPEN && path.len() == 0 {
        } else if c == QUOTE {
            lemma_next_token_advances(s, i);
            if let Ok((Some(TokenView::String(t)), end)) = spec_next_token(s, i) {
                lemma_assign_advances(s, end, path + t);
            }
        } else if c == EQUAL {
            lemma_value_advances(s, i + 1);
        } else if is_space(c) {
            lemma_assign_advances(s, i + 1, path);
        } else {
            lemma_assign_advances(s, i + 1, path.push(c));
        }
    }
}

pub proof fn lemma_assigns_advance(s: Seq<u8>, i: int, assigns: Seq<TagAssignView>)
    requires
        0 <= i <= s.len(),
    ensures
        spec_parse_assigns(s, i, assigns) matches Ok((_, end)) ==> i <= end <= s.len(),
    decreases s.len() - i,
{
    lemma_assign_advances(s, i, Seq::empty());
    if let Ok((Some(assign), end)) = spec_parse_assign(s, i, Seq::empty()) {
        lemma_assigns_advance(s, end, assigns.push(assign));
    }
}

/// Whether a lexer's result is the token `=`.
fn is_equal_sign(next: &Result<Option<Token>, SyntaxError>) -> (r: bool)
    ensures
        r == (next matches Ok(Some(Token::Equal))),
{
    match next {
        Ok(Some(Token::Equal)) => true,
        _ => false,
    }
}

impl Tag {
    /// Reads the next tag, without the property lines behind it; `None` at the end of
    /// the input.
    pub fn parse(tokens: &mut Tokenizer) -> (r: Result<Option<Tag>, SyntaxError>)
        ensures
            final(tokens).input() == old(tokens).input(),
            0 <= final(tokens).position() <= final(tokens).input().len(),
            match spec_parse_tag(old(tokens).input(), old(tokens).position()) {
                Ok((tag, end)) => {
                    &&& r matches Ok(t)
                    &&& t.deep_view() == tag
                    &&& final(tokens).position() == end
                },
                Err(e) => r == Err::<Option<Tag>, SyntaxError>(e),
            },
    {
        let ghost s = tokens.input();
        match tokens.next_token() {
            Err(e) => {
                return Err(e);
            },
            Ok(None) => {
                return Ok(None);
            },
            Ok(Some(Token::BracketOpen)) => {},
            Ok(Some(_)) => {
                return Err(SyntaxError::UnexpectedToken(Expected::BracketOpen));
            },
        }
        let mut name = match tokens.next_token() {
            Err(e) => {
                return Err(e);
            },
            Ok(None) => {
                return Err(SyntaxError::UnexpectedEnd(Expected::TagName));
            },
            Ok(Some(Token::Identifier(name))) => name,
            Ok(Some(_)) => {
                return Err(SyntaxError::UnexpectedToken(Expected::TagName));
            },
        };
        let ghost body = spec_tag_body(s, tokens.position(), name@, Seq::empty(), true);
        let mut fields: Vec<Field> = Vec::new();
        let mut in_name = true;
        assert(fields.deep_view() =~= Seq::empty());
        loop
            invariant
                tokens.input() == s,
                s == old(tokens).input(),
                0 <= tokens.position() <= s.len(),
                spec_tag_body(s, tokens.position(), name@, fields.deep_view(), in_name) == body,
                match body {
                    Ok((tag, end)) => spec_parse_tag(s, old(tokens).position()) == Ok::<
                        (Option<TagView>, int),
                        SyntaxError,
                    >((Some(tag), end)),
                    Err(e) => spec_parse_tag(s, old(tokens).position()) == Err::<
                        (Option<TagView>, int),
                        SyntaxError,
                    >(e),
                },
            decreases s.len() - tokens.position(),
        {
            proof {
                lemma_next_token_advances(s, tokens.position());
            }
            let token = match tokens.next_token() {
                Err(e) => {
                    return Err(e);
                },
                Ok(None) => {
                    return Err(SyntaxError::UnexpectedEnd(Expected::BracketClose));
                },
                Ok(Some(token)) => token,
            };
            match token {
                Token::BracketClose => {
                    let tag = Tag { name, fields, assigns: Vec::new() };
                    assert(tag.assigns.deep_view() =~= Seq::empty());
                    return Ok(Some(tag));
                },
                Token::Identifier(id) => {
                    proof {
                        lemma_next_token_advances(s, tokens.position());
                    }
                    let mut ahead = *tokens;
                    let next = ahead.next_token();
                    if is_equal_sign(&next) {
                        *tokens = ahead;
                        proof {
                            lemma_value_advances(s, tokens.position());
                        }
                        let value = match Value::parse(tokens) {
                            Err(e) => {
                                return Err(e);
                            },
                            Ok(value) => value,
                        };
                        let field = Field { identifier: id, value };
                        let ghost before = fields;
                        fields.push(field);
                        proof {
                            lemma_deep_view_push(before, fields, field);
                        }
                        in_name = false;
                    } else if in_name {
                        push_bytes(&mut name, id.as_slice());
                    } else {
                        return Err(
                            match next {
                                Err(e) => e,
                                Ok(None) => SyntaxError::UnexpectedEnd(Expected::Equal),
                                Ok(Some(_)) => SyntaxError::UnexpectedToken(Expected::Equal),
                            },
                        );
                    }
                },
                Token::Period => {
                    if !in_name {
                        return Err(SyntaxError::UnexpectedToken(Expected::Identifier));
                    }
                    name.push(PERIOD);
                },
                Token::Colon => {
                    if !in_name {
                        return Err(SyntaxError::UnexpectedToken(Expected::Identifier));
                    }
                    name.push(COLON);
                },
                _ => {
                    return Err(SyntaxError::UnexpectedToken(Expected::Identifier));
                },
            }
        }
    }
}

impl TagAssign {
    /// Reads the next property line; `None` where the next tag begins or the input ends.
    pub fn parse(tokens: &mut Tokenizer) -> (r: Result<Option<TagAssign>, SyntaxError>)
        ensures
            final(tokens).input() == old(tokens).input(),
            0 <= final(tokens).position() <= final(tokens).input().len(),
            match spec_parse_assign(old(tokens).input(), old(tokens).position(), Seq::empty()) {
                Ok((assign, end)) => {
                    &&& r matches Ok(a)
                    &&& a.deep_view() == assign
                    &&& final(tokens).position() == end
                },
                Err(e) => r == Err::<Option<TagAssign>, SyntaxError>(e),
            },
    {
        let ghost s = tokens.input();
        let ghost start = tokens.position();
        let mut path: Vec<u8> = Vec::new();
        proof {
            tokens.lemma_position();
        }
        loop
            invariant
                tokens.input() == s,
                s == old(tokens).input(),
                start == old(tokens).position(),
                0 <= tokens.position() <= s.len(),
                spec_parse_assign(s, tokens.position(), path@) == spec_parse_assign(
                    s,
                    start,
                    Seq::empty(),
                ),
            decreases s.len() - tokens.position(),
        {
            let c = match tokens.peek_byte() {
                None => {
                    if path.len() == 0 {
                        return Ok(None);
                    }
                    return Err(SyntaxError::UnexpectedEnd(Expected::Equal));
                },
                Some(c) => c,
            };
            if c == SEMICOLON {
                tokens.next_byte();
                proof {
                    lemma_find_byte(s, tokens.position(), crate::ascii::NEWLINE);
                }
                tokens.skip_line();
                if tokens.at_end() {
                    if path.len() == 0 {
                        return Ok(None);
                    }
                    return Err(SyntaxError::UnexpectedEnd(Expected::Equal));
                }
            } else if c == BRACKET_OPEN && path.len() == 0 {
                return Ok(None);
            } else if c == QUOTE {
                proof {
                    lemma_next_token_advances(s, tokens.position());
                }
                match tokens.next_token() {
                    Err(e) => {
                        return Err(e);
                    },
                    Ok(Some(Token::String(t))) => {
                        push_bytes(&mut path, t.as_slice());
                    },
                    Ok(_) => {
                        return Err(SyntaxError::UnterminatedString);
                    },
                }
            } else if c == EQUAL {
                tokens.next_byte();
                return match Value::parse(tokens) {
                    Err(e) => Err(e),
                    Ok(value) => Ok(Some(TagAssign { assign: path, value })),
                };
            } else if is_space(c) {
                tokens.next_byte();
            } else {
                tokens.next_byte();
                path.push(c);
            }
        }
    }

    /// Reads the property lines of a tag.
    pub fn parse_all(tokens: &mut Tokenizer) -> (r: Result<Vec<TagAssign>, SyntaxError>)
        ensures
            final(tokens).input() == old(tokens).input(),
            0 <= final(tokens).position() <= final(tokens).input().len(),
            match spec_parse_assigns(old(tokens).input(), old(tokens).position(), Seq::empty()) {
                Ok((assigns, end)) => {
                    &&& r matches Ok(a)
                    &&& a.deep_view() == assigns
                    &&& final(tokens).position() == end
                },
                Err(e) => r == Err::<Vec<TagAssign>, SyntaxError>(e),
            },
    {
        let ghost s = tokens.input();
        let ghost start = tokens.position();
        let mut assigns: Vec<TagAssign> = Vec::new();
        assert(assigns.deep_view() =~= Seq::empty());
        proof {
            tokens.lemma_position();
        }
        loop
            invariant
                tokens.input() == s,
                s == old(tokens).input(),
                start == old(tokens).position(),
                0 <= tokens.position() <= s.len(),
                spec_parse_assigns(s, tokens.position(), assigns.deep_view())
                    == spec_parse_assigns(s, start, Seq::empty()),
            decreases s.len() - tokens.position(),
        {
            proof {
                lemma_assign_advances(s, tokens.position(), Seq::empty());
            }
            match TagAssign::parse(tokens) {
                Err(e) => {
                    return Err(e);
                },
                Ok(None) => {
                    return Ok(assigns);
                },
                Ok(Some(assign)) => {
                    let ghost before = assigns;
                    assigns.push(assign);
                    proof {
                        lemma_deep_view_push(before, assigns, assign);
                    }
                },
            }
        }
    }
}

/// The position of the first field named `name`.
pub fn find_field(fields: &Vec<Field>, name: &str) -> (r: Option<usize>)
    ensures
        match r {
            Some(k) => first_field(fields.deep_view(), text(name), 0) == Some(k as int) && k
                < fields@.len(),
            None => first_field(fields.deep_view(), text(name), 0) is None,
        },
{
    let mut i: usize = 0;
    while i < fields.len()
        invariant
            i <= fields.len(),
            first_field(fields.deep_view(), text(name), i as int) == first_field(
                fields.deep_view(),
                text(name),
                0,
            ),
        decreases fields.len() - i,
    {
        proof {
            lemma_deep_view_prefix(*fields, 0);
        }
        if is_text(fields[i].identifier.as_slice(), name) {
            return Some(i);
        }
        i = i + 1;
    }
    None
}

/// Whether the header names no format or the supported one.
pub fn has_supported_format(header: &Tag) -> (r: bool)
    ensures
        r == format_supported(header@),
{
    proof {
        lemma_deep_view_prefix(header.fields, 0);
    }
    match find_field(&header.fields, "format") {
        None => true,
        Some(k) => {
            let value = &header.fields[k].value;
            assert(value@ == header@.fields[k as int].value);
            match value {
                Value::Integer(n) => *n == FORMAT_VERSION,
                _ => false,
            }
        },
    }
}

/// A block ends behind the place where the search for it began.
pub proof fn lemma_block_advances(s: Seq<u8>, i: int, index: usize)
    requires
        0 <= i <= s.len(),
    ensures
        spec_parse_block(s, i, index) matches Ok((tag, end)) ==> i <= end <= s.len() && (tag is Some
            ==> i < end),
{
    lemma_tag_advances(s, i);
    if let Ok((Some(_), end)) = spec_parse_tag(s, i) {
        lemma_assigns_advance(s, end, Seq::empty());
    }
}

/// Reads the next tag with its property lines; `index` is its place among the tags.
fn parse_block(tokens: &mut Tokenizer, index: usize) -> (r: Result<Option<Tag>, ParseError>)
    ensures
        final(tokens).input() == old(tokens).input(),
        match spec_parse_block(old(tokens).input(), old(tokens).position(), index) {
            Ok((tag, end)) => {
                &&& r matches Ok(t)
                &&& t.deep_view() == tag
                &&& final(tokens).position() == end
            },
            Err(e) => r == Err::<Option<Tag>, ParseError>(e),
        },
{
    let head = match Tag::parse(tokens) {
        Err(error) => {
            return Err(ParseError::Tag { index, error });
        },
        Ok(None) => {
            return Ok(None);
        },
        Ok(Some(head)) => head,
    };
    let assigns = match TagAssign::parse_all(tokens) {
        Err(error) => {
            return Err(ParseError::Assign { index, error });
        },
        Ok(assigns) => assigns,
    };
    Ok(Some(Tag { name: head.name, fields: head.fields, assigns }))
}

/// Reads the text of a file: the header tag, then every tag with its property lines.
///
/// The header must be there and must name no serialization format but the supported
/// one. Any failure gives up the whole file.
pub fn parse_file(bytes: &[u8]) -> (r: Result<GodotFile, ParseError>)
    ensures
        match spec_parse_file(bytes@) {
            Ok(file) => r matches Ok(f) && f@ == file,
            Err(e) => r == Err::<GodotFile, ParseError>(e),
        },
{
    let mut tokens = Tokenizer::new(bytes);
    let ghost s = bytes@;
    let header = match Tag::parse(&mut tokens) {
        Err(e) => {
            return Err(ParseError::Header(e));
        },
        Ok(None) => {
            return Err(ParseError::EmptyFile);
        },
        Ok(Some(header)) => header,
    };
    if !has_supported_format(&header) {
        return Err(ParseError::UnsupportedFormat);
    }
    let ghost start = tokens.position();
    let mut tags: Vec<Tag> = Vec::new();
    assert(tags.deep_view() =~= Seq::empty());
    loop
        invariant
            tokens.input() == s,
            s == bytes@,
            0 <= tokens.position() <= s.len(),
            spec_parse_tags(s, tokens.position(), tags.deep_view()) == spec_parse_tags(
                s,
                start,
                Seq::empty(),
            ),
            spec_parse_file(s) == (match spec_parse_tags(s, start, Seq::empty()) {
                Ok(all) => Ok::<GodotFileView, ParseError>(
                    GodotFileView { header: header@, tags: all },
                ),
                Err(e) => Err::<GodotFileView, ParseError>(e),
            }),
        decreases s.len() - tokens.position(),
    {
        proof {
            lemma_block_advances(s, tokens.position(), tags.len());
            assert(tags.deep_view().len() == tags@.len());
        }
        match parse_block(&mut tokens, tags.len()) {
            Err(e) => {
                return Err(e);
            },
            Ok(None) => {
                return Ok(GodotFile { header, tags });
            },
            Ok(Some(tag)) => {
                let ghost before = tags;
                let ghost at = tokens.position();
                tags.push(tag);
                proof {
                    lemma_deep_view_push(before, tags, tag);
                    assert(before.deep_view().len() == before@.len());
                }
            },
        }
    }
}

} // verus!
