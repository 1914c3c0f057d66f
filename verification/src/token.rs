//! The lexer: from bytes to tokens.

use vstd::prelude::*;
use crate::ascii::{
    in_class, is_digit, is_identifier_start, is_space, lemma_run_end, run_end, AMPERSAND, AT_SIGN,
    BRACKET_CLOSE, BRACKET_OPEN, ByteClass, COLON, COMMA, CURLY_CLOSE, CURLY_OPEN, EQUAL, HASH,
    LOWER_E, MINUS, NEWLINE, PAREN_CLOSE, PAREN_OPEN, PERIOD, PLUS, QUOTE, SEMICOLON,
};
use crate::bytes::copy_bytes;
use crate::error::SyntaxError;
use crate::literal::{lemma_number_shape, number_shape};
use crate::number::{int_of_text, parse_integer};

verus! {

/// One token of the format. A token that carries text carries it as it stands in the
/// input: nothing is decoded.
#[derive(Clone, Debug, PartialEq, Eq)]
pub enum Token {
    CurlyBracketOpen,
    CurlyBracketClose,
    BracketOpen,
    BracketClose,
    ParenthesisOpen,
    ParenthesisClose,
    Identifier(Vec<u8>),
    /// The text between two quotes.
    String(Vec<u8>),
    /// The text between two quotes behind `@` or `&`.
    StringName(Vec<u8>),
    Integer(i64),
    /// The text of a literal with a fraction or an exponent.
    Double(Vec<u8>),
    /// `#` and the hexadecimal digits that follow it.
    Color(Vec<u8>),
    Colon,
    Comma,
    Period,
    Equal,
}

pub enum TokenView {
    CurlyBracketOpen,
    CurlyBracketClose,
    BracketOpen,
    BracketClose,
    ParenthesisOpen,
    ParenthesisClose,
    Identifier(Seq<u8>),
    String(Seq<u8>),
    StringName(Seq<u8>),
    Integer(i64),
    Double(Seq<u8>),
    Color(Seq<u8>),
    Colon,
    Comma,
    Period,
    Equal,
}

impl View for Token {
    type V = TokenView;

    open spec fn view(&self) -> TokenView {
        match self {
            Token::CurlyBracketOpen => TokenView::CurlyBracketOpen,
            Token::CurlyBracketClose => TokenView::CurlyBracketClose,
            Token::BracketOpen => TokenView::BracketOpen,
            Token::BracketClose => TokenView::BracketClose,
            Token::ParenthesisOpen => TokenView::ParenthesisOpen,
            Token::ParenthesisClose => TokenView::ParenthesisClose,
            Token::Identifier(t) => TokenView::Identifier(t@),
            Token::String(t) => TokenView::String(t@),
            Token::StringName(t) => TokenView::StringName(t@),
            Token::Integer(n) => TokenView::Integer(*n),
            Token::Double(t) => TokenView::Double(t@),
            Token::Color(t) => TokenView::Color(t@),
            Token::Colon => TokenView::Colon,
            Token::Comma => TokenView::Comma,
            Token::Period => TokenView::Period,
            Token::Equal => TokenView::Equal,
        }
    }
}

impl Token {
    /// Whether this token is the byte of punctuation `b`.
    pub fn is_punctuation(&self, b: u8) -> (r: bool)
        ensures
            r == (punctuation(b) == Some(self@)),
    {
        match self {
            Token::CurlyBracketOpen => b == CURLY_OPEN,
            Token::CurlyBracketClose => b == CURLY_CLOSE,
            Token::BracketOpen => b == BRACKET_OPEN,
            Token::BracketClose => b == BRACKET_CLOSE,
            Token::ParenthesisOpen => b == PAREN_OPEN,
            Token::ParenthesisClose => b == PAREN_CLOSE,
            Token::Colon => b == COLON,
            Token::Comma => b == COMMA,
            Token::Period => b == PERIOD,
            Token::Equal => b == EQUAL,
            _ => false,
        }
    }
}

/// The view of a token that may be missing.
pub open spec fn token_view(token: Option<Token>) -> Option<TokenView> {
    match token {
        Some(t) => Some(t@),
        None => None,
    }
}

/// The first position at or after `i` that holds `b`, or the end of `s`.
pub open spec fn find_byte(s: Seq<u8>, i: int, b: u8) -> int
    decreases s.len() - i,
{
    if 0 <= i < s.len() && s[i] != b {
        find_byte(s, i + 1, b)
    } else {
        i
    }
}

pub proof fn lemma_find_byte(s: Seq<u8>, i: int, b: u8)
    requires
        0 <= i <= s.len(),
    ensures
        i <= find_byte(s, i, b) <= s.len(),
        forall|k: int| i <= k < find_byte(s, i, b) ==> #[trigger] s[k] != b,
        find_byte(s, i, b) < s.len() ==> s[find_byte(s, i, b)] == b,
    decreases s.len() - i,
{
    if i < s.len() && s[i] != b {
        lemma_find_byte(s, i + 1, b);
    }
}

/// `t` without its line feeds.
pub open spec fn without_newlines(t: Seq<u8>) -> Seq<u8>
    decreases t.len(),
{
    if t.len() == 0 {
        t
    } else if t.last() == NEWLINE {
        without_newlines(t.drop_last())
    } else {
        without_newlines(t.drop_last()).push(t.last())
    }
}

/// Where the line that holds position `i` ends: behind its line feed, or at the end of `s`.
pub open spec fn line_end(s: Seq<u8>, i: int) -> int {
    let feed = find_byte(s, i, NEWLINE);
    if feed < s.len() {
        feed + 1
    } else {
        feed
    }
}

/// The token that is a single byte of punctuation.
pub open spec fn punctuation(b: u8) -> Option<TokenView> {
    if b == CURLY_OPEN {
        Some(TokenView::CurlyBracketOpen)
    } else if b == CURLY_CLOSE {
        Some(TokenView::CurlyBracketClose)
    } else if b == BRACKET_OPEN {
        Some(TokenView::BracketOpen)
    } else if b == BRACKET_CLOSE {
        Some(TokenView::BracketClose)
    } else if b == PAREN_OPEN {
        Some(TokenView::ParenthesisOpen)
    } else if b == PAREN_CLOSE {
        Some(TokenView::ParenthesisClose)
    } else if b == COLON {
        Some(TokenView::Colon)
    } else if b == COMMA {
        Some(TokenView::Comma)
    } else if b == PERIOD {
        Some(TokenView::Period)
    } else if b == EQUAL {
        Some(TokenView::Equal)
    } else {
        None
    }
}

/// What lexing gives: a token and the position behind it, or no token at the end of the
/// input, or a failure.
pub type Lexed = Result<(Option<TokenView>, int), SyntaxError>;

/// The quoted string whose text begins at `start`, behind its opening quote. It runs to
/// the next quote; the line feeds inside it are no part of its text.
pub open spec fn string_text(s: Seq<u8>, start: int) -> Seq<u8> {
    without_newlines(s.subrange(start, find_byte(s, start, QUOTE)))
}

/// The number token that begins at `i`.
pub open spec fn number_token(s: Seq<u8>, i: int) -> Lexed {
    let shape = number_shape(s, i);
    let text = s.subrange(i, shape.end);
    if shape.is_float() {
        if shape.valid_float() {
            Ok((Some(TokenView::Double(text)), shape.end))
        } else {
            Err(SyntaxError::MalformedDouble)
        }
    } else {
        match int_of_text(text) {
            Some(n) => Ok((Some(TokenView::Integer(n)), shape.end)),
            None => Err(SyntaxError::MalformedInteger),
        }
    }
}

/// The token that begins at the first significant byte at or after `i`.
///
/// Bytes up to the space separate tokens. `;` begins a comment that runs to the end of
/// its line. A colour literal that the end of the input cuts short is no token.
pub open spec fn spec_next_token(s: Seq<u8>, i: int) -> Lexed
    decreases s.len() - i,
{
    if i < 0 || i >= s.len() {
        Ok((None, i))
    } else {
        let c = s[i];
        if punctuation(c) is Some {
            Ok((punctuation(c), i + 1))
        } else if c == SEMICOLON {
            let next = line_end(s, i + 1);
            if i < next < s.len() {
                spec_next_token(s, next)
            } else {
                Ok((None, s.len() as int))
            }
        } else if c == HASH {
            let end = run_end(s, i + 1, ByteClass::HexDigit);
            if end < s.len() {
                Ok((Some(TokenView::Color(s.subrange(i, end))), end))
            } else {
                Ok((None, s.len() as int))
            }
        } else if c == QUOTE {
            let close = find_byte(s, i + 1, QUOTE);
            if close < s.len() {
                Ok((Some(TokenView::String(string_text(s, i + 1))), close + 1))
            } else {
                Err(SyntaxError::UnterminatedString)
            }
        } else if c == AT_SIGN || c == AMPERSAND {
            if i + 1 < s.len() && s[i + 1] == QUOTE {
                let close = find_byte(s, i + 2, QUOTE);
                if close < s.len() {
                    Ok((Some(TokenView::StringName(string_text(s, i + 2))), close + 1))
                } else {
                    Err(SyntaxError::UnterminatedString)
                }
            } else {
                Err(SyntaxError::MissingQuote)
            }
        } else if c == MINUS || is_digit(c) {
            number_token(s, i)
        } else if is_identifier_start(c) {
            let end = run_end(s, i + 1, ByteClass::Identifier);
            Ok((Some(TokenView::Identifier(s.subrange(i, end))), end))
        } else if is_space(c) {
            spec_next_token(s, i + 1)
        } else {
            Err(SyntaxError::InvalidByte(c))
        }
    }
}

/// A token ends behind the place where the search for it began, and inside the input.
pub proof fn lemma_next_token_advances(s: Seq<u8>, i: int)
    requires
        0 <= i <= s.len(),
    ensures
        spec_next_token(s, i) matches Ok((token, end)) ==> i <= end <= s.len() && (token is Some
            ==> i < end),
    decreases s.len() - i,
{
    if i < s.len() {
        let c = s[i];
        if punctuation(c) is Some {
        } else if c == SEMICOLON {
            lemma_find_byte(s, i + 1, NEWLINE);
            if line_end(s, i + 1) < s.len() {
                lemma_next_token_advances(s, line_end(s, i + 1));
            }
        } else if c == HASH {
            lemma_run_end(s, i + 1, ByteClass::HexDigit);
        } else if c == QUOTE {
            lemma_find_byte(s, i + 1, QUOTE);
        } else if c == AT_SIGN || c == AMPERSAND {
            if i + 1 < s.len() && s[i + 1] == QUOTE {
                lemma_find_byte(s, i + 2, QUOTE);
            }
        } else if c == MINUS || is_digit(c) {
            lemma_number_shape(s, i);
        } else if is_identifier_start(c) {
            lemma_run_end(s, i + 1, ByteClass::Identifier);
        } else if is_space(c) {
            lemma_next_token_advances(s, i + 1);
        }
    }
}

/// A cursor over the bytes of a file. It hands out one byte at a time and lets its user
/// look at the next byte without taking it.
#[derive(Clone, Copy)]
pub struct Tokenizer<'a> {
    bytes: &'a [u8],
    pos: usize,
}

impl<'a> Tokenizer<'a> {
    /// The whole input.
    pub closed spec fn input(&self) -> Seq<u8> {
        self.bytes@
    }

    /// How many bytes of the input have been taken.
    pub closed spec fn position(&self) -> int {
        if self.pos <= self.bytes@.len() {
            self.pos as int
        } else {
            self.bytes@.len() as int
        }
    }

    /// The position is inside the input or at its end.
    pub proof fn lemma_position(&self)
        ensures
            0 <= self.position() <= self.input().len(),
    {
    }

    #[verifier::type_invariant]
    spec fn in_bounds(self) -> bool {
        self.pos <= self.bytes@.len()
    }

    /// A cursor at the beginning of `bytes`.
    pub fn new(bytes: &'a [u8]) -> (tokens: Self)
        ensures
            tokens.input() == bytes@,
            tokens.position() == 0,
    {
        Tokenizer { bytes, pos: 0 }
    }

    /// The next byte, which stays in the input; `None` at the end.
    pub fn peek_byte(&self) -> (b: Option<u8>)
        ensures
            0 <= self.position() <= self.input().len(),
            self.position() < self.input().len() ==> b == Some(self.input()[self.position()]),
            self.position() == self.input().len() ==> b is None,
    {
        proof {
            use_type_invariant(self);
        }
        if self.pos < self.bytes.len() {
            Some(self.bytes[self.pos])
        } else {
            None
        }
    }

    /// Takes the next byte; `None` at the end.
    pub fn next_byte(&mut self) -> (b: Option<u8>)
        ensures
            final(self).input() == old(self).input(),
            0 <= old(self).position() <= old(self).input().len(),
            old(self).position() < old(self).input().len() ==> b == Some(
                old(self).input()[old(self).position()],
            ) && final(self).position() == old(self).position() + 1,
            old(self).position() == old(self).input().len() ==> b is None && final(self).position()
                == old(self).position(),
    {
        proof {
            use_type_invariant(&*self);
        }
        if self.pos < self.bytes.len() {
            let b = self.bytes[self.pos];
            self.pos = self.pos + 1;
            Some(b)
        } else {
            None
        }
    }

    /// Whether every byte has been taken.
    pub fn at_end(&self) -> (r: bool)
        ensures
            0 <= self.position() <= self.input().len(),
            r == (self.position() == self.input().len()),
    {
        proof {
            use_type_invariant(self);
        }
        self.pos >= self.bytes.len()
    }

    /// Takes the bytes of `class` that come next.
    fn skip_run(&mut self, class: ByteClass)
        ensures
            final(self).input() == old(self).input(),
            final(self).position() == run_end(old(self).input(), old(self).position(), class),
            old(self).position() <= final(self).position() <= final(self).input().len(),
    {
        proof {
            use_type_invariant(&*self);
        }
        let ghost s = self.input();
        let ghost start = self.position();
        while self.pos < self.bytes.len() && in_class(class, self.bytes[self.pos])
            invariant
                self.bytes@ == s,
                s == old(self).input(),
                start == old(self).position(),
                0 <= start <= self.pos <= s.len(),
                run_end(s, self.pos as int, class) == run_end(s, start, class),
            decreases s.len() - self.pos,
        {
            self.pos = self.pos + 1;
        }
    }

    /// Takes the rest of the line, with the line feed that ends it.
    pub fn skip_line(&mut self)
        ensures
            final(self).input() == old(self).input(),
            final(self).position() == line_end(old(self).input(), old(self).position()),
            old(self).position() <= final(self).position() <= final(self).input().len(),
    {
        proof {
            use_type_invariant(&*self);
        }
        self.skip_to(NEWLINE);
        proof {
            use_type_invariant(&*self);
        }
        if self.pos < self.bytes.len() {
            self.pos = self.pos + 1;
        }
    }

    /// Takes every byte before the next `b`.
    fn skip_to(&mut self, b: u8)
        ensures
            final(self).input() == old(self).input(),
            final(self).position() == find_byte(old(self).input(), old(self).position(), b),
            old(self).position() <= final(self).position() <= final(self).input().len(),
    {
        proof {
            use_type_invariant(&*self);
        }
        let ghost s = self.input();
        let ghost start = self.position();
        while self.pos < self.bytes.len() && self.bytes[self.pos] != b
            invariant
                self.bytes@ == s,
                s == old(self).input(),
                start == old(self).position(),
                0 <= start <= self.pos <= s.len(),
                find_byte(s, self.pos as int, b) == find_byte(s, start, b),
            decreases s.len() - self.pos,
        {
            self.pos = self.pos + 1;
        }
    }

    /// Reads a quoted string from behind its opening quote to its closing quote.
    fn read_string(&mut self) -> (r: Result<Vec<u8>, SyntaxError>)
        ensures
            final(self).input() == old(self).input(),
            ({
                let s = old(self).input();
                let close = find_byte(s, old(self).position(), QUOTE);
                if close < s.len() {
                    &&& r matches Ok(text)
                    &&& text@ == string_text(s, old(self).position())
                    &&& final(self).position() == close + 1
                } else {
                    r == Err::<Vec<u8>, SyntaxError>(SyntaxError::UnterminatedString)
                }
            }),
    {
        proof {
            use_type_invariant(&*self);
        }
        let ghost s = self.input();
        let ghost start = self.position();
        let mut text: Vec<u8> = Vec::new();
        assert(s.subrange(start, start) =~= Seq::<u8>::empty());
        loop
            invariant
                self.bytes@ == s,
                s == old(self).input(),
                start == old(self).position(),
                0 <= start <= self.pos <= s.len(),
                find_byte(s, self.pos as int, QUOTE) == find_byte(s, start, QUOTE),
                text@ == without_newlines(s.subrange(start, self.pos as int)),
            decreases s.len() - self.pos,
        {
            let ghost before = self.pos as int;
            let next = self.next_byte();
            proof {
                use_type_invariant(&*self);
            }
            match next {
                None => {
                    return Err(SyntaxError::UnterminatedString);
                },
                Some(b) => {
                    if b == QUOTE {
                        return Ok(text);
                    }
                    assert(s.subrange(start, before + 1).drop_last() =~= s.subrange(
                        start,
                        before,
                    ));
                    if b != NEWLINE {
                        text.push(b);
                    }
                },
            }
        }
    }

    /// Reads the number literal that begins at `begin`, whose first byte has been taken.
    fn read_number(&mut self, begin: usize) -> (r: Result<Option<Token>, SyntaxError>)
        requires
            old(self).position() == begin + 1,
            old(self).input()[begin as int] == MINUS || is_digit(old(self).input()[begin as int]),
        ensures
            final(self).input() == old(self).input(),
            match number_token(old(self).input(), begin as int) {
                Ok((token, end)) => {
                    &&& r matches Ok(t)
                    &&& token_view(t) == token
                    &&& final(self).position() == end
                },
                Err(e) => r == Err::<Option<Token>, SyntaxError>(e),
            },
    {
        proof {
            use_type_invariant(&*self);
            lemma_number_shape(self.input(), begin as int);
        }
        let ghost s = self.input();
        let ghost shape = number_shape(s, begin as int);
        let digits_start: usize = if self.bytes[begin] == MINUS {
            begin + 1
        } else {
            begin
        };
        self.skip_run(ByteClass::Digit);
        proof {
            use_type_invariant(&*self);
        }
        let int_end = self.pos;
        assert(int_end == shape.int_end);
        let mut mantissa_digits: usize = int_end - digits_start;
        let mut is_float = false;
        let mut valid = true;
        if let Some(b) = self.peek_byte() {
            if b == PERIOD {
                self.pos = self.pos + 1;
                self.skip_run(ByteClass::Digit);
                proof {
                    use_type_invariant(&*self);
                }
                mantissa_digits = mantissa_digits + (self.pos - int_end - 1);
                is_float = true;
            }
        }
        assert(self.pos == shape.frac_end);
        if let Some(b) = self.peek_byte() {
            if b == LOWER_E {
                self.pos = self.pos + 1;
                is_float = true;
                if let Some(sign) = self.peek_byte() {
                    if sign == MINUS || sign == PLUS {
                        self.pos = self.pos + 1;
                    }
                }
                let exp_digits_start = self.pos;
                self.skip_run(ByteClass::Digit);
                proof {
                    use_type_invariant(&*self);
                }
                valid = self.pos > exp_digits_start;
            }
        }
        assert(self.pos == shape.end);
        let text = &self.bytes[begin..self.pos];
        if is_float {
            if valid && mantissa_digits >= 1 {
                Ok(Some(Token::Double(copy_bytes(text))))
            } else {
                Err(SyntaxError::MalformedDouble)
            }
        } else {
            match parse_integer(text) {
                Some(n) => Ok(Some(Token::Integer(n))),
                None => Err(SyntaxError::MalformedInteger),
            }
        }
    }

    /// The next token; `None` at the end of the input.
    pub fn next_token(&mut self) -> (r: Result<Option<Token>, SyntaxError>)
        ensures
            final(self).input() == old(self).input(),
            0 <= final(self).position() <= final(self).input().len(),
            match spec_next_token(old(self).input(), old(self).position()) {
                Ok((token, end)) => {
                    &&& r matches Ok(t)
                    &&& token_view(t) == token
                    &&& final(self).position() == end
                },
                Err(e) => r == Err::<Option<Token>, SyntaxError>(e),
            },
    {
        proof {
            use_type_invariant(&*self);
        }
        let ghost s = self.input();
        let ghost start = self.position();
        loop
            invariant
                self.bytes@ == s,
                s == old(self).input(),
                start == old(self).position(),
                0 <= self.pos <= s.len(),
                spec_next_token(s, self.pos as int) == spec_next_token(s, start),
            decreases s.len() - self.pos,
        {
            let begin = self.pos;
            let first = self.next_byte();
            proof {
                use_type_invariant(&*self);
            }
            let c = match first {
                Some(c) => c,
                None => {
                    return Ok(None);
                },
            };
            if c == CURLY_OPEN {
                return Ok(Some(Token::CurlyBracketOpen));
            } else if c == CURLY_CLOSE {
                return Ok(Some(Token::CurlyBracketClose));
            } else if c == BRACKET_OPEN {
                return Ok(Some(Token::BracketOpen));
            } else if c == BRACKET_CLOSE {
                return Ok(Some(Token::BracketClose));
            } else if c == PAREN_OPEN {
                return Ok(Some(Token::ParenthesisOpen));
            } else if c == PAREN_CLOSE {
                return Ok(Some(Token::ParenthesisClose));
            } else if c == COLON {
                return Ok(Some(Token::Colon));
            } else if c == COMMA {
                return Ok(Some(Token::Comma));
            } else if c == PERIOD {
                return Ok(Some(Token::Period));
            } else if c == EQUAL {
                return Ok(Some(Token::Equal));
            } else if c == SEMICOLON {
                proof {
                    lemma_find_byte(s, self.pos as int, NEWLINE);
                }
                self.skip_line();
                proof {
                    use_type_invariant(&*self);
                }
                if self.pos >= self.bytes.len() {
                    return Ok(None);
                }
            } else if c == HASH {
                self.skip_run(ByteClass::HexDigit);
                proof {
                    use_type_invariant(&*self);
                }
                if self.pos >= self.bytes.len() {
                    return Ok(None);
                }
                let text = copy_bytes(&self.bytes[begin..self.pos]);
                return Ok(Some(Token::Color(text)));
            } else if c == QUOTE {
                let text = self.read_string();
                proof {
                    use_type_invariant(&*self);
                }
                return match text {
                    Ok(text) => Ok(Some(Token::String(text))),
                    Err(e) => Err(e),
                };
            } else if c == AT_SIGN || c == AMPERSAND {
                let quote = self.next_byte();
                proof {
                    use_type_invariant(&*self);
                }
                match quote {
                    Some(q) => {
                        if q != QUOTE {
                            return Err(SyntaxError::MissingQuote);
                        }
                    },
                    None => {
                        return Err(SyntaxError::MissingQuote);
                    },
                }
                let text = self.read_string();
                proof {
                    use_type_invariant(&*self);
                }
                return match text {
                    Ok(text) => Ok(Some(Token::StringName(text))),
                    Err(e) => Err(e),
                };
            } else if c == MINUS || is_digit(c) {
                let number = self.read_number(begin);
                proof {
                    use_type_invariant(&*self);
                }
                return number;
            } else if is_identifier_start(c) {
                self.skip_run(ByteClass::Identifier);
                proof {
                    use_type_invariant(&*self);
                }
                let text = copy_bytes(&self.bytes[begin..self.pos]);
                return Ok(Some(Token::Identifier(text)));
            } else if is_space(c) {
            } else {
                return Err(SyntaxError::InvalidByte(c));
            }
        }
    }
}

} // verus!
