//! The failures of reading a resource file.

use vstd::prelude::*;

verus! {

/// The three families of failure.
#[derive(Clone, Copy, Debug, PartialEq, Eq, Structural)]
pub enum ErrorKind {
    /// A byte or a literal that is no part of the format.
    Lexical,
    /// A token out of place, or the end of the input inside a tag or a value.
    Grammar,
    /// Well-formed text that does not say what is asked of it.
    Schema,
}

/// What the parser asked for when it met something else.
#[derive(Clone, Copy, Debug, PartialEq, Eq, Structural)]
pub enum Expected {
    BracketOpen,
    BracketClose,
    TagName,
    Identifier,
    Equal,
    Value,
    ParenthesisOpen,
    ParenthesisClose,
    CommaOrParenthesisClose,
    Integer,
    Float,
    StringArgument,
}

/// The constructors with a fixed number of arguments.
#[derive(Clone, Copy, Debug, PartialEq, Eq, Structural)]
pub enum Constructor {
    Vector2i,
    Color,
}

/// A failure inside one tag, value or property line.
#[derive(Clone, Copy, Debug, PartialEq, Eq, Structural)]
pub enum SyntaxError {
    /// A byte that begins no token.
    InvalidByte(u8),
    /// The input ended inside a quoted string.
    UnterminatedString,
    /// `@` or `&` without the quote that must follow it.
    MissingQuote,
    /// An integer literal without digits, or too large for 64 bits.
    MalformedInteger,
    /// A literal with a fraction or an exponent that is no decimal number.
    MalformedDouble,
    /// Another token stands where this one was required.
    UnexpectedToken(Expected),
    /// The input ended where this token was required.
    UnexpectedEnd(Expected),
    /// A bare word in the place of a value that names no value.
    UnsupportedValue,
    /// A constructor with too few or too many arguments.
    WrongArgumentCount(Constructor),
}

impl SyntaxError {
    pub open spec fn spec_kind(self) -> ErrorKind {
        match self {
            SyntaxError::InvalidByte(_) => ErrorKind::Lexical,
            SyntaxError::UnterminatedString => ErrorKind::Lexical,
            SyntaxError::MissingQuote => ErrorKind::Lexical,
            SyntaxError::MalformedInteger => ErrorKind::Lexical,
            SyntaxError::MalformedDouble => ErrorKind::Lexical,
            SyntaxError::UnexpectedToken(_) => ErrorKind::Grammar,
            SyntaxError::UnexpectedEnd(_) => ErrorKind::Grammar,
            SyntaxError::UnsupportedValue => ErrorKind::Schema,
            SyntaxError::WrongArgumentCount(_) => ErrorKind::Grammar,
        }
    }

    /// The family of this failure.
    #[verifier::when_used_as_spec(spec_kind)]
    pub fn kind(self) -> (k: ErrorKind)
        ensures
            k == self.spec_kind(),
    {
        match self {
            SyntaxError::InvalidByte(_) => ErrorKind::Lexical,
            SyntaxError::UnterminatedString => ErrorKind::Lexical,
            SyntaxError::MissingQuote => ErrorKind::Lexical,
            SyntaxError::MalformedInteger => ErrorKind::Lexical,
            SyntaxError::MalformedDouble => ErrorKind::Lexical,
            SyntaxError::UnexpectedToken(_) => ErrorKind::Grammar,
            SyntaxError::UnexpectedEnd(_) => ErrorKind::Grammar,
            SyntaxError::UnsupportedValue => ErrorKind::Schema,
            SyntaxError::WrongArgumentCount(_) => ErrorKind::Grammar,
        }
    }
}

/// Why a file could not be read. A tag is named by its place among the tags that
/// follow the header, counted from zero.
#[derive(Clone, Copy, Debug, PartialEq, Eq, Structural)]
pub enum ParseError {
    /// The file holds no tag at all.
    EmptyFile,
    /// The header tag is malformed.
    Header(SyntaxError),
    /// The header names a serialization format other than the supported one.
    UnsupportedFormat,
    /// The tag at `index` is malformed.
    Tag { index: usize, error: SyntaxError },
    /// A property line of the tag at `index` is malformed.
    Assign { index: usize, error: SyntaxError },
}


impl ParseError {
    pub open spec fn spec_kind(self) -> ErrorKind {
        match self {
            ParseError::EmptyFile => ErrorKind::Grammar,
            ParseError::Header(e) => e.spec_kind(),
            ParseError::UnsupportedFormat => ErrorKind::Schema,
            ParseError::Tag { error, .. } => error.spec_kind(),
            ParseError::Assign { error, .. } => error.spec_kind(),
        }
    }

    /// The family of this failure: that of the failure inside the tag or the line; a
    /// file without tags ends too early, and another format is well-formed text that
    /// does not say what is asked of it.
    #[verifier::when_used_as_spec(spec_kind)]
    pub fn kind(self) -> (k: ErrorKind)
        ensures
            k == self.spec_kind(),
    {
        match self {
            ParseError::EmptyFile => ErrorKind::Grammar,
            ParseError::Header(e) => e.kind(),
            ParseError::UnsupportedFormat => ErrorKind::Schema,
            ParseError::Tag { error, .. } => error.kind(),
            ParseError::Assign { error, .. } => error.kind(),
        }
    }
}

} // verus!
