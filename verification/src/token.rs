//! Cooked tokens: typed tokens with absolute byte spans in the source text,
//! and their mathematical models.

use vstd::prelude::*;

use crate::unescape::EscapeError;

verus! {

/// A byte range in the source text: offset and length, half open.
#[derive(Debug, Clone, Copy, PartialEq, Eq, Structural)]
pub struct Span {
    pub base: usize,
    pub len: usize,
}

impl Span {
    /// Build a span from its two byte offsets.
    pub fn new(lo: usize, hi: usize) -> (s: Span)
        requires
            lo <= hi,
        ensures
            s.base == lo,
            s.len == hi - lo,
    {
        Span { base: lo, len: hi - lo }
    }
}

/// Errors that can occur while cooking a string lexeme.
#[derive(Debug, Clone, Copy, PartialEq, Eq, Structural)]
pub enum StrError {
    Unterminated,
    InvalidEscape,
    BareBackspace,
    BareFormFeed,
    BareLineFeed,
    BareCarriageReturn,
    BareHorizontalTab,
    BadControlChar,
    EscapeOnlyChar,
    BadUnicodeEscape,
    LoneSurrogateUnicodeEscape,
    OutOfRangeUnicodeEscape,
}

/// The string-cooking error standing for each unescape error; a lone
/// backslash at end of text means the lexeme itself was unterminated.
pub open spec fn str_error_of(e: EscapeError) -> StrError {
    match e {
        EscapeError::LoneSlash => StrError::Unterminated,
        EscapeError::InvalidEscape => StrError::InvalidEscape,
        EscapeError::BareBackspace => StrError::BareBackspace,
        EscapeError::BareFormFeed => StrError::BareFormFeed,
        EscapeError::BareLineFeed => StrError::BareLineFeed,
        EscapeError::BareCarriageReturn => StrError::BareCarriageReturn,
        EscapeError::BareHorizontalTab => StrError::BareHorizontalTab,
        EscapeError::BadControlChar => StrError::BadControlChar,
        EscapeError::EscapeOnlyChar => StrError::EscapeOnlyChar,
        EscapeError::BadUnicodeEscape => StrError::BadUnicodeEscape,
        EscapeError::LoneSurrogateUnicodeEscape => StrError::LoneSurrogateUnicodeEscape,
        EscapeError::OutOfRangeUnicodeEscape => StrError::OutOfRangeUnicodeEscape,
    }
}

impl From<EscapeError> for StrError {
    fn from(other: EscapeError) -> (r: StrError) {
        match other {
            EscapeError::LoneSlash => StrError::Unterminated,
            EscapeError::InvalidEscape => StrError::InvalidEscape,
            EscapeError::BareBackspace => StrError::BareBackspace,
            EscapeError::BareFormFeed => StrError::BareFormFeed,
            EscapeError::BareLineFeed => StrError::BareLineFeed,
            EscapeError::BareCarriageReturn => StrError::BareCarriageReturn,
            EscapeError::BareHorizontalTab => StrError::BareHorizontalTab,
            EscapeError::BadControlChar => StrError::BadControlChar,
            EscapeError::EscapeOnlyChar => StrError::EscapeOnlyChar,
            EscapeError::BadUnicodeEscape => StrError::BadUnicodeEscape,
            EscapeError::LoneSurrogateUnicodeEscape => StrError::LoneSurrogateUnicodeEscape,
            EscapeError::OutOfRangeUnicodeEscape => StrError::OutOfRangeUnicodeEscape,
        }
    }
}

impl vstd::std_specs::convert::FromSpecImpl<EscapeError> for StrError {
    open spec fn obeys_from_spec() -> bool {
        true
    }

    open spec fn from_spec(e: EscapeError) -> StrError {
        str_error_of(e)
    }
}

/// Cooked token classes. `Int` holds the numeric value, saturated at the
/// machine integer bounds; `Float` holds the numeric text exactly as lexed,
/// which the grammar guarantees to parse as a double-precision value, for the
/// consumer to convert; `Str` holds the decoded text. `InvalidStr` carries
/// the string-cooking error with the byte offset and byte length, within the
/// lexeme, of the offending range.
#[derive(Debug, Clone, PartialEq)]
pub enum TokenKind {
    Int(isize),
    Float(String),
    Str(String),
    InvalidStr(StrError, usize, usize),
    OpenBracket,
    CloseBracket,
    OpenSquare,
    CloseSquare,
    Colon,
    Comma,
    True,
    False,
    Null,
    Whitespace,
    Eof,
    InvalidIdent(String),
    Unknown(String),
}

/// Model of a cooked token class: unbounded integers and character sequences.
pub enum TokenKindModel {
    Int(int),
    Float(Seq<char>),
    Str(Seq<char>),
    InvalidStr(StrError, int, int),
    OpenBracket,
    CloseBracket,
    OpenSquare,
    CloseSquare,
    Colon,
    Comma,
    True,
    False,
    Null,
    Whitespace,
    Eof,
    InvalidIdent(Seq<char>),
    Unknown(Seq<char>),
}

impl View for TokenKind {
    type V = TokenKindModel;

    open spec fn view(&self) -> TokenKindModel {
        match self {
            TokenKind::Int(v) => TokenKindModel::Int(*v as int),
            TokenKind::Float(text) => TokenKindModel::Float(text@),
            TokenKind::Str(s) => TokenKindModel::Str(s@),
            TokenKind::InvalidStr(e, off, l) => TokenKindModel::InvalidStr(
                *e,
                *off as int,
                *l as int,
            ),
            TokenKind::OpenBracket => TokenKindModel::OpenBracket,
            TokenKind::CloseBracket => TokenKindModel::CloseBracket,
            TokenKind::OpenSquare => TokenKindModel::OpenSquare,
            TokenKind::CloseSquare => TokenKindModel::CloseSquare,
            TokenKind::Colon => TokenKindModel::Colon,
            TokenKind::Comma => TokenKindModel::Comma,
            TokenKind::True => TokenKindModel::True,
            TokenKind::False => TokenKindModel::False,
            TokenKind::Null => TokenKindModel::Null,
            TokenKind::Whitespace => TokenKindModel::Whitespace,
            TokenKind::Eof => TokenKindModel::Eof,
            TokenKind::InvalidIdent(s) => TokenKindModel::InvalidIdent(s@),
            TokenKind::Unknown(s) => TokenKindModel::Unknown(s@),
        }
    }
}

/// A cooked token: its class and its absolute byte span in the source.
#[derive(Debug, Clone, PartialEq)]
pub struct Token {
    pub kind: TokenKind,
    pub span: Span,
}

/// Model of a cooked token: the class model with the span as plain integers.
pub struct TokenModel {
    pub kind: TokenKindModel,
    pub base: int,
    pub len: int,
}

impl View for Token {
    type V = TokenModel;

    open spec fn view(&self) -> TokenModel {
        TokenModel { kind: self.kind@, base: self.span.base as int, len: self.span.len as int }
    }
}

impl Token {
    pub fn new(kind: TokenKind, span: Span) -> (t: Token)
        ensures
            t.kind == kind,
            t.span == span,
    {
        Token { kind, span }
    }

    /// A placeholder token: an empty unknown lexeme at the start of the text.
    pub fn dummy() -> (t: Token)
        ensures
            t@.kind == TokenKindModel::Unknown(Seq::<char>::empty()),
            t@.base == 0,
            t@.len == 0,
    {
        Token { kind: TokenKind::Unknown(String::new()), span: Span { base: 0, len: 0 } }
    }
}

} // verus!
