//! The token model: lexical kinds, per-token diagnostics, and the `Token`
//! record produced by the lexer. A token records only its kind and its
//! length in characters; token texts are recovered by slicing the input.

use vstd::prelude::*;

verus! {

/// Every lexical category the lexer can produce. `Whitespace`,
/// `LineComment` and `BlockComment` are trivia: they carry no grammatical
/// meaning but are preserved for losslessness. `ErrorTok` marks input the
/// lexer could not classify.
#[derive(Clone, Copy, PartialEq, Eq, Structural, Debug)]
pub enum TokenKind {
    Whitespace,
    LineComment,
    BlockComment,
    Ident,
    FnKw,
    LetKw,
    IntNumber,
    Str,
    Plus,
    Minus,
    Star,
    Slash,
    Eq,
    Semicolon,
    Comma,
    Colon,
    Amp,
    LParen,
    RParen,
    LBrace,
    RBrace,
    ErrorTok,
}

/// A lexical diagnostic attached to a token. Lexical errors never abort
/// scanning; the offending span is still covered by a token.
#[derive(Clone, Copy, PartialEq, Eq, Structural, Debug)]
pub enum LexErrorKind {
    UnterminatedString,
    UnterminatedBlockComment,
    InvalidNumber,
    UnknownChar,
}

/// One lexed token: its kind, its length in characters, and an optional
/// diagnostic. The lexer guarantees `len >= 1` for every token it emits.
#[derive(Clone, Copy, PartialEq, Eq, Structural, Debug)]
pub struct Token {
    pub kind: TokenKind,
    pub len: usize,
    pub error: Option<LexErrorKind>,
}

/// A token is trivia iff its kind is whitespace or a comment. This is a
/// pure function of the kind.
pub open spec fn spec_is_trivia(k: TokenKind) -> bool {
    k == TokenKind::Whitespace || k == TokenKind::LineComment || k == TokenKind::BlockComment
}

/// Executable trivia test, equal to [`spec_is_trivia`].
#[verifier::when_used_as_spec(spec_is_trivia)]
pub fn is_trivia(k: TokenKind) -> (r: bool)
    ensures
        r == spec_is_trivia(k),
{
    match k {
        TokenKind::Whitespace => true,
        TokenKind::LineComment => true,
        TokenKind::BlockComment => true,
        _ => false,
    }
}

/// The display name of a token kind, as it appears in textual dumps.
pub open spec fn kind_name(k: TokenKind) -> Seq<char> {
    match k {
        TokenKind::Whitespace => "Whitespace"@,
        TokenKind::LineComment => "LineComment"@,
        TokenKind::BlockComment => "BlockComment"@,
        TokenKind::Ident => "Ident"@,
        TokenKind::FnKw => "FnKw"@,
        TokenKind::LetKw => "LetKw"@,
        TokenKind::IntNumber => "IntNumber"@,
        TokenKind::Str => "Str"@,
        TokenKind::Plus => "Plus"@,
        TokenKind::Minus => "Minus"@,
        TokenKind::Star => "Star"@,
        TokenKind::Slash => "Slash"@,
        TokenKind::Eq => "Eq"@,
        TokenKind::Semicolon => "Semicolon"@,
        TokenKind::Comma => "Comma"@,
        TokenKind::Colon => "Colon"@,
        TokenKind::Amp => "Amp"@,
        TokenKind::LParen => "LParen"@,
        TokenKind::RParen => "RParen"@,
        TokenKind::LBrace => "LBrace"@,
        TokenKind::RBrace => "RBrace"@,
        TokenKind::ErrorTok => "ErrorTok"@,
    }
}

/// Executable name of a token kind, equal to [`kind_name`].
pub fn kind_name_str(k: TokenKind) -> (r: &'static str)
    ensures
        r@ == kind_name(k),
{
    match k {
        TokenKind::Whitespace => "Whitespace",
        TokenKind::LineComment => "LineComment",
        TokenKind::BlockComment => "BlockComment",
        TokenKind::Ident => "Ident",
        TokenKind::FnKw => "FnKw",
        TokenKind::LetKw => "LetKw",
        TokenKind::IntNumber => "IntNumber",
        TokenKind::Str => "Str",
        TokenKind::Plus => "Plus",
        TokenKind::Minus => "Minus",
        TokenKind::Star => "Star",
        TokenKind::Slash => "Slash",
        TokenKind::Eq => "Eq",
        TokenKind::Semicolon => "Semicolon",
        TokenKind::Comma => "Comma",
        TokenKind::Colon => "Colon",
        TokenKind::Amp => "Amp",
        TokenKind::LParen => "LParen",
        TokenKind::RParen => "RParen",
        TokenKind::LBrace => "LBrace",
        TokenKind::RBrace => "RBrace",
        TokenKind::ErrorTok => "ErrorTok",
    }
}

/// The human-readable message of a lexical diagnostic.
pub open spec fn lex_error_message(e: LexErrorKind) -> Seq<char> {
    match e {
        LexErrorKind::UnterminatedString => "unterminated string"@,
        LexErrorKind::UnterminatedBlockComment => "unterminated block comment"@,
        LexErrorKind::InvalidNumber => "invalid number literal"@,
        LexErrorKind::UnknownChar => "unknown character"@,
    }
}

/// Executable message of a lexical diagnostic, equal to
/// [`lex_error_message`].
pub fn lex_error_message_str(e: LexErrorKind) -> (r: &'static str)
    ensures
        r@ == lex_error_message(e),
{
    match e {
        LexErrorKind::UnterminatedString => "unterminated string",
        LexErrorKind::UnterminatedBlockComment => "unterminated block comment",
        LexErrorKind::InvalidNumber => "invalid number literal",
        LexErrorKind::UnknownChar => "unknown character",
    }
}

} // verus!
