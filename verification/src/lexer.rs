//! The lexer: scans raw text (a sequence of characters) into a flat token
//! sequence. It is total: any input produces some token sequence, malformed
//! spans become tokens carrying a diagnostic, and every character of the
//! input belongs to exactly one token (no gaps, no overlaps).
//!
//! The mathematical model is [`spec_tokenize_from`]; the executable
//! [`tokenize`] is proved to return exactly that sequence, and
//! [`lemma_lex_coverage`] shows that concatenating the token texts in order
//! reproduces the input.

use vstd::prelude::*;
use crate::tokens::{Token, TokenKind, LexErrorKind};

verus! {

/// Whitespace characters: space, newline, tab, carriage return.
pub open spec fn is_ws_char(c: char) -> bool {
    c == ' ' || c == '\n' || c == '\t' || c == '\r'
}

/// Decimal digits.
pub open spec fn is_digit_char(c: char) -> bool {
    ('0' as u32) <= (c as u32) && (c as u32) <= ('9' as u32)
}

/// Characters that may start an identifier: ASCII letters and underscore.
pub open spec fn is_ident_start_char(c: char) -> bool {
    (('a' as u32) <= (c as u32) && (c as u32) <= ('z' as u32))
        || (('A' as u32) <= (c as u32) && (c as u32) <= ('Z' as u32))
        || c == '_'
}

/// Characters that may continue an identifier (or glue onto a number
/// under maximal munch): letters, digits, underscore.
pub open spec fn is_ident_continue_char(c: char) -> bool {
    is_ident_start_char(c) || is_digit_char(c)
}

fn is_ws(c: char) -> (r: bool)
    ensures
        r == is_ws_char(c),
{
    c == ' ' || c == '\n' || c == '\t' || c == '\r'
}

fn is_digit(c: char) -> (r: bool)
    ensures
        r == is_digit_char(c),
{
    ('0' as u32) <= (c as u32) && (c as u32) <= ('9' as u32)
}

fn is_ident_start(c: char) -> (r: bool)
    ensures
        r == is_ident_start_char(c),
{
    (('a' as u32) <= (c as u32) && (c as u32) <= ('z' as u32))
        || (('A' as u32) <= (c as u32) && (c as u32) <= ('Z' as u32))
        || c == '_'
}

fn is_ident_continue(c: char) -> (r: bool)
    ensures
        r == is_ident_continue_char(c),
{
    is_ident_start(c) || is_digit(c)
}

/// Length of the maximal run of whitespace characters starting at `i`.
pub open spec fn ws_run(s: Seq<char>, i: int) -> nat
    decreases s.len() - i,
{
    if 0 <= i && i < s.len() && is_ws_char(s[i]) {
        (1 + ws_run(s, i + 1)) as nat
    } else {
        0
    }
}

/// Length of the maximal run of identifier-continue characters starting
/// at `i`.
pub open spec fn ident_run(s: Seq<char>, i: int) -> nat
    decreases s.len() - i,
{
    if 0 <= i && i < s.len() && is_ident_continue_char(s[i]) {
        (1 + ident_run(s, i + 1)) as nat
    } else {
        0
    }
}

/// Length of the maximal run of digits starting at `i`.
pub open spec fn digit_run(s: Seq<char>, i: int) -> nat
    decreases s.len() - i,
{
    if 0 <= i && i < s.len() && is_digit_char(s[i]) {
        (1 + digit_run(s, i + 1)) as nat
    } else {
        0
    }
}

/// Number of characters a line comment body spans starting at `i`: up to,
/// and excluding, the next newline (the newline itself stays whitespace).
pub open spec fn line_run(s: Seq<char>, i: int) -> nat
    decreases s.len() - i,
{
    if 0 <= i && i < s.len() && s[i] != '\n' {
        (1 + line_run(s, i + 1)) as nat
    } else {
        0
    }
}

/// Number of characters a block comment body spans starting at `i`
/// (just after the opening delimiter), including the closing `*/` when
/// present, or the rest of the input when unterminated.
pub open spec fn block_rest(s: Seq<char>, i: int) -> nat
    decreases s.len() - i,
{
    if 0 <= i && i < s.len() {
        if s[i] == '*' && i + 1 < s.len() && s[i + 1] == '/' {
            2
        } else {
            (1 + block_rest(s, i + 1)) as nat
        }
    } else {
        0
    }
}

/// Whether the block comment whose body starts at `i` is terminated.
pub open spec fn block_closed(s: Seq<char>, i: int) -> bool
    decreases s.len() - i,
{
    if 0 <= i && i < s.len() {
        if s[i] == '*' && i + 1 < s.len() && s[i + 1] == '/' {
            true
        } else {
            block_closed(s, i + 1)
        }
    } else {
        false
    }
}

/// Number of characters a string literal spans starting at `i` (just
/// after the opening quote), including the closing quote when present; a
/// backslash escapes the following character.
pub open spec fn str_rest(s: Seq<char>, i: int) -> nat
    decreases s.len() - i,
{
    if 0 <= i && i < s.len() {
        if s[i] == '"' {
            1
        } else if s[i] == '\\' && i + 1 < s.len() {
            (2 + str_rest(s, i + 2)) as nat
        } else {
            (1 + str_rest(s, i + 1)) as nat
        }
    } else {
        0
    }
}

/// Whether the string literal whose body starts at `i` has a closing
/// quote.
pub open spec fn str_closed(s: Seq<char>, i: int) -> bool
    decreases s.len() - i,
{
    if 0 <= i && i < s.len() {
        if s[i] == '"' {
            true
        } else if s[i] == '\\' && i + 1 < s.len() {
            str_closed(s, i + 2)
        } else {
            str_closed(s, i + 1)
        }
    } else {
        false
    }
}

/// The kind of an identifier-shaped token: keywords are recognized here.
pub open spec fn ident_kind(s: Seq<char>, i: int, l: int) -> TokenKind {
    if l == 2 && s[i] == 'f' && s[i + 1] == 'n' {
        TokenKind::FnKw
    } else if l == 3 && s[i] == 'l' && s[i + 1] == 'e' && s[i + 2] == 't' {
        TokenKind::LetKw
    } else {
        TokenKind::Ident
    }
}

/// The single token produced at position `i` of `s` under maximal munch.
/// Meaningful for `0 <= i < s.len()`; every branch consumes at least one
/// character, which is what makes tokenization terminate.
pub open spec fn spec_next_token(s: Seq<char>, i: int) -> Token {
    let c = s[i];
    if is_ws_char(c) {
        Token { kind: TokenKind::Whitespace, len: (1 + ws_run(s, i + 1)) as usize, error: None }
    } else if c == '/' && i + 1 < s.len() && s[i + 1] == '/' {
        Token { kind: TokenKind::LineComment, len: (2 + line_run(s, i + 2)) as usize, error: None }
    } else if c == '/' && i + 1 < s.len() && s[i + 1] == '*' {
        Token {
            kind: TokenKind::BlockComment,
            len: (2 + block_rest(s, i + 2)) as usize,
            error: if block_closed(s, i + 2) {
                None
            } else {
                Some(LexErrorKind::UnterminatedBlockComment)
            },
        }
    } else if c == '/' {
        Token { kind: TokenKind::Slash, len: 1, error: None }
    } else if is_digit_char(c) {
        Token {
            kind: TokenKind::IntNumber,
            len: (1 + ident_run(s, i + 1)) as usize,
            error: if ident_run(s, i + 1) == digit_run(s, i + 1) {
                None
            } else {
                Some(LexErrorKind::InvalidNumber)
            },
        }
    } else if is_ident_start_char(c) {
        Token {
            kind: ident_kind(s, i, 1 + ident_run(s, i + 1) as int),
            len: (1 + ident_run(s, i + 1)) as usize,
            error: None,
        }
    } else if c == '"' {
        Token {
            kind: TokenKind::Str,
            len: (1 + str_rest(s, i + 1)) as usize,
            error: if str_closed(s, i + 1) {
                None
            } else {
                Some(LexErrorKind::UnterminatedString)
            },
        }
    } else if c == '+' {
        Token { kind: TokenKind::Plus, len: 1, error: None }
    } else if c == '-' {
        Token { kind: TokenKind::Minus, len: 1, error: None }
    } else if c == '*' {
        Token { kind: TokenKind::Star, len: 1, error: None }
    } else if c == '=' {
        Token { kind: TokenKind::Eq, len: 1, error: None }
    } else if c == ';' {
        Token { kind: TokenKind::Semicolon, len: 1, error: None }
    } else if c == ',' {
        Token { kind: TokenKind::Comma, len: 1, error: None }
    } else if c == ':' {
        Token { kind: TokenKind::Colon, len: 1, error: None }
    } else if c == '&' {
        Token { kind: TokenKind::Amp, len: 1, error: None }
    } else if c == '(' {
        Token { kind: TokenKind::LParen, len: 1, error: None }
    } else if c == ')' {
        Token { kind: TokenKind::RParen, len: 1, error: None }
    } else if c == '{' {
        Token { kind: TokenKind::LBrace, len: 1, error: None }
    } else if c == '}' {
        Token { kind: TokenKind::RBrace, len: 1, error: None }
    } else {
        Token { kind: TokenKind::ErrorTok, len: 1, error: Some(LexErrorKind::UnknownChar) }
    }
}

/// Each scan run stays within the input.
proof fn lemma_ws_run_le(s: Seq<char>, i: int)
    requires
        0 <= i <= s.len(),
    ensures
        i + ws_run(s, i) <= s.len(),
    decreases s.len() - i,
{
    if i < s.len() && is_ws_char(s[i]) {
        lemma_ws_run_le(s, i + 1);
    }
}

proof fn lemma_ident_run_le(s: Seq<char>, i: int)
    requires
        0 <= i <= s.len(),
    ensures
        i + ident_run(s, i) <= s.len(),
    decreases s.len() - i,
{
    if i < s.len() && is_ident_continue_char(s[i]) {
        lemma_ident_run_le(s, i + 1);
    }
}

proof fn lemma_line_run_le(s: Seq<char>, i: int)
    requires
        0 <= i <= s.len(),
    ensures
        i + line_run(s, i) <= s.len(),
    decreases s.len() - i,
{
    if i < s.len() && s[i] != '\n' {
        lemma_line_run_le(s, i + 1);
    }
}

proof fn lemma_block_rest_le(s: Seq<char>, i: int)
    requires
        0 <= i <= s.len(),
    ensures
        i + block_rest(s, i) <= s.len(),
    decreases s.len() - i,
{
    if i < s.len() {
        if s[i] == '*' && i + 1 < s.len() && s[i + 1] == '/' {
        } else {
            lemma_block_rest_le(s, i + 1);
        }
    }
}

proof fn lemma_str_rest_le(s: Seq<char>, i: int)
    requires
        0 <= i <= s.len(),
    ensures
        i + str_rest(s, i) <= s.len(),
    decreases s.len() - i,
{
    if i < s.len() {
        if s[i] == '"' {
        } else if s[i] == '\\' && i + 1 < s.len() {
            lemma_str_rest_le(s, i + 2);
        } else {
            lemma_str_rest_le(s, i + 1);
        }
    }
}

/// The token scanned at any in-range position consumes at least one and
/// at most the remaining characters.
proof fn lemma_next_token_len(s: Seq<char>, i: int)
    requires
        0 <= i < s.len(),
        s.len() <= usize::MAX,
    ensures
        1 <= spec_next_token(s, i).len,
        i + spec_next_token(s, i).len <= s.len(),
{
    lemma_ws_run_le(s, i + 1);
    lemma_ident_run_le(s, i + 1);
    if i + 1 <= s.len() {
        lemma_str_rest_le(s, i + 1);
    }
    if i + 2 <= s.len() {
        lemma_line_run_le(s, i + 2);
        lemma_block_rest_le(s, i + 2);
    }
}

/// The full token sequence of `s` from position `i` on: the lexer's
/// mathematical model.
pub open spec fn spec_tokenize_from(s: Seq<char>, i: int) -> Seq<Token>
    decreases s.len() - i when 0 <= i <= s.len() <= usize::MAX via spec_tokenize_from_decreases
{
    if 0 <= i && i < s.len() {
        seq![spec_next_token(s, i)] + spec_tokenize_from(s, i + spec_next_token(s, i).len)
    } else {
        Seq::empty()
    }
}

#[via_fn]
proof fn spec_tokenize_from_decreases(s: Seq<char>, i: int) {
    if 0 <= i && i < s.len() && s.len() <= usize::MAX {
        lemma_next_token_len(s, i);
    }
}

/// The tokenization of a whole input.
pub open spec fn spec_tokenize(s: Seq<char>) -> Seq<Token> {
    spec_tokenize_from(s, 0)
}

/// Sum of the lengths of a token sequence.
pub open spec fn sum_lens(ts: Seq<Token>) -> int
    decreases ts.len(),
{
    if ts.len() == 0 {
        0
    } else {
        ts[0].len + sum_lens(ts.subrange(1, ts.len() as int))
    }
}

/// Concatenation of the texts of a token sequence laid out consecutively
/// from offset `off` in `s`.
pub open spec fn texts_concat(s: Seq<char>, ts: Seq<Token>, off: int) -> Seq<char>
    decreases ts.len(),
{
    if ts.len() == 0 {
        Seq::empty()
    } else {
        s.subrange(off, off + ts[0].len)
            + texts_concat(s, ts.subrange(1, ts.len() as int), off + ts[0].len)
    }
}

/// Coverage, general form: the tokens scanned from `i` tile exactly the
/// characters `s[i..]`, so their texts concatenate to that suffix.
pub proof fn lemma_lex_coverage_from(s: Seq<char>, i: int)
    requires
        0 <= i <= s.len(),
        s.len() <= usize::MAX,
    ensures
        sum_lens(spec_tokenize_from(s, i)) == s.len() - i,
        texts_concat(s, spec_tokenize_from(s, i), i) =~= s.subrange(i, s.len() as int),
    decreases s.len() - i,
{
    if i < s.len() {
        let t = spec_next_token(s, i);
        lemma_next_token_len(s, i);
        lemma_lex_coverage_from(s, i + t.len);
        let ts = spec_tokenize_from(s, i);
        assert(ts == seq![t] + spec_tokenize_from(s, i + t.len));
        assert(ts.subrange(1, ts.len() as int) =~= spec_tokenize_from(s, i + t.len));
        assert(texts_concat(s, ts, i) =~= s.subrange(i, i + t.len) + texts_concat(
            s,
            spec_tokenize_from(s, i + t.len),
            i + t.len,
        ));
        assert(texts_concat(s, ts, i) =~= s.subrange(i, s.len() as int));
    } else {
        assert(spec_tokenize_from(s, i) =~= Seq::<Token>::empty());
        assert(texts_concat(s, spec_tokenize_from(s, i), i) =~= s.subrange(i, s.len() as int));
    }
}

/// Coverage of the tokenizer: concatenating the token texts in emission
/// order reproduces the input exactly, and the token lengths sum to the
/// input length.
pub proof fn lemma_lex_coverage(s: Seq<char>)
    requires
        s.len() <= usize::MAX,
    ensures
        sum_lens(spec_tokenize(s)) == s.len(),
        texts_concat(s, spec_tokenize(s), 0) == s,
{
    lemma_lex_coverage_from(s, 0);
    assert(s.subrange(0, s.len() as int) =~= s);
}

fn ws_run_at(s: &Vec<char>, i: usize) -> (r: usize)
    requires
        i <= s.len(),
    ensures
        r == ws_run(s@, i as int),
        i + r <= s.len(),
    decreases s.len() - i,
{
    if i < s.len() && is_ws(s[i]) {
        let rest = ws_run_at(s, i + 1);
        1 + rest
    } else {
        0
    }
}

fn ident_run_at(s: &Vec<char>, i: usize) -> (r: usize)
    requires
        i <= s.len(),
    ensures
        r == ident_run(s@, i as int),
        i + r <= s.len(),
    decreases s.len() - i,
{
    if i < s.len() && is_ident_continue(s[i]) {
        let rest = ident_run_at(s, i + 1);
        1 + rest
    } else {
        0
    }
}

fn digit_run_at(s: &Vec<char>, i: usize) -> (r: usize)
    requires
        i <= s.len(),
    ensures
        r == digit_run(s@, i as int),
        i + r <= s.len(),
    decreases s.len() - i,
{
    if i < s.len() && is_digit(s[i]) {
        let rest = digit_run_at(s, i + 1);
        1 + rest
    } else {
        0
    }
}

fn line_run_at(s: &Vec<char>, i: usize) -> (r: usize)
    requires
        i <= s.len(),
    ensures
        r == line_run(s@, i as int),
        i + r <= s.len(),
    decreases s.len() - i,
{
    if i < s.len() && s[i] != '\n' {
        let rest = line_run_at(s, i + 1);
        1 + rest
    } else {
        0
    }
}

fn block_rest_at(s: &Vec<char>, i: usize) -> (r: (usize, bool))
    requires
        i <= s.len(),
    ensures
        r.0 == block_rest(s@, i as int),
        r.1 == block_closed(s@, i as int),
        i + r.0 <= s.len(),
    decreases s.len() - i,
{
    if i < s.len() {
        if s[i] == '*' && i + 1 < s.len() && s[i + 1] == '/' {
            (2, true)
        } else {
            let rest = block_rest_at(s, i + 1);
            (1 + rest.0, rest.1)
        }
    } else {
        (0, false)
    }
}

fn str_rest_at(s: &Vec<char>, i: usize) -> (r: (usize, bool))
    requires
        i <= s.len(),
    ensures
        r.0 == str_rest(s@, i as int),
        r.1 == str_closed(s@, i as int),
        i + r.0 <= s.len(),
    decreases s.len() - i,
{
    if i < s.len() {
        if s[i] == '"' {
            (1, true)
        } else if s[i] == '\\' && i + 1 < s.len() {
            let rest = str_rest_at(s, i + 2);
            (2 + rest.0, rest.1)
        } else {
            let rest = str_rest_at(s, i + 1);
            (1 + rest.0, rest.1)
        }
    } else {
        (0, false)
    }
}

/// Scan the single token starting at position `i`, exactly as the model
/// [`spec_next_token`] describes it.
pub fn next_token(s: &Vec<char>, i: usize) -> (r: Token)
    requires
        i < s.len(),
    ensures
        r == spec_next_token(s@, i as int),
        1 <= r.len,
        i + r.len <= s.len(),
{
    proof {
        lemma_next_token_len(s@, i as int);
    }
    let c = s[i];
    if is_ws(c) {
        let run = ws_run_at(s, i + 1);
        Token { kind: TokenKind::Whitespace, len: 1 + run, error: None }
    } else if c == '/' && i + 1 < s.len() && s[i + 1] == '/' {
        let run = line_run_at(s, i + 2);
        Token { kind: TokenKind::LineComment, len: 2 + run, error: None }
    } else if c == '/' && i + 1 < s.len() && s[i + 1] == '*' {
        let rest = block_rest_at(s, i + 2);
        Token {
            kind: TokenKind::BlockComment,
            len: 2 + rest.0,
            error: if rest.1 {
                None
            } else {
                Some(LexErrorKind::UnterminatedBlockComment)
            },
        }
    } else if c == '/' {
        Token { kind: TokenKind::Slash, len: 1, error: None }
    } else if is_digit(c) {
        let run = ident_run_at(s, i + 1);
        let drun = digit_run_at(s, i + 1);
        Token {
            kind: TokenKind::IntNumber,
            len: 1 + run,
            error: if run == drun {
                None
            } else {
                Some(LexErrorKind::InvalidNumber)
            },
        }
    } else if is_ident_start(c) {
        let run = ident_run_at(s, i + 1);
        let kind = if run == 1 && s[i] == 'f' && s[i + 1] == 'n' {
            TokenKind::FnKw
        } else if run == 2 && s[i] == 'l' && s[i + 1] == 'e' && s[i + 2] == 't' {
            TokenKind::LetKw
        } else {
            TokenKind::Ident
        };
        Token { kind, len: 1 + run, error: None }
    } else if c == '"' {
        let rest = str_rest_at(s, i + 1);
        Token {
            kind: TokenKind::Str,
            len: 1 + rest.0,
            error: if rest.1 {
                None
            } else {
                Some(LexErrorKind::UnterminatedString)
            },
        }
    } else if c == '+' {
        Token { kind: TokenKind::Plus, len: 1, error: None }
    } else if c == '-' {
        Token { kind: TokenKind::Minus, len: 1, error: None }
    } else if c == '*' {
        Token { kind: TokenKind::Star, len: 1, error: None }
    } else if c == '=' {
        Token { kind: TokenKind::Eq, len: 1, error: None }
    } else if c == ';' {
        Token { kind: TokenKind::Semicolon, len: 1, error: None }
    } else if c == ',' {
        Token { kind: TokenKind::Comma, len: 1, error: None }
    } else if c == ':' {
        Token { kind: TokenKind::Colon, len: 1, error: None }
    } else if c == '&' {
        Token { kind: TokenKind::Amp, len: 1, error: None }
    } else if c == '(' {
        Token { kind: TokenKind::LParen, len: 1, error: None }
    } else if c == ')' {
        Token { kind: TokenKind::RParen, len: 1, error: None }
    } else if c == '{' {
        Token { kind: TokenKind::LBrace, len: 1, error: None }
    } else if c == '}' {
        Token { kind: TokenKind::RBrace, len: 1, error: None }
    } else {
        Token { kind: TokenKind::ErrorTok, len: 1, error: Some(LexErrorKind::UnknownChar) }
    }
}

/// Tokenize a whole input: returns exactly the token sequence of the
/// model [`spec_tokenize`]. Total: never fails, for any input.
pub fn tokenize(text: &Vec<char>) -> (r: Vec<Token>)
    ensures
        r@ == spec_tokenize(text@),
{
    let mut r: Vec<Token> = Vec::new();
    let mut pos: usize = 0;
    while pos < text.len()
        invariant
            pos <= text.len(),
            spec_tokenize(text@) == r@ + spec_tokenize_from(text@, pos as int),
        decreases text.len() - pos,
    {
        let tok = next_token(text, pos);
        proof {
            let rest = spec_tokenize_from(text@, pos + tok.len);
            assert(spec_tokenize_from(text@, pos as int) == seq![tok] + rest);
            assert(r@ + (seq![tok] + rest) =~= r@.push(tok) + rest);
        }
        r.push(tok);
        pos = pos + tok.len;
    }
    proof {
        assert(spec_tokenize_from(text@, pos as int) =~= Seq::<Token>::empty());
        assert(r@ + Seq::<Token>::empty() =~= r@);
    }
    r
}

} // verus!
