//! The event parser: recursive descent over the trivia-filtered token
//! kinds, producing a flat event sequence. It never fails: syntax errors
//! are recorded as `Error` events, offending tokens are wrapped in error
//! nodes, and every entry point consumes the whole input and closes every
//! node it opens.
//!
//! The parser is pinned to a mathematical model: each grammar rule has a
//! spec function mapping the token kinds and a cursor to exactly the
//! events it emits and the cursor after it, and [`spec_parse`] composes
//! them per entry point. [`TopEntryPoint::parse`] returns exactly
//! `spec_parse(entry, input)`, so parsing is deterministic and the exact
//! output for any concrete input is decided by the contract.
//!
//! Each rule also preserves the parser invariant [`Parser::wf`] and
//! extends the event log without ever closing a node it did not open
//! ([`ev_extends`] at the depth the rule was called at).

use vstd::prelude::*;
use crate::tokens::TokenKind;
use crate::events::{
    Event, NodeKind, ParseErrorKind, ev_depth, ev_tokens, ev_wf_prefix, errors_bounded,
    errors_sorted, wf_events, ev_extends, lemma_ev_push, lemma_take_push, lemma_wf_prefix_push,
    lemma_extends_push, lemma_extends_trans, lemma_prefix_take, lemma_extends_refl,
};

verus! {

/// The five grammar entry points: whole file, one expression, one type,
/// one statement block, one pattern. Dispatch is a pure lookup; all entry
/// points share the same node-stack and error primitives and all consume
/// the entire input.
#[derive(Clone, Copy, PartialEq, Eq, Structural, Debug)]
pub enum TopEntryPoint {
    SourceFile,
    Expr,
    Type,
    Block,
    Pattern,
}

/// The root node kind each entry point opens.
pub open spec fn root_kind_of(entry: TopEntryPoint) -> NodeKind {
    match entry {
        TopEntryPoint::SourceFile => NodeKind::SourceFile,
        TopEntryPoint::Expr => NodeKind::ExprFragment,
        TopEntryPoint::Type => NodeKind::TypeFragment,
        TopEntryPoint::Block => NodeKind::BlockFragment,
        TopEntryPoint::Pattern => NodeKind::PatFragment,
    }
}

/// The binary operators an expression tail accepts.
pub open spec fn is_op_kind(k: TokenKind) -> bool {
    k == TokenKind::Plus || k == TokenKind::Minus || k == TokenKind::Star || k == TokenKind::Slash
}

/// Clamp a cursor into `[lo, hi]`. The grammar model feeds one rule's
/// resulting cursor into the next; the clamp keeps the termination
/// measure decreasing by construction. The executable parser's cursor
/// always lies in the interval already, so for it the clamp is the
/// identity (asserted at every use in the proofs below).
pub open spec fn clamp_pos(p: int, lo: int, hi: int) -> int {
    if p < lo {
        lo
    } else if p > hi {
        hi
    } else {
        p
    }
}

/// Model of [`Parser::expect`]: one `Token` when the expected kind is
/// under the cursor, else one `Error` at the cursor.
pub open spec fn spec_expect_ev(
    ks: Seq<TokenKind>,
    pos: int,
    k: TokenKind,
    err: ParseErrorKind,
) -> (Seq<Event>, int) {
    if 0 <= pos && pos < ks.len() && ks[pos] == k {
        (seq![Event::Token], pos + 1)
    } else {
        (seq![Event::Error { kind: err, pos: pos as usize }], pos)
    }
}

/// Model of [`Parser::pattern_rule`].
pub open spec fn spec_pattern_rule(ks: Seq<TokenKind>, pos: int) -> (Seq<Event>, int) {
    if 0 <= pos && pos < ks.len() && ks[pos] == TokenKind::Ident {
        (
            seq![
                Event::Enter { kind: NodeKind::IdentPat },
                Event::Token,
                Event::Exit,
            ],
            pos + 1,
        )
    } else {
        (seq![Event::Error { kind: ParseErrorKind::ExpectedPattern, pos: pos as usize }], pos)
    }
}

/// Model of [`Parser::param_list`].
pub open spec fn spec_param_list(ks: Seq<TokenKind>, pos: int) -> (Seq<Event>, int) {
    let a = spec_expect_ev(ks, pos, TokenKind::LParen, ParseErrorKind::ExpectedLParen);
    let b = spec_expect_ev(ks, a.1, TokenKind::RParen, ParseErrorKind::ExpectedRParen);
    (seq![Event::Enter { kind: NodeKind::ParamList }] + a.0 + b.0 + seq![Event::Exit], b.1)
}

/// Model of [`Parser::type_rule`].
pub open spec fn spec_type_rule(ks: Seq<TokenKind>, pos: int) -> (Seq<Event>, int)
    decreases ks.len() - pos,
{
    if 0 <= pos && pos < ks.len() && ks[pos] == TokenKind::Ident {
        (
            seq![
                Event::Enter { kind: NodeKind::PathType },
                Event::Token,
                Event::Exit,
            ],
            pos + 1,
        )
    } else if 0 <= pos && pos < ks.len() && ks[pos] == TokenKind::Amp {
        let a = spec_type_rule(ks, pos + 1);
        (seq![Event::Enter { kind: NodeKind::RefType }, Event::Token] + a.0 + seq![Event::Exit], a.1)
    } else if 0 <= pos && pos < ks.len() && ks[pos] == TokenKind::LParen {
        let a = spec_type_rule(ks, pos + 1);
        let b = spec_expect_ev(ks, a.1, TokenKind::RParen, ParseErrorKind::ExpectedRParen);
        (
            seq![Event::Enter { kind: NodeKind::ParenType }, Event::Token] + a.0 + b.0
                + seq![Event::Exit],
            b.1,
        )
    } else {
        (seq![Event::Error { kind: ParseErrorKind::ExpectedType, pos: pos as usize }], pos)
    }
}

/// Model of [`Parser::primary`].
pub open spec fn spec_primary(ks: Seq<TokenKind>, pos: int) -> (Seq<Event>, int)
    decreases ks.len() - pos, 1int,
{
    if 0 <= pos && pos < ks.len() && (ks[pos] == TokenKind::IntNumber || ks[pos]
        == TokenKind::Str) {
        (
            seq![
                Event::Enter { kind: NodeKind::Literal },
                Event::Token,
                Event::Exit,
            ],
            pos + 1,
        )
    } else if 0 <= pos && pos < ks.len() && ks[pos] == TokenKind::Ident {
        (
            seq![
                Event::Enter { kind: NodeKind::NameRef },
                Event::Token,
                Event::Exit,
            ],
            pos + 1,
        )
    } else if 0 <= pos && pos < ks.len() && ks[pos] == TokenKind::LParen {
        let a = spec_expr(ks, pos + 1);
        let b = spec_expect_ev(ks, a.1, TokenKind::RParen, ParseErrorKind::ExpectedRParen);
        (
            seq![Event::Enter { kind: NodeKind::ParenExpr }, Event::Token] + a.0 + b.0
                + seq![Event::Exit],
            b.1,
        )
    } else {
        (seq![Event::Error { kind: ParseErrorKind::ExpectedExpr, pos: pos as usize }], pos)
    }
}

/// Model of the operator loop in [`Parser::expr`]: while an operator is
/// under the cursor, consume it and parse another primary.
pub open spec fn spec_expr_tail(ks: Seq<TokenKind>, pos: int) -> (Seq<Event>, int)
    decreases ks.len() - pos, 3int,
{
    if 0 <= pos && pos < ks.len() && is_op_kind(ks[pos]) {
        let a = spec_primary(ks, pos + 1);
        let b = spec_expr_tail(ks, clamp_pos(a.1, pos + 1, ks.len() as int));
        (seq![Event::Token] + a.0 + b.0, b.1)
    } else {
        (Seq::empty(), pos)
    }
}

/// Model of [`Parser::expr`].
pub open spec fn spec_expr(ks: Seq<TokenKind>, pos: int) -> (Seq<Event>, int)
    decreases ks.len() - pos, 4int,
{
    if 0 <= pos && pos <= ks.len() {
        let a = spec_primary(ks, pos);
        let b = spec_expr_tail(ks, clamp_pos(a.1, pos, ks.len() as int));
        (seq![Event::Enter { kind: NodeKind::Expr }] + a.0 + b.0 + seq![Event::Exit], b.1)
    } else {
        (Seq::empty(), pos)
    }
}

/// Model of [`Parser::stmt`].
pub open spec fn spec_stmt(ks: Seq<TokenKind>, pos: int) -> (Seq<Event>, int)
    decreases ks.len() - pos, 5int,
{
    if 0 <= pos && pos < ks.len() && ks[pos] == TokenKind::LetKw {
        let a = spec_pattern_rule(ks, pos + 1);
        let b = spec_expect_ev(ks, a.1, TokenKind::Eq, ParseErrorKind::ExpectedEq);
        let c = spec_expr(ks, clamp_pos(b.1, pos + 1, ks.len() as int));
        let d = spec_expect_ev(ks, c.1, TokenKind::Semicolon, ParseErrorKind::ExpectedSemicolon);
        (
            seq![Event::Enter { kind: NodeKind::LetStmt }, Event::Token] + a.0 + b.0 + c.0 + d.0
                + seq![Event::Exit],
            d.1,
        )
    } else if 0 <= pos && pos <= ks.len() {
        let a = spec_expr(ks, pos);
        if 0 <= a.1 && a.1 < ks.len() && ks[a.1] == TokenKind::Semicolon {
            (
                seq![Event::Enter { kind: NodeKind::ExprStmt }] + a.0 + seq![
                    Event::Token,
                    Event::Exit,
                ],
                a.1 + 1,
            )
        } else {
            (seq![Event::Enter { kind: NodeKind::ExprStmt }] + a.0 + seq![Event::Exit], a.1)
        }
    } else {
        (Seq::empty(), pos)
    }
}

/// Model of the statement loop in [`Parser::block`]: statements with
/// recovery until a closing brace or the end of the input; a statement
/// that consumed nothing has the offending token wrapped in an error
/// node.
pub open spec fn spec_block_items(ks: Seq<TokenKind>, pos: int) -> (Seq<Event>, int)
    decreases ks.len() - pos, 6int,
{
    if 0 <= pos && pos < ks.len() && ks[pos] != TokenKind::RBrace {
        let a = spec_stmt(ks, pos);
        if a.1 == pos {
            let b = spec_block_items(ks, pos + 1);
            (
                a.0 + seq![
                    Event::Enter { kind: NodeKind::ErrorNode },
                    Event::Token,
                    Event::Exit,
                ] + b.0,
                b.1,
            )
        } else {
            let b = spec_block_items(ks, clamp_pos(a.1, pos + 1, ks.len() as int));
            (a.0 + b.0, b.1)
        }
    } else {
        (Seq::empty(), pos)
    }
}

/// Model of [`Parser::block`].
pub open spec fn spec_block(ks: Seq<TokenKind>, pos: int) -> (Seq<Event>, int)
    decreases ks.len() - pos, 7int,
{
    if 0 <= pos && pos < ks.len() && ks[pos] == TokenKind::LBrace {
        let a = spec_block_items(ks, pos + 1);
        let b = spec_expect_ev(ks, a.1, TokenKind::RBrace, ParseErrorKind::ExpectedRBrace);
        (
            seq![Event::Enter { kind: NodeKind::Block }, Event::Token] + a.0 + b.0
                + seq![Event::Exit],
            b.1,
        )
    } else {
        (seq![Event::Error { kind: ParseErrorKind::ExpectedLBrace, pos: pos as usize }], pos)
    }
}

/// Model of [`Parser::item`].
pub open spec fn spec_item(ks: Seq<TokenKind>, pos: int) -> (Seq<Event>, int)
    decreases ks.len() - pos, 8int,
{
    if 0 <= pos && pos < ks.len() && ks[pos] == TokenKind::FnKw {
        let a = spec_expect_ev(ks, pos + 1, TokenKind::Ident, ParseErrorKind::ExpectedIdent);
        let b = spec_param_list(ks, a.1);
        let c = spec_block(ks, clamp_pos(b.1, pos + 1, ks.len() as int));
        (
            seq![Event::Enter { kind: NodeKind::FnItem }, Event::Token] + a.0 + b.0 + c.0
                + seq![Event::Exit],
            c.1,
        )
    } else {
        (seq![Event::Error { kind: ParseErrorKind::ExpectedItem, pos: pos as usize }], pos)
    }
}

/// Model of the item loop of the source-file entry point: items with
/// recovery until the end of the input.
pub open spec fn spec_items(ks: Seq<TokenKind>, pos: int) -> (Seq<Event>, int)
    decreases ks.len() - pos, 9int,
{
    if 0 <= pos && pos < ks.len() {
        let a = spec_item(ks, pos);
        if a.1 == pos {
            let b = spec_items(ks, pos + 1);
            (
                a.0 + seq![
                    Event::Enter { kind: NodeKind::ErrorNode },
                    Event::Token,
                    Event::Exit,
                ] + b.0,
                b.1,
            )
        } else {
            let b = spec_items(ks, clamp_pos(a.1, pos + 1, ks.len() as int));
            (a.0 + b.0, b.1)
        }
    } else {
        (Seq::empty(), pos)
    }
}

/// `n` consecutive `Token` events.
pub open spec fn token_run(n: int) -> Seq<Event>
    decreases n,
{
    if n > 0 {
        token_run(n - 1).push(Event::Token)
    } else {
        Seq::empty()
    }
}

/// Model of [`Parser::finish_trailing`]: when unconsumed tokens remain,
/// one trailing-input error and a catch-all error node wrapping them all.
pub open spec fn spec_trailing(ks: Seq<TokenKind>, pos: int) -> (Seq<Event>, int) {
    if 0 <= pos && pos < ks.len() {
        (
            seq![
                Event::Error { kind: ParseErrorKind::UnexpectedTrailing, pos: pos as usize },
                Event::Enter { kind: NodeKind::ErrorNode },
            ] + token_run(ks.len() - pos) + seq![Event::Exit],
            ks.len() as int,
        )
    } else {
        (Seq::empty(), pos)
    }
}

/// The complete parse of `ks` under an entry point: root node around the
/// entry rule's events, with any trailing tokens wrapped (the
/// source-file entry consumes everything through its item loop).
pub open spec fn spec_parse(entry: TopEntryPoint, ks: Seq<TokenKind>) -> Seq<Event> {
    let body = match entry {
        TopEntryPoint::SourceFile => spec_items(ks, 0),
        TopEntryPoint::Expr => {
            let a = spec_expr(ks, 0);
            let b = spec_trailing(ks, clamp_pos(a.1, 0, ks.len() as int));
            (a.0 + b.0, b.1)
        },
        TopEntryPoint::Type => {
            let a = spec_type_rule(ks, 0);
            let b = spec_trailing(ks, clamp_pos(a.1, 0, ks.len() as int));
            (a.0 + b.0, b.1)
        },
        TopEntryPoint::Block => {
            let a = spec_block(ks, 0);
            let b = spec_trailing(ks, clamp_pos(a.1, 0, ks.len() as int));
            (a.0 + b.0, b.1)
        },
        TopEntryPoint::Pattern => {
            let a = spec_pattern_rule(ks, 0);
            let b = spec_trailing(ks, clamp_pos(a.1, 0, ks.len() as int));
            (a.0 + b.0, b.1)
        },
    };
    seq![Event::Enter { kind: root_kind_of(entry) }] + body.0 + seq![Event::Exit]
}

/// Parser state: the filtered token kinds, a cursor, the event log, and
/// the (ghost) depth of currently open nodes.
pub struct Parser {
    pub input: Vec<TokenKind>,
    pub pos: usize,
    pub events: Vec<Event>,
    pub depth: Ghost<int>,
}

impl Parser {
    /// The parser invariant: the cursor stays in range, the event log is a
    /// well-formed prefix whose depth matches the open-node count, every
    /// consumed token was emitted exactly once, and errors were recorded
    /// at non-decreasing positions never ahead of the cursor.
    pub open spec fn wf(self) -> bool {
        &&& self.pos <= self.input.len()
        &&& ev_wf_prefix(self.events@)
        &&& ev_depth(self.events@) == self.depth@
        &&& self.depth@ >= 0
        &&& ev_tokens(self.events@) == self.pos as int
        &&& errors_bounded(self.events@, self.pos as int)
        &&& errors_sorted(self.events@)
    }

    /// A fresh parser over `input`: cursor at the start, no events, no
    /// open nodes.
    pub fn new(input: Vec<TokenKind>) -> (r: Parser)
        ensures
            r.wf(),
            r.input == input,
            r.pos == 0,
            r.events@ == Seq::<Event>::empty(),
            r.depth@ == 0,
    {
        let r = Parser { input, pos: 0, events: Vec::new(), depth: Ghost(0) };
        proof {
            assert(r.events@ =~= Seq::<Event>::empty());
        }
        r
    }

    /// Whether the cursor stands on a token of kind `k`.
    pub fn at(&self, k: TokenKind) -> (r: bool)
        ensures
            r == (self.pos < self.input.len() && self.input@[self.pos as int] == k),
    {
        self.pos < self.input.len() && self.input[self.pos] == k
    }

    /// Open a node of kind `kind`: emits `Enter`.
    pub fn start_node(&mut self, kind: NodeKind)
        requires
            old(self).wf(),
        ensures
            final(self).wf(),
            final(self).input == old(self).input,
            final(self).pos == old(self).pos,
            final(self).depth@ == old(self).depth@ + 1,
            final(self).events@ == old(self).events@.push(Event::Enter { kind }),
            ev_extends(old(self).events@, final(self).events@, old(self).depth@),
    {
        let e = Event::Enter { kind };
        proof {
            lemma_ev_push(self.events@, e);
            lemma_wf_prefix_push(self.events@, e);
            lemma_extends_push(self.events@, e, self.depth@);
        }
        self.events.push(e);
        self.depth = Ghost(self.depth@ + 1);
    }

    /// Close the innermost open node: emits `Exit`.
    pub fn finish_node(&mut self)
        requires
            old(self).wf(),
            old(self).depth@ >= 1,
        ensures
            final(self).wf(),
            final(self).input == old(self).input,
            final(self).pos == old(self).pos,
            final(self).depth@ == old(self).depth@ - 1,
            final(self).events@ == old(self).events@.push(Event::Exit),
            ev_extends(old(self).events@, final(self).events@, old(self).depth@ - 1),
    {
        proof {
            lemma_ev_push(self.events@, Event::Exit);
            lemma_wf_prefix_push(self.events@, Event::Exit);
            lemma_extends_push(self.events@, Event::Exit, self.depth@ - 1);
        }
        self.events.push(Event::Exit);
        self.depth = Ghost(self.depth@ - 1);
    }

    /// Consume the token under the cursor: emits `Token` and advances.
    /// Tokens are consumed only inside an open node.
    pub fn bump(&mut self)
        requires
            old(self).wf(),
            old(self).pos < old(self).input.len(),
            old(self).depth@ >= 1,
        ensures
            final(self).wf(),
            final(self).input == old(self).input,
            final(self).pos == old(self).pos + 1,
            final(self).depth@ == old(self).depth@,
            final(self).events@ == old(self).events@.push(Event::Token),
            ev_extends(old(self).events@, final(self).events@, old(self).depth@),
    {
        proof {
            lemma_ev_push(self.events@, Event::Token);
            lemma_wf_prefix_push(self.events@, Event::Token);
            lemma_extends_push(self.events@, Event::Token, self.depth@);
        }
        self.events.push(Event::Token);
        self.pos = self.pos + 1;
    }

    /// Record a syntax error at the current position without consuming
    /// anything.
    pub fn error(&mut self, kind: ParseErrorKind)
        requires
            old(self).wf(),
        ensures
            final(self).wf(),
            final(self).input == old(self).input,
            final(self).pos == old(self).pos,
            final(self).depth@ == old(self).depth@,
            final(self).events@ == old(self).events@.push(
                Event::Error { kind, pos: old(self).pos },
            ),
            ev_extends(old(self).events@, final(self).events@, old(self).depth@),
    {
        let e = Event::Error { kind, pos: self.pos };
        proof {
            lemma_ev_push(self.events@, e);
            lemma_wf_prefix_push(self.events@, e);
            lemma_extends_push(self.events@, e, self.depth@);
        }
        self.events.push(e);
    }

    /// If the cursor stands on `k`, consume it; otherwise record `err`
    /// and consume nothing: exactly [`spec_expect_ev`].
    pub fn expect(&mut self, k: TokenKind, err: ParseErrorKind)
        requires
            old(self).wf(),
            old(self).depth@ >= 1,
        ensures
            final(self).wf(),
            final(self).input == old(self).input,
            final(self).depth@ == old(self).depth@,
            old(self).pos <= final(self).pos <= old(self).pos + 1,
            ev_extends(old(self).events@, final(self).events@, old(self).depth@),
            final(self).events@ == old(self).events@ + spec_expect_ev(
                old(self).input@,
                old(self).pos as int,
                k,
                err,
            ).0,
            final(self).pos as int == spec_expect_ev(
                old(self).input@,
                old(self).pos as int,
                k,
                err,
            ).1,
    {
        let ghost es0 = self.events@;
        let ghost ks = self.input@;
        let ghost p0 = self.pos as int;
        if self.at(k) {
            self.bump();
        } else {
            self.error(err);
        }
        proof {
            assert(self.events@ =~= es0 + spec_expect_ev(ks, p0, k, err).0);
        }
    }

    /// Wrap the token under the cursor in an error node and consume it:
    /// the recovery step that guarantees forward progress. Emits exactly
    /// `Enter(ErrorNode)`, `Token`, `Exit`.
    pub fn bump_as_error_node(&mut self)
        requires
            old(self).wf(),
            old(self).pos < old(self).input.len(),
        ensures
            final(self).wf(),
            final(self).input == old(self).input,
            final(self).pos == old(self).pos + 1,
            final(self).depth@ == old(self).depth@,
            ev_extends(old(self).events@, final(self).events@, old(self).depth@),
            final(self).events@ == old(self).events@ + seq![
                Event::Enter { kind: NodeKind::ErrorNode },
                Event::Token,
                Event::Exit,
            ],
    {
        let ghost es0 = self.events@;
        let ghost d0 = self.depth@;
        self.start_node(NodeKind::ErrorNode);
        let ghost es1 = self.events@;
        self.bump();
        let ghost es2 = self.events@;
        self.finish_node();
        proof {
            lemma_extends_trans(es0, es1, es2, d0, d0 + 1);
            lemma_extends_trans(es0, es2, self.events@, d0, d0);
            assert(self.events@ =~= es0 + seq![
                Event::Enter { kind: NodeKind::ErrorNode },
                Event::Token,
                Event::Exit,
            ]);
        }
    }

    /// A primary expression: an integer or string literal, a name, or a
    /// parenthesized expression. Records an error, consuming nothing, if
    /// the cursor stands on none of these. Emits exactly
    /// [`spec_primary`].
    pub fn primary(&mut self)
        requires
            old(self).wf(),
        ensures
            final(self).wf(),
            final(self).input == old(self).input,
            final(self).depth@ == old(self).depth@,
            final(self).pos >= old(self).pos,
            ev_extends(old(self).events@, final(self).events@, old(self).depth@),
            final(self).events@ == old(self).events@ + spec_primary(
                old(self).input@,
                old(self).pos as int,
            ).0,
            final(self).pos as int == spec_primary(old(self).input@, old(self).pos as int).1,
        decreases old(self).input.len() - old(self).pos, 1int,
    {
        let ghost es0 = self.events@;
        let ghost d0 = self.depth@;
        let ghost ks = self.input@;
        let ghost p0 = self.pos as int;
        if self.at(TokenKind::IntNumber) || self.at(TokenKind::Str) {
            self.start_node(NodeKind::Literal);
            let ghost es1 = self.events@;
            self.bump();
            let ghost es2 = self.events@;
            self.finish_node();
            proof {
                lemma_extends_trans(es0, es1, es2, d0, d0 + 1);
                lemma_extends_trans(es0, es2, self.events@, d0, d0);
                assert(self.events@ =~= es0 + spec_primary(ks, p0).0);
            }
        } else if self.at(TokenKind::Ident) {
            self.start_node(NodeKind::NameRef);
            let ghost es1 = self.events@;
            self.bump();
            let ghost es2 = self.events@;
            self.finish_node();
            proof {
                lemma_extends_trans(es0, es1, es2, d0, d0 + 1);
                lemma_extends_trans(es0, es2, self.events@, d0, d0);
                assert(self.events@ =~= es0 + spec_primary(ks, p0).0);
            }
        } else if self.at(TokenKind::LParen) {
            self.start_node(NodeKind::ParenExpr);
            let ghost es1 = self.events@;
            self.bump();
            let ghost es2 = self.events@;
            self.expr();
            let ghost es3 = self.events@;
            self.expect(TokenKind::RParen, ParseErrorKind::ExpectedRParen);
            let ghost es4 = self.events@;
            self.finish_node();
            proof {
                lemma_extends_trans(es0, es1, es2, d0, d0 + 1);
                lemma_extends_trans(es0, es2, es3, d0, d0 + 1);
                lemma_extends_trans(es0, es3, es4, d0, d0 + 1);
                lemma_extends_trans(es0, es4, self.events@, d0, d0);
                let a = spec_expr(ks, p0 + 1);
                let b = spec_expect_ev(ks, a.1, TokenKind::RParen, ParseErrorKind::ExpectedRParen);
                assert(self.events@ =~= es0 + spec_primary(ks, p0).0);
                assert(self.pos as int == spec_primary(ks, p0).1);
            }
        } else {
            self.error(ParseErrorKind::ExpectedExpr);
            proof {
                assert(self.events@ =~= es0 + spec_primary(ks, p0).0);
            }
        }
    }

    /// An expression: a primary followed by any number of binary-operator
    /// plus primary tails, all inside one `Expr` node. Emits exactly
    /// [`spec_expr`].
    pub fn expr(&mut self)
        requires
            old(self).wf(),
        ensures
            final(self).wf(),
            final(self).input == old(self).input,
            final(self).depth@ == old(self).depth@,
            final(self).pos >= old(self).pos,
            ev_extends(old(self).events@, final(self).events@, old(self).depth@),
            final(self).events@ == old(self).events@ + spec_expr(
                old(self).input@,
                old(self).pos as int,
            ).0,
            final(self).pos as int == spec_expr(old(self).input@, old(self).pos as int).1,
        decreases old(self).input.len() - old(self).pos, 2int,
    {
        let ghost es0 = self.events@;
        let ghost d0 = self.depth@;
        let ghost ks = self.input@;
        let ghost p0 = self.pos as int;
        self.start_node(NodeKind::Expr);
        let ghost es1 = self.events@;
        self.primary();
        proof {
            lemma_extends_trans(es0, es1, self.events@, d0, d0 + 1);
            let a = spec_primary(ks, p0);
            assert(clamp_pos(a.1, p0, ks.len() as int) == a.1);
            assert(es0 + spec_expr(ks, p0).0 =~= self.events@ + spec_expr_tail(
                ks,
                self.pos as int,
            ).0 + seq![Event::Exit]);
        }
        while self.at(TokenKind::Plus) || self.at(TokenKind::Minus) || self.at(TokenKind::Star)
            || self.at(TokenKind::Slash)
            invariant
                self.wf(),
                self.input == old(self).input,
                self.input@ == ks,
                d0 >= 0,
                self.depth@ == d0 + 1,
                self.pos >= old(self).pos,
                ev_extends(es0, self.events@, d0),
                es0 + spec_expr(ks, p0).0 == self.events@ + spec_expr_tail(ks, self.pos as int).0
                    + seq![Event::Exit],
                spec_expr(ks, p0).1 == spec_expr_tail(ks, self.pos as int).1,
            decreases self.input.len() - self.pos,
        {
            let ghost cur = self.pos as int;
            let ghost esa = self.events@;
            self.bump();
            let ghost esb = self.events@;
            self.primary();
            proof {
                lemma_extends_trans(es0, esa, esb, d0, d0 + 1);
                lemma_extends_trans(es0, esb, self.events@, d0, d0 + 1);
                let a2 = spec_primary(ks, cur + 1);
                assert(clamp_pos(a2.1, cur + 1, ks.len() as int) == a2.1);
                assert(spec_expr_tail(ks, cur).0 == seq![Event::Token] + a2.0 + spec_expr_tail(
                    ks,
                    a2.1,
                ).0);
                assert(esa + spec_expr_tail(ks, cur).0 + seq![Event::Exit] =~= self.events@
                    + spec_expr_tail(ks, self.pos as int).0 + seq![Event::Exit]);
            }
        }
        let ghost es2 = self.events@;
        let ghost cur = self.pos as int;
        self.finish_node();
        proof {
            lemma_extends_trans(es0, es2, self.events@, d0, d0);
            assert(spec_expr_tail(ks, cur).0 =~= Seq::<Event>::empty());
            assert(self.events@ =~= es0 + spec_expr(ks, p0).0);
            assert(self.pos as int == spec_expr(ks, p0).1);
        }
    }

    /// A type: a named type, a reference type `& T`, or a parenthesized
    /// type. Records an error, consuming nothing, on anything else.
    /// Emits exactly [`spec_type_rule`].
    pub fn type_rule(&mut self)
        requires
            old(self).wf(),
        ensures
            final(self).wf(),
            final(self).input == old(self).input,
            final(self).depth@ == old(self).depth@,
            final(self).pos >= old(self).pos,
            ev_extends(old(self).events@, final(self).events@, old(self).depth@),
            final(self).events@ == old(self).events@ + spec_type_rule(
                old(self).input@,
                old(self).pos as int,
            ).0,
            final(self).pos as int == spec_type_rule(old(self).input@, old(self).pos as int).1,
        decreases old(self).input.len() - old(self).pos, 1int,
    {
        let ghost es0 = self.events@;
        let ghost d0 = self.depth@;
        let ghost ks = self.input@;
        let ghost p0 = self.pos as int;
        if self.at(TokenKind::Ident) {
            self.start_node(NodeKind::PathType);
            let ghost es1 = self.events@;
            self.bump();
            let ghost es2 = self.events@;
            self.finish_node();
            proof {
                lemma_extends_trans(es0, es1, es2, d0, d0 + 1);
                lemma_extends_trans(es0, es2, self.events@, d0, d0);
                assert(self.events@ =~= es0 + spec_type_rule(ks, p0).0);
            }
        } else if self.at(TokenKind::Amp) {
            self.start_node(NodeKind::RefType);
            let ghost es1 = self.events@;
            self.bump();
            let ghost es2 = self.events@;
            self.type_rule();
            let ghost es3 = self.events@;
            self.finish_node();
            proof {
                lemma_extends_trans(es0, es1, es2, d0, d0 + 1);
                lemma_extends_trans(es0, es2, es3, d0, d0 + 1);
                lemma_extends_trans(es0, es3, self.events@, d0, d0);
                assert(self.events@ =~= es0 + spec_type_rule(ks, p0).0);
            }
        } else if self.at(TokenKind::LParen) {
            self.start_node(NodeKind::ParenType);
            let ghost es1 = self.events@;
            self.bump();
            let ghost es2 = self.events@;
            self.type_rule();
            let ghost es3 = self.events@;
            self.expect(TokenKind::RParen, ParseErrorKind::ExpectedRParen);
            let ghost es4 = self.events@;
            self.finish_node();
            proof {
                lemma_extends_trans(es0, es1, es2, d0, d0 + 1);
                lemma_extends_trans(es0, es2, es3, d0, d0 + 1);
                lemma_extends_trans(es0, es3, es4, d0, d0 + 1);
                lemma_extends_trans(es0, es4, self.events@, d0, d0);
                assert(self.events@ =~= es0 + spec_type_rule(ks, p0).0);
                assert(self.pos as int == spec_type_rule(ks, p0).1);
            }
        } else {
            self.error(ParseErrorKind::ExpectedType);
            proof {
                assert(self.events@ =~= es0 + spec_type_rule(ks, p0).0);
            }
        }
    }

    /// A pattern: an identifier (which covers the wildcard `_`, lexed as
    /// an identifier). Records an error, consuming nothing, on anything
    /// else. Emits exactly [`spec_pattern_rule`].
    pub fn pattern_rule(&mut self)
        requires
            old(self).wf(),
        ensures
            final(self).wf(),
            final(self).input == old(self).input,
            final(self).depth@ == old(self).depth@,
            final(self).pos >= old(self).pos,
            ev_extends(old(self).events@, final(self).events@, old(self).depth@),
            final(self).events@ == old(self).events@ + spec_pattern_rule(
                old(self).input@,
                old(self).pos as int,
            ).0,
            final(self).pos as int == spec_pattern_rule(old(self).input@, old(self).pos as int).1,
    {
        let ghost es0 = self.events@;
        let ghost d0 = self.depth@;
        let ghost ks = self.input@;
        let ghost p0 = self.pos as int;
        if self.at(TokenKind::Ident) {
            self.start_node(NodeKind::IdentPat);
            let ghost es1 = self.events@;
            self.bump();
            let ghost es2 = self.events@;
            self.finish_node();
            proof {
                lemma_extends_trans(es0, es1, es2, d0, d0 + 1);
                lemma_extends_trans(es0, es2, self.events@, d0, d0);
                assert(self.events@ =~= es0 + spec_pattern_rule(ks, p0).0);
            }
        } else {
            self.error(ParseErrorKind::ExpectedPattern);
            proof {
                assert(self.events@ =~= es0 + spec_pattern_rule(ks, p0).0);
            }
        }
    }

    /// A statement: `let <pattern> = <expr> ;` or an expression statement
    /// with an optional trailing semicolon. Emits exactly [`spec_stmt`].
    #[verifier::rlimit(100)]
    pub fn stmt(&mut self)
        requires
            old(self).wf(),
        ensures
            final(self).wf(),
            final(self).input == old(self).input,
            final(self).depth@ == old(self).depth@,
            final(self).pos >= old(self).pos,
            ev_extends(old(self).events@, final(self).events@, old(self).depth@),
            final(self).events@ == old(self).events@ + spec_stmt(
                old(self).input@,
                old(self).pos as int,
            ).0,
            final(self).pos as int == spec_stmt(old(self).input@, old(self).pos as int).1,
        decreases old(self).input.len() - old(self).pos, 3int,
    {
        let ghost es0 = self.events@;
        let ghost d0 = self.depth@;
        let ghost ks = self.input@;
        let ghost p0 = self.pos as int;
        if self.at(TokenKind::LetKw) {
            self.start_node(NodeKind::LetStmt);
            let ghost es1 = self.events@;
            self.bump();
            let ghost es2 = self.events@;
            self.pattern_rule();
            let ghost es3 = self.events@;
            self.expect(TokenKind::Eq, ParseErrorKind::ExpectedEq);
            let ghost es4 = self.events@;
            proof {
                let a = spec_pattern_rule(ks, p0 + 1);
                let b = spec_expect_ev(ks, a.1, TokenKind::Eq, ParseErrorKind::ExpectedEq);
                assert(clamp_pos(b.1, p0 + 1, ks.len() as int) == b.1);
            }
            self.expr();
            let ghost es5 = self.events@;
            self.expect(TokenKind::Semicolon, ParseErrorKind::ExpectedSemicolon);
            let ghost es6 = self.events@;
            self.finish_node();
            proof {
                lemma_extends_trans(es0, es1, es2, d0, d0 + 1);
                lemma_extends_trans(es0, es2, es3, d0, d0 + 1);
                lemma_extends_trans(es0, es3, es4, d0, d0 + 1);
                lemma_extends_trans(es0, es4, es5, d0, d0 + 1);
                lemma_extends_trans(es0, es5, es6, d0, d0 + 1);
                lemma_extends_trans(es0, es6, self.events@, d0, d0);
                assert(self.events@ =~= es0 + spec_stmt(ks, p0).0);
                assert(self.pos as int == spec_stmt(ks, p0).1);
            }
        } else {
            self.start_node(NodeKind::ExprStmt);
            let ghost es1 = self.events@;
            self.expr();
            let ghost es2 = self.events@;
            if self.at(TokenKind::Semicolon) {
                self.bump();
            }
            let ghost es3 = self.events@;
            self.finish_node();
            proof {
                lemma_extends_trans(es0, es1, es2, d0, d0 + 1);
                lemma_extends_trans(es0, es2, es3, d0, d0 + 1);
                lemma_extends_trans(es0, es3, self.events@, d0, d0);
                assert(self.events@ =~= es0 + spec_stmt(ks, p0).0);
                assert(self.pos as int == spec_stmt(ks, p0).1);
            }
        }
    }

    /// A statement block `{ ... }`. If the opening brace is missing, an
    /// error is recorded and nothing is consumed. Inside the braces,
    /// statements are parsed with recovery: a statement that consumes
    /// nothing has its offending token wrapped in an error node, so the
    /// loop always makes progress. Emits exactly [`spec_block`].
    pub fn block(&mut self)
        requires
            old(self).wf(),
        ensures
            final(self).wf(),
            final(self).input == old(self).input,
            final(self).depth@ == old(self).depth@,
            final(self).pos >= old(self).pos,
            ev_extends(old(self).events@, final(self).events@, old(self).depth@),
            final(self).events@ == old(self).events@ + spec_block(
                old(self).input@,
                old(self).pos as int,
            ).0,
            final(self).pos as int == spec_block(old(self).input@, old(self).pos as int).1,
        decreases old(self).input.len() - old(self).pos, 4int,
    {
        let ghost es0 = self.events@;
        let ghost d0 = self.depth@;
        let ghost ks = self.input@;
        let ghost p0 = self.pos as int;
        if !self.at(TokenKind::LBrace) {
            self.error(ParseErrorKind::ExpectedLBrace);
            proof {
                lemma_extends_refl(es0, d0);
                assert(self.events@ =~= es0 + spec_block(ks, p0).0);
            }
            return ;
        }
        self.start_node(NodeKind::Block);
        let ghost es1 = self.events@;
        self.bump();
        let ghost es1b = self.events@;
        proof {
            lemma_extends_trans(es0, es1, self.events@, d0, d0 + 1);
            assert(self.events@ + spec_block_items(ks, self.pos as int).0 =~= es1b
                + spec_block_items(ks, p0 + 1).0);
        }
        while self.pos < self.input.len() && !self.at(TokenKind::RBrace)
            invariant
                self.wf(),
                self.input == old(self).input,
                self.input@ == ks,
                d0 >= 0,
                self.depth@ == d0 + 1,
                self.pos > old(self).pos,
                ev_extends(es0, self.events@, d0),
                self.events@ + spec_block_items(ks, self.pos as int).0 == es1b + spec_block_items(
                    ks,
                    p0 + 1,
                ).0,
                spec_block_items(ks, self.pos as int).1 == spec_block_items(ks, p0 + 1).1,
            decreases self.input.len() - self.pos,
        {
            let before = self.pos;
            let ghost bcur = before as int;
            let ghost esa = self.events@;
            self.stmt();
            let ghost esb = self.events@;
            proof {
                lemma_extends_trans(es0, esa, esb, d0, d0 + 1);
            }
            if self.pos == before {
                self.bump_as_error_node();
                proof {
                    lemma_extends_trans(es0, esb, self.events@, d0, d0 + 1);
                    let a = spec_stmt(ks, bcur);
                    assert(spec_block_items(ks, bcur).0 == a.0 + seq![
                        Event::Enter { kind: NodeKind::ErrorNode },
                        Event::Token,
                        Event::Exit,
                    ] + spec_block_items(ks, bcur + 1).0);
                    assert(self.events@ + spec_block_items(ks, self.pos as int).0 =~= esa
                        + spec_block_items(ks, bcur).0);
                }
            } else {
                proof {
                    let a = spec_stmt(ks, bcur);
                    assert(clamp_pos(a.1, bcur + 1, ks.len() as int) == a.1);
                    assert(spec_block_items(ks, bcur).0 == a.0 + spec_block_items(ks, a.1).0);
                    assert(self.events@ + spec_block_items(ks, self.pos as int).0 =~= esa
                        + spec_block_items(ks, bcur).0);
                }
            }
        }
        let ghost es2 = self.events@;
        let ghost cur = self.pos as int;
        proof {
            assert(spec_block_items(ks, cur).0 =~= Seq::<Event>::empty());
        }
        self.expect(TokenKind::RBrace, ParseErrorKind::ExpectedRBrace);
        let ghost es3 = self.events@;
        self.finish_node();
        proof {
            lemma_extends_trans(es0, es2, es3, d0, d0 + 1);
            lemma_extends_trans(es0, es3, self.events@, d0, d0);
            assert(self.events@ =~= es0 + spec_block(ks, p0).0);
            assert(self.pos as int == spec_block(ks, p0).1);
        }
    }

    /// An item: a function `fn <name> ( ) <block>`. Records an error,
    /// consuming nothing, if the cursor does not stand on `fn`. Emits
    /// exactly [`spec_item`].
    pub fn item(&mut self)
        requires
            old(self).wf(),
        ensures
            final(self).wf(),
            final(self).input == old(self).input,
            final(self).depth@ == old(self).depth@,
            final(self).pos >= old(self).pos,
            ev_extends(old(self).events@, final(self).events@, old(self).depth@),
            final(self).events@ == old(self).events@ + spec_item(
                old(self).input@,
                old(self).pos as int,
            ).0,
            final(self).pos as int == spec_item(old(self).input@, old(self).pos as int).1,
        decreases old(self).input.len() - old(self).pos, 5int,
    {
        let ghost es0 = self.events@;
        let ghost d0 = self.depth@;
        let ghost ks = self.input@;
        let ghost p0 = self.pos as int;
        if self.at(TokenKind::FnKw) {
            self.start_node(NodeKind::FnItem);
            let ghost es1 = self.events@;
            self.bump();
            let ghost es2 = self.events@;
            self.expect(TokenKind::Ident, ParseErrorKind::ExpectedIdent);
            let ghost es3 = self.events@;
            self.param_list();
            let ghost es4 = self.events@;
            proof {
                let a = spec_expect_ev(ks, p0 + 1, TokenKind::Ident, ParseErrorKind::ExpectedIdent);
                let b = spec_param_list(ks, a.1);
                assert(clamp_pos(b.1, p0 + 1, ks.len() as int) == b.1);
            }
            self.block();
            let ghost es5 = self.events@;
            self.finish_node();
            proof {
                lemma_extends_trans(es0, es1, es2, d0, d0 + 1);
                lemma_extends_trans(es0, es2, es3, d0, d0 + 1);
                lemma_extends_trans(es0, es3, es4, d0, d0 + 1);
                lemma_extends_trans(es0, es4, es5, d0, d0 + 1);
                lemma_extends_trans(es0, es5, self.events@, d0, d0);
                assert(self.events@ =~= es0 + spec_item(ks, p0).0);
                assert(self.pos as int == spec_item(ks, p0).1);
            }
        } else {
            self.error(ParseErrorKind::ExpectedItem);
            proof {
                assert(self.events@ =~= es0 + spec_item(ks, p0).0);
            }
        }
    }

    /// An empty parameter list `( )`, as a node of its own. Emits
    /// exactly [`spec_param_list`].
    pub fn param_list(&mut self)
        requires
            old(self).wf(),
        ensures
            final(self).wf(),
            final(self).input == old(self).input,
            final(self).depth@ == old(self).depth@,
            final(self).pos >= old(self).pos,
            ev_extends(old(self).events@, final(self).events@, old(self).depth@),
            final(self).events@ == old(self).events@ + spec_param_list(
                old(self).input@,
                old(self).pos as int,
            ).0,
            final(self).pos as int == spec_param_list(old(self).input@, old(self).pos as int).1,
    {
        let ghost es0 = self.events@;
        let ghost d0 = self.depth@;
        let ghost ks = self.input@;
        let ghost p0 = self.pos as int;
        self.start_node(NodeKind::ParamList);
        let ghost es1 = self.events@;
        self.expect(TokenKind::LParen, ParseErrorKind::ExpectedLParen);
        let ghost es2 = self.events@;
        self.expect(TokenKind::RParen, ParseErrorKind::ExpectedRParen);
        let ghost es3 = self.events@;
        self.finish_node();
        proof {
            lemma_extends_trans(es0, es1, es2, d0, d0 + 1);
            lemma_extends_trans(es0, es2, es3, d0, d0 + 1);
            lemma_extends_trans(es0, es3, self.events@, d0, d0);
            assert(self.events@ =~= es0 + spec_param_list(ks, p0).0);
            assert(self.pos as int == spec_param_list(ks, p0).1);
        }
    }

    /// Wrap any unconsumed trailing tokens in one catch-all error node,
    /// after recording an error; afterwards the cursor stands at the end
    /// of the input. Emits exactly [`spec_trailing`].
    pub fn finish_trailing(&mut self)
        requires
            old(self).wf(),
        ensures
            final(self).wf(),
            final(self).input == old(self).input,
            final(self).depth@ == old(self).depth@,
            final(self).pos == final(self).input.len(),
            ev_extends(old(self).events@, final(self).events@, old(self).depth@),
            final(self).events@ == old(self).events@ + spec_trailing(
                old(self).input@,
                old(self).pos as int,
            ).0,
            final(self).pos as int == spec_trailing(old(self).input@, old(self).pos as int).1,
    {
        let ghost es0 = self.events@;
        let ghost d0 = self.depth@;
        let ghost ks = self.input@;
        let ghost p0 = self.pos as int;
        if self.pos < self.input.len() {
            self.error(ParseErrorKind::UnexpectedTrailing);
            let ghost es1 = self.events@;
            self.start_node(NodeKind::ErrorNode);
            let ghost es2 = self.events@;
            proof {
                lemma_extends_trans(es0, es1, es2, d0, d0);
                assert(self.events@ =~= es2 + token_run(self.pos as int - p0));
            }
            while self.pos < self.input.len()
                invariant
                    self.wf(),
                    self.input == old(self).input,
                    d0 >= 0,
                    p0 <= self.pos as int,
                    self.depth@ == d0 + 1,
                    ev_extends(es0, self.events@, d0),
                    self.events@ == es2 + token_run(self.pos as int - p0),
                decreases self.input.len() - self.pos,
            {
                let ghost esa = self.events@;
                self.bump();
                proof {
                    lemma_extends_trans(es0, esa, self.events@, d0, d0 + 1);
                }
            }
            let ghost es3 = self.events@;
            self.finish_node();
            proof {
                lemma_extends_trans(es0, es3, self.events@, d0, d0);
                assert(self.events@ =~= es0 + spec_trailing(ks, p0).0);
            }
        } else {
            proof {
                lemma_extends_refl(es0, d0);
                assert(self.events@ =~= es0 + spec_trailing(ks, p0).0);
            }
        }
    }
}

impl TopEntryPoint {
    /// Parse the whole (trivia-filtered) input under this entry point.
    ///
    /// The result is exactly the model [`spec_parse`] of the entry point
    /// and the input — parsing is deterministic — and it is a
    /// well-formed event sequence: one root node spanning everything,
    /// correct nesting throughout, exactly one `Token` event per input
    /// token (full consumption), and error positions bounded by the
    /// input length and in emission order. Total: returns for any finite
    /// input.
    #[verifier::rlimit(100)]
    pub fn parse(self, input: Vec<TokenKind>) -> (r: Vec<Event>)
        ensures
            r@ == spec_parse(self, input@),
            wf_events(r@),
            ev_tokens(r@) == input@.len() as int,
            errors_bounded(r@, input@.len() as int),
    {
        let ghost ks = input@;
        let mut p = Parser::new(input);
        let root_kind = match self {
            TopEntryPoint::SourceFile => NodeKind::SourceFile,
            TopEntryPoint::Expr => NodeKind::ExprFragment,
            TopEntryPoint::Type => NodeKind::TypeFragment,
            TopEntryPoint::Block => NodeKind::BlockFragment,
            TopEntryPoint::Pattern => NodeKind::PatFragment,
        };
        proof {
            assert(root_kind == root_kind_of(self));
        }
        p.start_node(root_kind);
        let ghost es1 = p.events@;
        proof {
            lemma_extends_refl(es1, 1);
        }
        match self {
            TopEntryPoint::SourceFile => {
                while p.pos < p.input.len()
                    invariant
                        p.wf(),
                        p.input@ == ks,
                        p.depth@ == 1,
                        ev_extends(es1, p.events@, 1),
                        p.events@ + spec_items(ks, p.pos as int).0 == es1 + spec_items(ks, 0).0,
                        spec_items(ks, p.pos as int).1 == spec_items(ks, 0).1,
                    decreases p.input.len() - p.pos,
                {
                    let before = p.pos;
                    let ghost bcur = before as int;
                    let ghost esa = p.events@;
                    p.item();
                    let ghost esb = p.events@;
                    proof {
                        lemma_extends_trans(es1, esa, esb, 1, 1);
                    }
                    if p.pos == before {
                        p.bump_as_error_node();
                        proof {
                            lemma_extends_trans(es1, esb, p.events@, 1, 1);
                            let a = spec_item(ks, bcur);
                            assert(spec_items(ks, bcur).0 == a.0 + seq![
                                Event::Enter { kind: NodeKind::ErrorNode },
                                Event::Token,
                                Event::Exit,
                            ] + spec_items(ks, bcur + 1).0);
                            assert(p.events@ + spec_items(ks, p.pos as int).0 =~= esa + spec_items(
                                ks,
                                bcur,
                            ).0);
                        }
                    } else {
                        proof {
                            let a = spec_item(ks, bcur);
                            assert(clamp_pos(a.1, bcur + 1, ks.len() as int) == a.1);
                            assert(spec_items(ks, bcur).0 == a.0 + spec_items(ks, a.1).0);
                            assert(p.events@ + spec_items(ks, p.pos as int).0 =~= esa + spec_items(
                                ks,
                                bcur,
                            ).0);
                        }
                    }
                }
                proof {
                    assert(spec_items(ks, p.pos as int).0 =~= Seq::<Event>::empty());
                    assert(p.events@ =~= es1 + spec_items(ks, 0).0);
                    assert(p.pos as int == spec_items(ks, 0).1);
                }
            },
            TopEntryPoint::Expr => {
                let ghost esa = p.events@;
                p.expr();
                let ghost esb = p.events@;
                proof {
                    let a = spec_expr(ks, 0);
                    assert(clamp_pos(a.1, 0, ks.len() as int) == a.1);
                }
                p.finish_trailing();
                proof {
                    lemma_extends_trans(es1, esa, esb, 1, 1);
                    lemma_extends_trans(es1, esb, p.events@, 1, 1);
                }
            },
            TopEntryPoint::Type => {
                let ghost esa = p.events@;
                p.type_rule();
                let ghost esb = p.events@;
                proof {
                    let a = spec_type_rule(ks, 0);
                    assert(clamp_pos(a.1, 0, ks.len() as int) == a.1);
                }
                p.finish_trailing();
                proof {
                    lemma_extends_trans(es1, esa, esb, 1, 1);
                    lemma_extends_trans(es1, esb, p.events@, 1, 1);
                }
            },
            TopEntryPoint::Block => {
                let ghost esa = p.events@;
                p.block();
                let ghost esb = p.events@;
                proof {
                    let a = spec_block(ks, 0);
                    assert(clamp_pos(a.1, 0, ks.len() as int) == a.1);
                }
                p.finish_trailing();
                proof {
                    lemma_extends_trans(es1, esa, esb, 1, 1);
                    lemma_extends_trans(es1, esb, p.events@, 1, 1);
                }
            },
            TopEntryPoint::Pattern => {
                let ghost esa = p.events@;
                p.pattern_rule();
                let ghost esb = p.events@;
                proof {
                    let a = spec_pattern_rule(ks, 0);
                    assert(clamp_pos(a.1, 0, ks.len() as int) == a.1);
                }
                p.finish_trailing();
                proof {
                    lemma_extends_trans(es1, esa, esb, 1, 1);
                    lemma_extends_trans(es1, esb, p.events@, 1, 1);
                }
            },
        }
        let ghost pre = p.events@;
        p.finish_node();
        proof {
            lemma_ev_push(pre, Event::Exit);
            assert(p.events@ == pre.push(Event::Exit));
            assert(p.events@ =~= spec_parse(self, ks));
            // the root Enter is the first event
            assert(es1.len() == 1);
            assert(es1.is_prefix_of(pre));
            lemma_prefix_take(es1, pre, 1);
            assert(pre.take(1) == es1);
            assert(p.events@.take(1) =~= pre.take(1));
            assert(p.events@[0] == es1[0]);
            assert(p.events@[0] is Enter);
            // every proper prefix after the root Enter stays at depth >= 1
            assert forall|i: int| 0 < i < p.events@.len() implies ev_depth(
                #[trigger] p.events@.take(i),
            ) >= 1 by {
                if i < p.events@.len() {
                    lemma_take_push(pre, Event::Exit, i);
                    assert(p.events@.take(i) == pre.take(i));
                }
            }
            assert(wf_events(p.events@));
        }
        p.events
    }
}

} // verus!
