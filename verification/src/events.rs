//! The parse-event model. The parser emits a flat sequence of events:
//! enter a node, exit the current node, consume one non-trivia token, or
//! record a syntax error at the current input position. Ignoring errors,
//! the `Enter`/`Exit`/`Token` events form a well-nested tree walk; the
//! predicates and lemmas here define and preserve that discipline.

use vstd::prelude::*;

verus! {

/// The kinds of tree nodes the parser can open. `ErrorNode` wraps tokens
/// skipped during error recovery; the `*Fragment` kinds are the root
/// nodes of the non-file entry points.
#[derive(Clone, Copy, PartialEq, Eq, Structural, Debug)]
pub enum NodeKind {
    SourceFile,
    ExprFragment,
    TypeFragment,
    BlockFragment,
    PatFragment,
    FnItem,
    ParamList,
    Block,
    LetStmt,
    ExprStmt,
    Expr,
    Literal,
    NameRef,
    ParenExpr,
    PathType,
    RefType,
    ParenType,
    IdentPat,
    ErrorNode,
}

/// A syntax diagnostic: what the parser expected at the position it
/// records.
#[derive(Clone, Copy, PartialEq, Eq, Structural, Debug)]
pub enum ParseErrorKind {
    ExpectedItem,
    ExpectedExpr,
    ExpectedType,
    ExpectedPattern,
    ExpectedIdent,
    ExpectedLParen,
    ExpectedRParen,
    ExpectedLBrace,
    ExpectedRBrace,
    ExpectedEq,
    ExpectedSemicolon,
    UnexpectedTrailing,
}

/// One parse event. `Error.pos` is an index into the non-trivia token
/// sequence the parser reads (it may equal its length, meaning
/// end-of-input).
#[derive(Clone, Copy, PartialEq, Eq, Structural, Debug)]
#[allow(inconsistent_fields)]
pub enum Event {
    Enter { kind: NodeKind },
    Exit,
    Token,
    Error { kind: ParseErrorKind, pos: usize },
}

/// The display name of a node kind, as it appears in textual dumps.
pub open spec fn node_name(k: NodeKind) -> Seq<char> {
    match k {
        NodeKind::SourceFile => "SourceFile"@,
        NodeKind::ExprFragment => "ExprFragment"@,
        NodeKind::TypeFragment => "TypeFragment"@,
        NodeKind::BlockFragment => "BlockFragment"@,
        NodeKind::PatFragment => "PatFragment"@,
        NodeKind::FnItem => "FnItem"@,
        NodeKind::ParamList => "ParamList"@,
        NodeKind::Block => "Block"@,
        NodeKind::LetStmt => "LetStmt"@,
        NodeKind::ExprStmt => "ExprStmt"@,
        NodeKind::Expr => "Expr"@,
        NodeKind::Literal => "Literal"@,
        NodeKind::NameRef => "NameRef"@,
        NodeKind::ParenExpr => "ParenExpr"@,
        NodeKind::PathType => "PathType"@,
        NodeKind::RefType => "RefType"@,
        NodeKind::ParenType => "ParenType"@,
        NodeKind::IdentPat => "IdentPat"@,
        NodeKind::ErrorNode => "ErrorNode"@,
    }
}

/// Executable name of a node kind, equal to [`node_name`].
pub fn node_name_str(k: NodeKind) -> (r: &'static str)
    ensures
        r@ == node_name(k),
{
    match k {
        NodeKind::SourceFile => "SourceFile",
        NodeKind::ExprFragment => "ExprFragment",
        NodeKind::TypeFragment => "TypeFragment",
        NodeKind::BlockFragment => "BlockFragment",
        NodeKind::PatFragment => "PatFragment",
        NodeKind::FnItem => "FnItem",
        NodeKind::ParamList => "ParamList",
        NodeKind::Block => "Block",
        NodeKind::LetStmt => "LetStmt",
        NodeKind::ExprStmt => "ExprStmt",
        NodeKind::Expr => "Expr",
        NodeKind::Literal => "Literal",
        NodeKind::NameRef => "NameRef",
        NodeKind::ParenExpr => "ParenExpr",
        NodeKind::PathType => "PathType",
        NodeKind::RefType => "RefType",
        NodeKind::ParenType => "ParenType",
        NodeKind::IdentPat => "IdentPat",
        NodeKind::ErrorNode => "ErrorNode",
    }
}

/// The human-readable message of a syntax diagnostic.
pub open spec fn parse_error_message(e: ParseErrorKind) -> Seq<char> {
    match e {
        ParseErrorKind::ExpectedItem => "expected an item"@,
        ParseErrorKind::ExpectedExpr => "expected an expression"@,
        ParseErrorKind::ExpectedType => "expected a type"@,
        ParseErrorKind::ExpectedPattern => "expected a pattern"@,
        ParseErrorKind::ExpectedIdent => "expected an identifier"@,
        ParseErrorKind::ExpectedLParen => "expected an opening paren"@,
        ParseErrorKind::ExpectedRParen => "expected a closing paren"@,
        ParseErrorKind::ExpectedLBrace => "expected an opening brace"@,
        ParseErrorKind::ExpectedRBrace => "expected a closing brace"@,
        ParseErrorKind::ExpectedEq => "expected an equals sign"@,
        ParseErrorKind::ExpectedSemicolon => "expected a semicolon"@,
        ParseErrorKind::UnexpectedTrailing => "unexpected trailing input"@,
    }
}

/// Executable message of a syntax diagnostic, equal to
/// [`parse_error_message`].
pub fn parse_error_message_str(e: ParseErrorKind) -> (r: &'static str)
    ensures
        r@ == parse_error_message(e),
{
    match e {
        ParseErrorKind::ExpectedItem => "expected an item",
        ParseErrorKind::ExpectedExpr => "expected an expression",
        ParseErrorKind::ExpectedType => "expected a type",
        ParseErrorKind::ExpectedPattern => "expected a pattern",
        ParseErrorKind::ExpectedIdent => "expected an identifier",
        ParseErrorKind::ExpectedLParen => "expected an opening paren",
        ParseErrorKind::ExpectedRParen => "expected a closing paren",
        ParseErrorKind::ExpectedLBrace => "expected an opening brace",
        ParseErrorKind::ExpectedRBrace => "expected a closing brace",
        ParseErrorKind::ExpectedEq => "expected an equals sign",
        ParseErrorKind::ExpectedSemicolon => "expected a semicolon",
        ParseErrorKind::UnexpectedTrailing => "unexpected trailing input",
    }
}

/// How one event changes the node-stack depth.
pub open spec fn ev_delta(e: Event) -> int {
    match e {
        Event::Enter { .. } => 1,
        Event::Exit => -1,
        _ => 0,
    }
}

/// The node-stack depth after a sequence of events.
pub open spec fn ev_depth(es: Seq<Event>) -> int
    decreases es.len(),
{
    if es.len() == 0 {
        0
    } else {
        ev_depth(es.drop_last()) + ev_delta(es.last())
    }
}

/// The number of `Token` events in a sequence: the number of non-trivia
/// tokens the parser has consumed.
pub open spec fn ev_tokens(es: Seq<Event>) -> int
    decreases es.len(),
{
    if es.len() == 0 {
        0
    } else {
        ev_tokens(es.drop_last()) + if es.last() is Token {
            1int
        } else {
            0int
        }
    }
}

/// The recorded position of an error event (meaningful only for `Error`).
pub open spec fn error_pos(e: Event) -> int {
    match e {
        Event::Error { pos, .. } => pos as int,
        _ => -1,
    }
}

/// The event at index `i` respects the stack discipline: `Exit` and
/// `Token` may occur only while at least one node is open.
pub open spec fn ev_ok_at(es: Seq<Event>, i: int) -> bool {
    (es[i] is Exit ==> ev_depth(es.take(i)) >= 1) && (es[i] is Token ==> ev_depth(es.take(i))
        >= 1)
}

/// Every event so far respects the stack discipline.
pub open spec fn ev_wf_prefix(es: Seq<Event>) -> bool {
    forall|i: int| 0 <= i < es.len() ==> #[trigger] ev_ok_at(es, i)
}

/// Every error position in `es` is at most `p`.
pub open spec fn errors_bounded(es: Seq<Event>, p: int) -> bool {
    forall|i: int| 0 <= i < es.len() && es[i] is Error ==> #[trigger] error_pos(es[i]) <= p
}

/// Error events appear with non-decreasing positions.
pub open spec fn errors_sorted(es: Seq<Event>) -> bool {
    forall|i: int, j: int|
        0 <= i < j < es.len() && es[i] is Error && es[j] is Error ==> #[trigger] error_pos(es[i])
            <= #[trigger] error_pos(es[j])
}

/// A complete, well-formed parse: a single root node that spans the whole
/// event sequence, correct nesting throughout, and error positions in
/// emission order.
pub open spec fn wf_events(es: Seq<Event>) -> bool {
    &&& es.len() >= 2
    &&& es[0] is Enter
    &&& es[es.len() - 1] is Exit
    &&& ev_depth(es) == 0
    &&& ev_wf_prefix(es)
    &&& forall|i: int| 0 < i < es.len() ==> ev_depth(#[trigger] es.take(i)) >= 1
    &&& errors_sorted(es)
}

/// Depth and token count change pointwise under `push`.
pub proof fn lemma_ev_push(es: Seq<Event>, e: Event)
    ensures
        ev_depth(es.push(e)) == ev_depth(es) + ev_delta(e),
        ev_tokens(es.push(e)) == ev_tokens(es) + if e is Token {
            1int
        } else {
            0int
        },
        es.push(e).take(es.len() as int) == es,
{
    assert(es.push(e).drop_last() =~= es);
    assert(es.push(e).take(es.len() as int) =~= es);
}

/// `take` commutes with `push` below the pushed element.
pub proof fn lemma_take_push(es: Seq<Event>, e: Event, i: int)
    requires
        0 <= i <= es.len(),
    ensures
        es.push(e).take(i) == es.take(i),
{
    assert(es.push(e).take(i) =~= es.take(i));
}

/// Pushing an event that respects the current depth preserves the prefix
/// discipline.
pub proof fn lemma_wf_prefix_push(es: Seq<Event>, e: Event)
    requires
        ev_wf_prefix(es),
        (e is Exit || e is Token) ==> ev_depth(es) >= 1,
    ensures
        ev_wf_prefix(es.push(e)),
{
    let es2 = es.push(e);
    assert forall|i: int| 0 <= i < es2.len() implies #[trigger] ev_ok_at(es2, i) by {
        if i < es.len() {
            lemma_take_push(es, e, i);
            assert(ev_ok_at(es, i));
            assert(es2[i] == es[i]);
        } else {
            lemma_ev_push(es, e);
            assert(es2.take(i) == es);
        }
    }
}

/// Depth is bounded by the number of events.
pub proof fn lemma_depth_le_len(es: Seq<Event>)
    ensures
        -(es.len() as int) <= ev_depth(es) <= es.len(),
    decreases es.len(),
{
    if es.len() > 0 {
        lemma_depth_le_len(es.drop_last());
    }
}

/// `new_es` extends `old_es` and never dips below depth `d` while doing
/// so: the shape a grammar rule leaves behind, relative to the node depth
/// it was called at.
pub open spec fn ev_extends(old_es: Seq<Event>, new_es: Seq<Event>, d: int) -> bool {
    &&& old_es.is_prefix_of(new_es)
    &&& forall|i: int|
        old_es.len() <= i <= new_es.len() ==> ev_depth(#[trigger] new_es.take(i)) >= d
}

/// `take` of a prefix agrees with `take` of the whole.
pub proof fn lemma_prefix_take(a: Seq<Event>, b: Seq<Event>, i: int)
    requires
        a.is_prefix_of(b),
        0 <= i <= a.len(),
    ensures
        b.take(i) == a.take(i),
{
    assert(b.take(i) =~= a.take(i));
}

/// Extension composes: a rule that stays above `d1`, followed by one that
/// stays above `d2 >= d1`, together stay above `d1`.
pub proof fn lemma_extends_trans(a: Seq<Event>, b: Seq<Event>, c: Seq<Event>, d1: int, d2: int)
    requires
        ev_extends(a, b, d1),
        ev_extends(b, c, d2),
        d2 >= d1,
    ensures
        ev_extends(a, c, d1),
{
    assert forall|i: int| a.len() <= i <= c.len() implies ev_depth(#[trigger] c.take(i)) >= d1 by {
        if i <= b.len() {
            lemma_prefix_take(b, c, i);
        }
    }
}

/// Extension is reflexive at any depth at most the current one.
pub proof fn lemma_extends_refl(es: Seq<Event>, d: int)
    requires
        ev_depth(es) >= d,
    ensures
        ev_extends(es, es, d),
{
    assert forall|i: int| es.len() <= i <= es.len() implies ev_depth(#[trigger] es.take(i))
        >= d by {
        assert(es.take(i) =~= es);
    }
}

/// A single push extends at any depth at most the resulting depth.
pub proof fn lemma_extends_push(es: Seq<Event>, e: Event, d: int)
    requires
        ev_depth(es) >= d,
        ev_depth(es) + ev_delta(e) >= d,
    ensures
        ev_extends(es, es.push(e), d),
{
    let es2 = es.push(e);
    lemma_ev_push(es, e);
    assert forall|i: int| es.len() <= i <= es2.len() implies ev_depth(#[trigger] es2.take(i))
        >= d by {
        if i == es.len() {
            assert(es2.take(i) == es);
        } else {
            assert(es2.take(i) =~= es2);
        }
    }
}

} // verus!
