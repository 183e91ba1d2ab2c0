//! A lossless lexer and event-based parser for a small expression-oriented
//! language, built for source tooling: every input character, including
//! whitespace and comments, is preserved and can be reconstructed from the
//! parser's output.
//!
//! The pipeline is: raw text -> [`lexer`] -> token stream ([`lexed`]) ->
//! trivia-filtered view -> event parser ([`parser`]) -> shape-only events ->
//! trivia reconciler ([`reconcile`]) -> lossless event sequence.
//!
//! The central guarantees, stated and proved where each component lives:
//! - Coverage: token texts tile the input exactly
//!   ([`lexer::lemma_lex_coverage`]), and so do the token steps of the
//!   reconciled stream ([`reconcile::lemma_reconciled_coverage`], an
//!   `ensures` of [`reconcile::reconcile`]).
//! - Tree well-formedness and totality: every entry point returns, for any
//!   input, one well-nested root node that consumes the whole input
//!   ([`events::wf_events`], an `ensures` of
//!   [`parser::TopEntryPoint::parse`]).
//! - Determinism: reconciliation and rendering are pinned to mathematical
//!   models of their inputs, so equal inputs give byte-identical output.
//! - Diagnostics: lexical and syntactic errors carry exact character
//!   positions and are merged in position order, lexical first on ties
//!   ([`diags::merge_diags`]).

pub mod tokens;
pub mod lexer;
pub mod lexed;
pub mod events;
pub mod parser;
pub mod reconcile;
pub mod diags;
pub mod render;
