//! The error reporting surface: lexical and syntactic diagnostics are
//! resolved to `(character position, message)` pairs and merged into one
//! list in position order, lexical errors first on ties (a lexical error
//! is logically prior to a syntactic one at the same offset).

use vstd::prelude::*;
use crate::tokens::{Token, LexErrorKind, lex_error_message, lex_error_message_str};
use crate::events::{
    Event, ParseErrorKind, parse_error_message, parse_error_message_str, error_pos,
    errors_bounded, errors_sorted,
};
use crate::lexed::LexedStr;

verus! {

/// The source and payload of one diagnostic.
#[derive(Clone, Copy, PartialEq, Eq, Structural, Debug)]
pub enum DiagKind {
    Lex(LexErrorKind),
    Syntax(ParseErrorKind),
}

/// One diagnostic: an exact character position and a message.
#[derive(Clone, Copy, PartialEq, Eq, Structural, Debug)]
pub struct Diag {
    pub pos: usize,
    pub kind: DiagKind,
}

/// The message of a diagnostic.
pub open spec fn diag_message(k: DiagKind) -> Seq<char> {
    match k {
        DiagKind::Lex(e) => lex_error_message(e),
        DiagKind::Syntax(e) => parse_error_message(e),
    }
}

/// Executable message of a diagnostic, equal to [`diag_message`].
pub fn diag_message_str(k: DiagKind) -> (r: &'static str)
    ensures
        r@ == diag_message(k),
{
    match k {
        DiagKind::Lex(e) => lex_error_message_str(e),
        DiagKind::Syntax(e) => parse_error_message_str(e),
    }
}

/// Positions never decrease along the list.
pub open spec fn diags_sorted(ds: Seq<Diag>) -> bool {
    forall|i: int, j: int|
        0 <= i <= j < ds.len() ==> #[trigger] ds[i].pos <= #[trigger] ds[j].pos
}

/// The merge of two diagnostic lists from indices `i` and `j` on: always
/// the earlier position first, the first list first on ties.
pub open spec fn spec_merge_from(a: Seq<Diag>, b: Seq<Diag>, i: int, j: int) -> Seq<Diag>
    decreases a.len() + b.len() - i - j when 0 <= i <= a.len() && 0 <= j <= b.len()
{
    if i < a.len() && (j >= b.len() || a[i].pos <= b[j].pos) {
        seq![a[i]] + spec_merge_from(a, b, i + 1, j)
    } else if j < b.len() {
        seq![b[j]] + spec_merge_from(a, b, i, j + 1)
    } else {
        Seq::empty()
    }
}

/// Every element of the merge comes from one of the suffixes, so a lower
/// bound on both suffixes bounds the whole merge.
proof fn lemma_merge_lb(a: Seq<Diag>, b: Seq<Diag>, i: int, j: int, lb: int)
    requires
        0 <= i <= a.len(),
        0 <= j <= b.len(),
        forall|x: int| i <= x < a.len() ==> lb <= #[trigger] a[x].pos,
        forall|x: int| j <= x < b.len() ==> lb <= #[trigger] b[x].pos,
    ensures
        forall|k: int|
            0 <= k < spec_merge_from(a, b, i, j).len() ==> lb <= #[trigger] spec_merge_from(
                a,
                b,
                i,
                j,
            )[k].pos,
    decreases a.len() + b.len() - i - j,
{
    if i < a.len() && (j >= b.len() || a[i].pos <= b[j].pos) {
        lemma_merge_lb(a, b, i + 1, j, lb);
    } else if j < b.len() {
        lemma_merge_lb(a, b, i, j + 1, lb);
    }
}

/// Merging sorted lists yields a sorted list.
pub proof fn lemma_merge_sorted(a: Seq<Diag>, b: Seq<Diag>, i: int, j: int)
    requires
        0 <= i <= a.len(),
        0 <= j <= b.len(),
        diags_sorted(a),
        diags_sorted(b),
    ensures
        diags_sorted(spec_merge_from(a, b, i, j)),
    decreases a.len() + b.len() - i - j,
{
    let m = spec_merge_from(a, b, i, j);
    if i < a.len() && (j >= b.len() || a[i].pos <= b[j].pos) {
        lemma_merge_sorted(a, b, i + 1, j);
        lemma_merge_lb(a, b, i + 1, j, a[i].pos as int);
        let rest = spec_merge_from(a, b, i + 1, j);
        assert forall|x: int, y: int| 0 <= x <= y < m.len() implies #[trigger] m[x].pos
            <= #[trigger] m[y].pos by {
            if 0 < x {
                assert(m[x] == rest[x - 1]);
                assert(m[y] == rest[y - 1]);
            } else if 0 < y {
                assert(m[y] == rest[y - 1]);
            }
        }
    } else if j < b.len() {
        lemma_merge_sorted(a, b, i, j + 1);
        lemma_merge_lb(a, b, i, j + 1, b[j].pos as int);
        let rest = spec_merge_from(a, b, i, j + 1);
        assert forall|x: int, y: int| 0 <= x <= y < m.len() implies #[trigger] m[x].pos
            <= #[trigger] m[y].pos by {
            if 0 < x {
                assert(m[x] == rest[x - 1]);
                assert(m[y] == rest[y - 1]);
            } else if 0 < y {
                assert(m[y] == rest[y - 1]);
            }
        }
    }
}

/// Merge two diagnostic lists in position order, the first list first on
/// ties: exactly [`spec_merge_from`], keeping every entry of both.
pub fn merge_diags(a: &Vec<Diag>, b: &Vec<Diag>) -> (r: Vec<Diag>)
    ensures
        r@ == spec_merge_from(a@, b@, 0, 0),
        r@.len() == a@.len() + b@.len(),
        diags_sorted(a@) && diags_sorted(b@) ==> diags_sorted(r@),
{
    let mut r: Vec<Diag> = Vec::new();
    let mut i: usize = 0;
    let mut j: usize = 0;
    while i < a.len() || j < b.len()
        invariant
            i <= a.len(),
            j <= b.len(),
            r@.len() == i + j,
            spec_merge_from(a@, b@, 0, 0) == r@ + spec_merge_from(a@, b@, i as int, j as int),
        decreases a.len() + b.len() - i - j,
    {
        let take_a = if i < a.len() {
            if j < b.len() {
                a[i].pos <= b[j].pos
            } else {
                true
            }
        } else {
            false
        };
        if take_a {
            let d = a[i];
            proof {
                let rest = spec_merge_from(a@, b@, i as int + 1, j as int);
                assert(spec_merge_from(a@, b@, i as int, j as int) == seq![d] + rest);
                assert(r@ + (seq![d] + rest) =~= r@.push(d) + rest);
            }
            r.push(d);
            i = i + 1;
        } else {
            let d = b[j];
            proof {
                let rest = spec_merge_from(a@, b@, i as int, j as int + 1);
                assert(spec_merge_from(a@, b@, i as int, j as int) == seq![d] + rest);
                assert(r@ + (seq![d] + rest) =~= r@.push(d) + rest);
            }
            r.push(d);
            j = j + 1;
        }
    }
    proof {
        assert(spec_merge_from(a@, b@, i as int, j as int) =~= Seq::<Diag>::empty());
        assert(r@ + Seq::<Diag>::empty() =~= r@);
        if diags_sorted(a@) && diags_sorted(b@) {
            lemma_merge_sorted(a@, b@, 0, 0);
        }
    }
    r
}

/// The lexical diagnostics of a token stream from token `j` on, one per
/// token that carries an error, at the token's starting offset.
pub open spec fn spec_lex_diags(ts: Seq<Token>, starts: Seq<usize>, j: int) -> Seq<Diag>
    decreases ts.len() - j,
{
    if 0 <= j && j < ts.len() {
        match ts[j].error {
            Some(e) => seq![Diag { pos: starts[j], kind: DiagKind::Lex(e) }] + spec_lex_diags(
                ts,
                starts,
                j + 1,
            ),
            None => spec_lex_diags(ts, starts, j + 1),
        }
    } else {
        Seq::empty()
    }
}

/// If some token at or after `j` carries an error, the diagnostic list
/// from `j` is non-empty.
pub proof fn lemma_lex_diags_nonempty(ts: Seq<Token>, starts: Seq<usize>, j: int, x: int)
    requires
        0 <= j <= x < ts.len(),
        ts[x].error is Some,
    ensures
        spec_lex_diags(ts, starts, j).len() >= 1,
    decreases ts.len() - j,
{
    if j < x && ts[j].error is None {
        lemma_lex_diags_nonempty(ts, starts, j + 1, x);
    }
}

/// Collect the lexical diagnostics of a token stream, in token (hence
/// position) order.
pub fn collect_lex_diags(lexed: &LexedStr) -> (r: Vec<Diag>)
    requires
        lexed.wf(),
    ensures
        r@ == spec_lex_diags(lexed.tokens@, lexed.starts@, 0),
        diags_sorted(r@),
{
    let n = lexed.tokens.len();
    let mut r: Vec<Diag> = Vec::new();
    let mut j: usize = 0;
    while j < n
        invariant
            lexed.wf(),
            n == lexed.tokens@.len(),
            j <= n,
            spec_lex_diags(lexed.tokens@, lexed.starts@, 0) == r@ + spec_lex_diags(
                lexed.tokens@,
                lexed.starts@,
                j as int,
            ),
            diags_sorted(r@),
            forall|k: int|
                0 <= k < r@.len() ==> #[trigger] r@[k].pos <= lexed.starts@[j as int],
        decreases n - j,
    {
        proof {
            lexed.lemma_starts_le(j as int, j as int + 1);
        }
        if let Some(e) = lexed.tokens[j].error {
            let d = Diag { pos: lexed.starts[j], kind: DiagKind::Lex(e) };
            proof {
                let rest = spec_lex_diags(lexed.tokens@, lexed.starts@, j as int + 1);
                assert(spec_lex_diags(lexed.tokens@, lexed.starts@, j as int) == seq![d] + rest);
                assert(r@ + (seq![d] + rest) =~= r@.push(d) + rest);
            }
            r.push(d);
        }
        j = j + 1;
    }
    proof {
        assert(r@ + Seq::<Diag>::empty() =~= r@);
    }
    r
}

/// The syntactic diagnostics of an event sequence, one per `Error`
/// event, with positions mapped through the filtered-offset table `ns`.
pub open spec fn spec_parse_diags(es: Seq<Event>, ns: Seq<usize>, i: int) -> Seq<Diag>
    decreases es.len() - i,
{
    if 0 <= i && i < es.len() {
        match es[i] {
            Event::Error { kind, pos } => seq![
                Diag { pos: ns[pos as int], kind: DiagKind::Syntax(kind) },
            ] + spec_parse_diags(es, ns, i + 1),
            _ => spec_parse_diags(es, ns, i + 1),
        }
    } else {
        Seq::empty()
    }
}

/// Collect the syntactic diagnostics of an event sequence whose error
/// positions are bounded by the table and recorded in order; the result
/// is sorted because the offset table is.
pub fn collect_parse_diags(events: &Vec<Event>, ns: &Vec<usize>) -> (r: Vec<Diag>)
    requires
        ns@.len() >= 1,
        errors_bounded(events@, ns@.len() - 1),
        errors_sorted(events@),
        forall|x: int, y: int| 0 <= x <= y < ns@.len() ==> #[trigger] ns@[x] <= #[trigger] ns@[y],
    ensures
        r@ == spec_parse_diags(events@, ns@, 0),
        diags_sorted(r@),
{
    let ne = events.len();
    let mut r: Vec<Diag> = Vec::new();
    let mut i: usize = 0;
    let ghost mut lp: int = 0;
    while i < ne
        invariant
            ne == events@.len(),
            i <= ne,
            ns@.len() >= 1,
            errors_bounded(events@, ns@.len() - 1),
            errors_sorted(events@),
            forall|x: int, y: int|
                0 <= x <= y < ns@.len() ==> #[trigger] ns@[x] <= #[trigger] ns@[y],
            0 <= lp < ns@.len(),
            spec_parse_diags(events@, ns@, 0) == r@ + spec_parse_diags(events@, ns@, i as int),
            diags_sorted(r@),
            forall|k: int| 0 <= k < r@.len() ==> #[trigger] r@[k].pos <= ns@[lp],
            forall|x: int|
                i <= x < events@.len() && events@[x] is Error ==> lp <= #[trigger] error_pos(
                    events@[x],
                ),
        decreases ne - i,
    {
        let e = events[i];
        if let Event::Error { kind, pos } = e {
            proof {
                assert(error_pos(events@[i as int]) == pos as int);
                assert(pos as int <= ns@.len() - 1);
                assert(lp <= pos as int);
            }
            let d = Diag { pos: ns[pos], kind: DiagKind::Syntax(kind) };
            proof {
                let rest = spec_parse_diags(events@, ns@, i as int + 1);
                assert(spec_parse_diags(events@, ns@, i as int) == seq![d] + rest);
                assert(r@ + (seq![d] + rest) =~= r@.push(d) + rest);
                assert(ns@[lp] <= ns@[pos as int]);
            }
            r.push(d);
            proof {
                lp = pos as int;
                assert forall|x: int|
                    i as int + 1 <= x < events@.len() && events@[x] is Error implies lp
                    <= #[trigger] error_pos(events@[x]) by {
                    assert(error_pos(events@[i as int]) <= error_pos(events@[x]));
                }
            }
        }
        i = i + 1;
    }
    proof {
        assert(r@ + Seq::<Diag>::empty() =~= r@);
    }
    r
}

} // verus!
