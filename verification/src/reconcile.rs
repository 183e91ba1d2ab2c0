//! The trivia reconciler: walks the parser's shape-only events and the
//! full token stream in lockstep and re-inserts the trivia tokens at the
//! structurally correct positions, yielding a lossless event sequence.
//!
//! Placement policy: trivia immediately preceding a non-trivia token is
//! emitted just before that token's step, at the current nesting depth;
//! trivia after the last consumed token is emitted inside the root node,
//! just before its closing step.
//!
//! The output is pinned to the mathematical model [`spec_reconcile`]
//! (so reconciliation is deterministic: equal inputs give identical
//! output), and [`reconcile`] further guarantees that the `Token` steps
//! it emits are exactly the full token list in order — concatenating
//! their texts reproduces the input ([`lemma_reconciled_coverage`]).

use vstd::prelude::*;
use crate::tokens::{Token, TokenKind, spec_is_trivia, is_trivia};
use crate::events::{
    Event, NodeKind, ParseErrorKind, ev_depth, ev_tokens, ev_ok_at, errors_bounded, error_pos,
    wf_events, lemma_ev_push, lemma_depth_le_len,
};
use crate::lexed::{LexedStr, nontrivia_kinds_from, nontrivia_starts_from};

verus! {

/// One step of the lossless output stream: a token (trivia or not) with
/// its character span, tree structure, or an error with its character
/// position.
#[derive(Clone, Copy, PartialEq, Eq, Structural, Debug)]
#[allow(inconsistent_fields)]
pub enum RecStep {
    Token { kind: TokenKind, start: usize, end: usize },
    Enter { kind: NodeKind },
    Exit,
    Error { kind: ParseErrorKind, pos: usize },
}

/// The output step for token `i` of the stream view.
pub open spec fn token_step_at(ts: Seq<Token>, starts: Seq<usize>, i: int) -> RecStep {
    RecStep::Token { kind: ts[i].kind, start: starts[i], end: starts[i + 1] }
}

/// The steps for tokens `t..t2`, in order.
pub open spec fn trivia_steps(ts: Seq<Token>, starts: Seq<usize>, t: int, t2: int) -> Seq<RecStep>
    decreases t2 - t,
{
    if t < t2 {
        seq![token_step_at(ts, starts, t)] + trivia_steps(ts, starts, t + 1, t2)
    } else {
        Seq::empty()
    }
}

/// The steps for all tokens before `t`, in order.
pub open spec fn token_steps_upto(ts: Seq<Token>, starts: Seq<usize>, t: int) -> Seq<RecStep> {
    Seq::new(t as nat, |i: int| token_step_at(ts, starts, i))
}

/// The index of the first non-trivia token at or after `t`.
pub open spec fn skip_trivia(ts: Seq<Token>, t: int) -> int
    decreases ts.len() - t,
{
    if 0 <= t && t < ts.len() && spec_is_trivia(ts[t].kind) {
        skip_trivia(ts, t + 1)
    } else {
        t
    }
}

/// While at least one non-trivia token remains, skipping trivia lands on
/// the first one, and the filtered kinds decompose around it.
proof fn lemma_skip_trivia(ts: Seq<Token>, t: int)
    requires
        0 <= t <= ts.len(),
        nontrivia_kinds_from(ts, t).len() >= 1,
    ensures
        t <= skip_trivia(ts, t) < ts.len(),
        !spec_is_trivia(ts[skip_trivia(ts, t)].kind),
        forall|x: int| t <= x < skip_trivia(ts, t) ==> spec_is_trivia(#[trigger] ts[x].kind),
        nontrivia_kinds_from(ts, t) == seq![ts[skip_trivia(ts, t)].kind] + nontrivia_kinds_from(
            ts,
            skip_trivia(ts, t) + 1,
        ),
    decreases ts.len() - t,
{
    if t < ts.len() && spec_is_trivia(ts[t].kind) {
        lemma_skip_trivia(ts, t + 1);
    }
}

/// The model of reconciliation: a front recursion over the parse events
/// with a cursor `t` into the full token stream and the current depth.
/// `ns` maps each filtered-input position (and its end sentinel) to a
/// character offset for error reporting.
pub open spec fn spec_reconcile_from(
    es: Seq<Event>,
    ts: Seq<Token>,
    starts: Seq<usize>,
    ns: Seq<usize>,
    ei: int,
    t: int,
    depth: int,
) -> Seq<RecStep>
    decreases es.len() - ei,
{
    if 0 <= ei && ei < es.len() {
        match es[ei] {
            Event::Enter { kind } => seq![RecStep::Enter { kind }] + spec_reconcile_from(
                es,
                ts,
                starts,
                ns,
                ei + 1,
                t,
                depth + 1,
            ),
            Event::Token => {
                let t2 = skip_trivia(ts, t);
                trivia_steps(ts, starts, t, t2) + seq![token_step_at(ts, starts, t2)]
                    + spec_reconcile_from(es, ts, starts, ns, ei + 1, t2 + 1, depth)
            },
            Event::Error { kind, pos } => seq![RecStep::Error { kind, pos: ns[pos as int] }]
                + spec_reconcile_from(es, ts, starts, ns, ei + 1, t, depth),
            Event::Exit => {
                if depth == 1 {
                    trivia_steps(ts, starts, t, ts.len() as int) + seq![RecStep::Exit]
                        + spec_reconcile_from(es, ts, starts, ns, ei + 1, ts.len() as int, 0)
                } else {
                    seq![RecStep::Exit] + spec_reconcile_from(
                        es,
                        ts,
                        starts,
                        ns,
                        ei + 1,
                        t,
                        depth - 1,
                    )
                }
            },
        }
    } else {
        Seq::empty()
    }
}

/// Reconciliation of a whole event sequence against a whole token
/// stream.
pub open spec fn spec_reconcile(
    es: Seq<Event>,
    ts: Seq<Token>,
    starts: Seq<usize>,
    ns: Seq<usize>,
) -> Seq<RecStep> {
    spec_reconcile_from(es, ts, starts, ns, 0, 0, 0)
}

/// The subsequence of `Token` steps of an output stream.
pub open spec fn rec_tokens_only(rs: Seq<RecStep>) -> Seq<RecStep>
    decreases rs.len(),
{
    if rs.len() == 0 {
        Seq::empty()
    } else {
        rec_tokens_only(rs.drop_last()) + if rs.last() is Token {
            seq![rs.last()]
        } else {
            Seq::empty()
        }
    }
}

/// The concatenated text of the `Token` steps of an output stream, read
/// as spans of `s`.
pub open spec fn rec_texts(s: Seq<char>, rs: Seq<RecStep>) -> Seq<char>
    decreases rs.len(),
{
    if rs.len() == 0 {
        Seq::empty()
    } else {
        rec_texts(s, rs.drop_last()) + match rs.last() {
            RecStep::Token { start, end, .. } => s.subrange(start as int, end as int),
            _ => Seq::empty(),
        }
    }
}

/// Taking one more element appends it.
proof fn lemma_take_step(es: Seq<Event>, i: int)
    requires
        0 <= i < es.len(),
    ensures
        es.take(i + 1) == es.take(i).push(es[i]),
{
    assert(es.take(i + 1) =~= es.take(i).push(es[i]));
}

/// Token counts of prefixes never exceed the total.
proof fn lemma_ev_tokens_take_le(es: Seq<Event>, k: int)
    requires
        0 <= k <= es.len(),
    ensures
        ev_tokens(es.take(k)) <= ev_tokens(es),
    decreases es.len() - k,
{
    if k < es.len() {
        lemma_take_step(es, k);
        lemma_ev_push(es.take(k), es[k]);
        lemma_ev_tokens_take_le(es, k + 1);
    } else {
        assert(es.take(k) =~= es);
    }
}

/// Appending one more token step extends the range form.
proof fn lemma_trivia_steps_snoc(ts: Seq<Token>, starts: Seq<usize>, a: int, b: int)
    requires
        a <= b,
    ensures
        trivia_steps(ts, starts, a, b + 1) == trivia_steps(ts, starts, a, b).push(
            token_step_at(ts, starts, b),
        ),
    decreases b - a,
{
    if a < b {
        lemma_trivia_steps_snoc(ts, starts, a + 1, b);
        assert(trivia_steps(ts, starts, a, b + 1) =~= trivia_steps(ts, starts, a, b).push(
            token_step_at(ts, starts, b),
        ));
    } else {
        assert(trivia_steps(ts, starts, a + 1, b + 1) =~= Seq::<RecStep>::empty());
        assert(trivia_steps(ts, starts, a, b) =~= Seq::<RecStep>::empty());
        assert(trivia_steps(ts, starts, a, b + 1) =~= trivia_steps(ts, starts, a, b).push(
            token_step_at(ts, starts, b),
        ));
    }
}

/// Text extraction ignores everything but `Token` steps.
pub proof fn lemma_rec_texts_tokens_only(s: Seq<char>, rs: Seq<RecStep>)
    ensures
        rec_texts(s, rs) == rec_texts(s, rec_tokens_only(rs)),
    decreases rs.len(),
{
    if rs.len() > 0 {
        lemma_rec_texts_tokens_only(s, rs.drop_last());
        if rs.last() is Token {
            let prev = rec_tokens_only(rs.drop_last());
            assert(rec_tokens_only(rs) =~= prev.push(rs.last()));
            assert(prev.push(rs.last()).drop_last() =~= prev);
            assert(prev.push(rs.last()).last() == rs.last());
        } else {
            assert(rec_tokens_only(rs) =~= rec_tokens_only(rs.drop_last()));
        }
    }
}

/// The token steps before `t` spell out exactly the characters before
/// offset `starts[t]`.
pub proof fn lemma_upto_texts(l: LexedStr, t: int)
    requires
        l.wf(),
        0 <= t <= l.tokens@.len(),
    ensures
        rec_texts(l.text@, token_steps_upto(l.tokens@, l.starts@, t)) == l.text@.subrange(
            0,
            l.starts@[t] as int,
        ),
    decreases t,
{
    let up = token_steps_upto(l.tokens@, l.starts@, t);
    if t == 0 {
        assert(up =~= Seq::<RecStep>::empty());
        assert(l.text@.subrange(0, 0) =~= Seq::<char>::empty());
    } else {
        lemma_upto_texts(l, t - 1);
        let prev = token_steps_upto(l.tokens@, l.starts@, t - 1);
        assert(up.drop_last() =~= prev);
        assert(up.last() == token_step_at(l.tokens@, l.starts@, t - 1));
        l.lemma_starts_le(t - 1, t);
        l.lemma_starts_le(t, l.tokens@.len() as int);
        assert(l.text@.subrange(0, l.starts@[t - 1] as int) + l.text@.subrange(
            l.starts@[t - 1] as int,
            l.starts@[t] as int,
        ) =~= l.text@.subrange(0, l.starts@[t] as int));
    }
}

/// Coverage of the reconciled output: if the `Token` steps of `rs` are
/// exactly the full token list of `l`, then concatenating their texts in
/// order reproduces the input text exactly.
pub proof fn lemma_reconciled_coverage(l: LexedStr, rs: Seq<RecStep>)
    requires
        l.wf(),
        rec_tokens_only(rs) == token_steps_upto(l.tokens@, l.starts@, l.tokens@.len() as int),
    ensures
        rec_texts(l.text@, rs) == l.text@,
{
    lemma_rec_texts_tokens_only(l.text@, rs);
    lemma_upto_texts(l, l.tokens@.len() as int);
    assert(l.text@.subrange(0, l.text@.len() as int) =~= l.text@);
}

/// Reconcile a parser's event output with the full token stream.
///
/// Requires a well-formed event sequence that consumed exactly the
/// non-trivia tokens of the stream (what [`crate::parser::TopEntryPoint::parse`]
/// guarantees over [`LexedStr::to_input`]). Returns exactly the model
/// output [`spec_reconcile`], whose `Token` steps are the full token
/// list in order: the output is lossless and deterministic.
#[verifier::rlimit(100)]
pub fn reconcile(events: &Vec<Event>, lexed: &LexedStr) -> (r: Vec<RecStep>)
    requires
        lexed.wf(),
        wf_events(events@),
        ev_tokens(events@) == nontrivia_kinds_from(lexed.tokens@, 0).len(),
        errors_bounded(events@, nontrivia_kinds_from(lexed.tokens@, 0).len() as int),
    ensures
        r@ == spec_reconcile(
            events@,
            lexed.tokens@,
            lexed.starts@,
            nontrivia_starts_from(lexed.tokens@, lexed.starts@, 0).push(
                lexed.text@.len() as usize,
            ),
        ),
        rec_tokens_only(r@) == token_steps_upto(
            lexed.tokens@,
            lexed.starts@,
            lexed.tokens@.len() as int,
        ),
        rec_texts(lexed.text@, r@) == lexed.text@,
{
    let ghost es = events@;
    let ghost ts = lexed.tokens@;
    let ghost sts = lexed.starts@;
    let nsv = lexed.nontrivia_starts();
    let ghost ns = nsv@;
    let ghost m = nontrivia_kinds_from(ts, 0).len() as int;
    let n = lexed.tokens.len();
    let ne = events.len();
    let mut r: Vec<RecStep> = Vec::new();
    let mut ei: usize = 0;
    let mut t: usize = 0;
    let mut depth: usize = 0;
    while ei < ne
        invariant
            lexed.wf(),
            wf_events(es),
            es == events@,
            ts == lexed.tokens@,
            sts == lexed.starts@,
            ns == nontrivia_starts_from(ts, sts, 0).push(lexed.text@.len() as usize),
            nsv@ == ns,
            ns.len() == m + 1,
            m == nontrivia_kinds_from(ts, 0).len(),
            ev_tokens(es) == m,
            errors_bounded(es, m),
            n == ts.len(),
            ne == es.len(),
            ei <= ne,
            t <= n,
            depth as int == ev_depth(es.take(ei as int)),
            ev_tokens(es) - ev_tokens(es.take(ei as int)) == nontrivia_kinds_from(
                ts,
                t as int,
            ).len(),
            spec_reconcile(es, ts, sts, ns) == r@ + spec_reconcile_from(
                es,
                ts,
                sts,
                ns,
                ei as int,
                t as int,
                depth as int,
            ),
            rec_tokens_only(r@) == token_steps_upto(ts, sts, t as int),
            ei == ne ==> t == n,
        decreases ne - ei,
    {
        let e = events[ei];
        proof {
            lemma_take_step(es, ei as int);
            lemma_ev_push(es.take(ei as int), es[ei as int]);
            lemma_depth_le_len(es.take(ei as int + 1));
            assert(es.take(ei as int + 1).len() == ei + 1);
            assert(ev_ok_at(es, ei as int));
        }
        let ghost tail = spec_reconcile_from(es, ts, sts, ns, ei as int, t as int, depth as int);
        match e {
            Event::Enter { kind } => {
                let step = RecStep::Enter { kind };
                proof {
                    let rest = spec_reconcile_from(
                        es,
                        ts,
                        sts,
                        ns,
                        ei as int + 1,
                        t as int,
                        depth as int + 1,
                    );
                    assert(tail == seq![step] + rest);
                    assert(r@ + (seq![step] + rest) =~= r@.push(step) + rest);
                    assert(r@.push(step).drop_last() =~= r@);
                    assert(rec_tokens_only(r@.push(step)) =~= rec_tokens_only(r@));
                    assert(!(es[ei as int] is Exit));
                    assert(es[es.len() - 1] is Exit);
                    assert(ei as int + 1 < es.len());
                }
                r.push(step);
                depth = depth + 1;
            },
            Event::Exit => {
                if depth == 1 {
                    // the root's exit: drain all trailing trivia first
                    proof {
                        assert(ev_depth(es.take(ei as int)) == 1);
                        assert(ev_depth(es.take(ei as int + 1)) == 0);
                        if ei as int + 1 < es.len() {
                            assert(ev_depth(es.take(ei as int + 1)) >= 1);
                        }
                        assert(ei as int + 1 == es.len());
                        assert(es.take(ei as int + 1) =~= es);
                    }
                    let ghost t0 = t as int;
                    let ghost r0 = r@;
                    while t < n
                        invariant
                            lexed.wf(),
                            ts == lexed.tokens@,
                            sts == lexed.starts@,
                            n == ts.len(),
                            t0 <= t as int <= n,
                            r@ == r0 + trivia_steps(ts, sts, t0, t as int),
                            rec_tokens_only(r@) == token_steps_upto(ts, sts, t as int),
                        decreases n - t,
                    {
                        let step = RecStep::Token {
                            kind: lexed.tokens[t].kind,
                            start: lexed.starts[t],
                            end: lexed.starts[t + 1],
                        };
                        proof {
                            lemma_trivia_steps_snoc(ts, sts, t0, t as int);
                            assert(step == token_step_at(ts, sts, t as int));
                            assert(r@.push(step).drop_last() =~= r@);
                            assert(rec_tokens_only(r@.push(step)) =~= rec_tokens_only(r@).push(
                                step,
                            ));
                            assert(token_steps_upto(ts, sts, t as int + 1) =~= token_steps_upto(
                                ts,
                                sts,
                                t as int,
                            ).push(step));
                        }
                        r.push(step);
                        t = t + 1;
                    }
                    proof {
                        let rest = spec_reconcile_from(es, ts, sts, ns, ei as int + 1, n as int, 0);
                        assert(rest =~= Seq::<RecStep>::empty());
                        assert(tail == trivia_steps(ts, sts, t0, n as int) + seq![RecStep::Exit]
                            + rest);
                        assert(r0 + (trivia_steps(ts, sts, t0, n as int) + seq![RecStep::Exit]
                            + rest) =~= (r0 + trivia_steps(ts, sts, t0, n as int)).push(
                            RecStep::Exit,
                        ));
                        assert(r@.push(RecStep::Exit).drop_last() =~= r@);
                        assert(rec_tokens_only(r@.push(RecStep::Exit)) =~= rec_tokens_only(r@));
                        assert(nontrivia_kinds_from(ts, n as int).len() == 0);
                    }
                    r.push(RecStep::Exit);
                    depth = 0;
                } else {
                    proof {
                        assert(ev_depth(es.take(ei as int)) >= 1);
                        assert(depth >= 2);
                        let rest = spec_reconcile_from(
                            es,
                            ts,
                            sts,
                            ns,
                            ei as int + 1,
                            t as int,
                            depth as int - 1,
                        );
                        assert(tail == seq![RecStep::Exit] + rest);
                        assert(r@ + (seq![RecStep::Exit] + rest) =~= r@.push(RecStep::Exit)
                            + rest);
                        assert(r@.push(RecStep::Exit).drop_last() =~= r@);
                        assert(rec_tokens_only(r@.push(RecStep::Exit)) =~= rec_tokens_only(r@));
                        if ei as int + 1 == es.len() {
                            assert(ev_depth(es.take(ei as int + 1)) == depth - 1);
                            assert(es.take(ei as int + 1) =~= es);
                            assert(false);
                        }
                    }
                    r.push(RecStep::Exit);
                    depth = depth - 1;
                }
            },
            Event::Token => {
                proof {
                    lemma_ev_tokens_take_le(es, ei as int + 1);
                    assert(nontrivia_kinds_from(ts, t as int).len() >= 1);
                    lemma_skip_trivia(ts, t as int);
                }
                let ghost t2 = skip_trivia(ts, t as int);
                let ghost t0 = t as int;
                let ghost r0 = r@;
                while t < n && is_trivia(lexed.tokens[t].kind)
                    invariant
                        lexed.wf(),
                        ts == lexed.tokens@,
                        sts == lexed.starts@,
                        n == ts.len(),
                        t0 <= t as int <= t2,
                        t2 == skip_trivia(ts, t0),
                        t2 < n,
                        !spec_is_trivia(ts[t2].kind),
                        forall|x: int| t0 <= x < t2 ==> spec_is_trivia(#[trigger] ts[x].kind),
                        r@ == r0 + trivia_steps(ts, sts, t0, t as int),
                        rec_tokens_only(r@) == token_steps_upto(ts, sts, t as int),
                    decreases n - t,
                {
                    proof {
                        assert((t as int) < t2);
                    }
                    let step = RecStep::Token {
                        kind: lexed.tokens[t].kind,
                        start: lexed.starts[t],
                        end: lexed.starts[t + 1],
                    };
                    proof {
                        lemma_trivia_steps_snoc(ts, sts, t0, t as int);
                        assert(step == token_step_at(ts, sts, t as int));
                        assert(r@.push(step).drop_last() =~= r@);
                        assert(rec_tokens_only(r@.push(step)) =~= rec_tokens_only(r@).push(step));
                        assert(token_steps_upto(ts, sts, t as int + 1) =~= token_steps_upto(
                            ts,
                            sts,
                            t as int,
                        ).push(step));
                    }
                    r.push(step);
                    t = t + 1;
                }
                proof {
                    assert((t as int) == t2);
                }
                let step = RecStep::Token {
                    kind: lexed.tokens[t].kind,
                    start: lexed.starts[t],
                    end: lexed.starts[t + 1],
                };
                proof {
                    let rest = spec_reconcile_from(
                        es,
                        ts,
                        sts,
                        ns,
                        ei as int + 1,
                        t2 + 1,
                        depth as int,
                    );
                    assert(step == token_step_at(ts, sts, t2));
                    assert(tail == trivia_steps(ts, sts, t0, t2) + seq![step] + rest);
                    assert(r0 + (trivia_steps(ts, sts, t0, t2) + seq![step] + rest) =~= (r0
                        + trivia_steps(ts, sts, t0, t2)).push(step) + rest);
                    assert(r@.push(step).drop_last() =~= r@);
                    assert(rec_tokens_only(r@.push(step)) =~= rec_tokens_only(r@).push(step));
                    assert(token_steps_upto(ts, sts, t2 + 1) =~= token_steps_upto(ts, sts, t2).push(
                        step,
                    ));
                    assert(!(es[ei as int] is Exit));
                    assert(es[es.len() - 1] is Exit);
                    assert(ei as int + 1 < es.len());
                }
                r.push(step);
                t = t + 1;
            },
            Event::Error { kind, pos } => {
                proof {
                    assert(error_pos(es[ei as int]) <= m);
                    assert(pos as int <= m);
                }
                let step = RecStep::Error { kind, pos: nsv[pos] };
                proof {
                    let rest = spec_reconcile_from(
                        es,
                        ts,
                        sts,
                        ns,
                        ei as int + 1,
                        t as int,
                        depth as int,
                    );
                    assert(tail == seq![step] + rest);
                    assert(r@ + (seq![step] + rest) =~= r@.push(step) + rest);
                    assert(r@.push(step).drop_last() =~= r@);
                    assert(rec_tokens_only(r@.push(step)) =~= rec_tokens_only(r@));
                    assert(!(es[ei as int] is Exit));
                    assert(es[es.len() - 1] is Exit);
                    assert(ei as int + 1 < es.len());
                }
                r.push(step);
            },
        }
        ei = ei + 1;
    }
    proof {
        assert(spec_reconcile_from(es, ts, sts, ns, ne as int, t as int, depth as int)
            =~= Seq::<RecStep>::empty());
        assert(r@ + Seq::<RecStep>::empty() =~= r@);
        lemma_reconciled_coverage(*lexed, r@);
    }
    r
}

} // verus!
