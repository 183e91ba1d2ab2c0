//! Textual dumps of the lexer's and the parser's output, used by
//! snapshot-style callers: [`lex`] prints one line per token, [`parse`]
//! prints an indented tree walk of the lossless reconciled stream
//! followed by all diagnostics in position order.

use vstd::prelude::*;
use crate::tokens::{Token, LexErrorKind, kind_name, kind_name_str, lex_error_message,
    lex_error_message_str};
use crate::events::{node_name, node_name_str, Event};
use crate::lexed::{LexedStr, nontrivia_kinds_from, nontrivia_starts_from, spec_starts};
use crate::lexer::spec_tokenize;
use crate::parser::{TopEntryPoint, spec_parse};
use crate::reconcile::{RecStep, reconcile, spec_reconcile};
use crate::diags::{Diag, diag_message, diag_message_str, merge_diags, collect_lex_diags,
    collect_parse_diags, lemma_lex_diags_nonempty, spec_merge_from, spec_lex_diags,
    spec_parse_diags};

verus! {

/// Relies on std's `FromIterator` implementation for `String` (through
/// `Iterator::collect`): the resulting string consists of exactly the
/// given characters in order.
#[verifier::external_body]
fn chars_to_string(v: &Vec<char>) -> (r: String)
    ensures
        r@ == v@,
{
    v.iter().collect()
}

/// Append every character of `s`.
fn push_str_chars(out: &mut Vec<char>, s: &str)
    ensures
        final(out)@ == old(out)@ + s@,
{
    let n = s.unicode_len();
    let mut i: usize = 0;
    while i < n
        invariant
            n == s@.len(),
            i <= n,
            out@ == old(out)@ + s@.take(i as int),
        decreases n - i,
    {
        let c = s.get_char(i);
        out.push(c);
        proof {
            assert(s@.take(i + 1) =~= s@.take(i as int).push(s@[i as int]));
            assert(old(out)@ + s@.take(i as int).push(s@[i as int]) =~= (old(out)@ + s@.take(
                i as int,
            )).push(s@[i as int]));
        }
        i = i + 1;
    }
    proof {
        assert(s@.take(n as int) =~= s@);
    }
}

/// Two spaces per open nesting level.
pub open spec fn spaces(k: int) -> Seq<char>
    decreases k,
{
    if k > 0 {
        seq![' ', ' '] + spaces(k - 1)
    } else {
        Seq::empty()
    }
}

/// Append the indentation for depth `k`.
fn push_spaces(out: &mut Vec<char>, k: usize)
    ensures
        final(out)@ == old(out)@ + spaces(k as int),
    decreases k,
{
    if k > 0 {
        out.push(' ');
        out.push(' ');
        push_spaces(out, k - 1);
        proof {
            assert(out@ =~= old(out)@ + spaces(k as int));
        }
    } else {
        proof {
            assert(out@ =~= old(out)@ + spaces(0));
        }
    }
}

/// The decimal digit for `d` in `0..10`.
pub open spec fn digit_char(d: int) -> char {
    if d == 0 {
        '0'
    } else if d == 1 {
        '1'
    } else if d == 2 {
        '2'
    } else if d == 3 {
        '3'
    } else if d == 4 {
        '4'
    } else if d == 5 {
        '5'
    } else if d == 6 {
        '6'
    } else if d == 7 {
        '7'
    } else if d == 8 {
        '8'
    } else {
        '9'
    }
}

/// The decimal digits of `n`, most significant first.
pub open spec fn dec_digits(n: int) -> Seq<char>
    decreases n,
{
    if n < 10 {
        seq![digit_char(n)]
    } else {
        dec_digits(n / 10).push(digit_char(n % 10))
    }
}

fn digit_char_of(d: usize) -> (r: char)
    requires
        d < 10,
    ensures
        r == digit_char(d as int),
{
    match d {
        0 => '0',
        1 => '1',
        2 => '2',
        3 => '3',
        4 => '4',
        5 => '5',
        6 => '6',
        7 => '7',
        8 => '8',
        _ => '9',
    }
}

/// Append the decimal form of `n`.
fn push_usize(out: &mut Vec<char>, n: usize)
    ensures
        final(out)@ == old(out)@ + dec_digits(n as int),
    decreases n,
{
    if n < 10 {
        let c = digit_char_of(n);
        out.push(c);
        proof {
            assert(out@ =~= old(out)@ + dec_digits(n as int));
        }
    } else {
        push_usize(out, n / 10);
        let c = digit_char_of(n % 10);
        out.push(c);
        proof {
            assert(out@ =~= old(out)@ + dec_digits(n as int));
        }
    }
}

/// How one character is shown inside a quoted token text: quote,
/// backslash, newline, tab and carriage return are escaped, everything
/// else stands for itself.
pub open spec fn escape_char(c: char) -> Seq<char> {
    if c == '"' {
        seq!['\\', '"']
    } else if c == '\\' {
        seq!['\\', '\\']
    } else if c == '\n' {
        seq!['\\', 'n']
    } else if c == '\t' {
        seq!['\\', 't']
    } else if c == '\r' {
        seq!['\\', 'r']
    } else {
        seq![c]
    }
}

/// The escaped form of the characters `s[i..j]`.
pub open spec fn escape_range(s: Seq<char>, i: int, j: int) -> Seq<char>
    decreases j - i,
{
    if i < j {
        escape_char(s[i]) + escape_range(s, i + 1, j)
    } else {
        Seq::empty()
    }
}

proof fn lemma_escape_snoc(s: Seq<char>, i: int, j: int)
    requires
        i <= j,
    ensures
        escape_range(s, i, j + 1) == escape_range(s, i, j) + escape_char(s[j]),
    decreases j - i,
{
    if i < j {
        lemma_escape_snoc(s, i + 1, j);
        assert(escape_range(s, i, j + 1) =~= escape_range(s, i, j) + escape_char(s[j]));
    } else {
        assert(escape_range(s, i + 1, j + 1) =~= Seq::<char>::empty());
        assert(escape_range(s, i, j) =~= Seq::<char>::empty());
        assert(escape_range(s, i, j + 1) =~= escape_range(s, i, j) + escape_char(s[j]));
    }
}

fn push_escape_char(out: &mut Vec<char>, c: char)
    ensures
        final(out)@ == old(out)@ + escape_char(c),
{
    if c == '"' {
        out.push('\\');
        out.push('"');
    } else if c == '\\' {
        out.push('\\');
        out.push('\\');
    } else if c == '\n' {
        out.push('\\');
        out.push('n');
    } else if c == '\t' {
        out.push('\\');
        out.push('t');
    } else if c == '\r' {
        out.push('\\');
        out.push('r');
    } else {
        out.push(c);
    }
    proof {
        assert(out@ =~= old(out)@ + escape_char(c));
    }
}

/// Append the escaped form of `text[lo..hi]`.
fn push_escaped_range(out: &mut Vec<char>, text: &Vec<char>, lo: usize, hi: usize)
    requires
        lo <= hi <= text@.len(),
    ensures
        final(out)@ == old(out)@ + escape_range(text@, lo as int, hi as int),
{
    let mut k: usize = lo;
    while k < hi
        invariant
            lo <= k <= hi <= text@.len(),
            out@ == old(out)@ + escape_range(text@, lo as int, k as int),
        decreases hi - k,
    {
        push_escape_char(out, text[k]);
        proof {
            lemma_escape_snoc(text@, lo as int, k as int);
            assert(out@ =~= old(out)@ + escape_range(text@, lo as int, k + 1));
        }
        k = k + 1;
    }
}

/// The trailing diagnostic part of one token line.
pub open spec fn err_part(e: Option<LexErrorKind>) -> Seq<char> {
    match e {
        Option::Some(k) => " error: "@ + lex_error_message(k),
        Option::None => Seq::empty(),
    }
}

/// One line of the token dump: kind, quoted escaped text, optional
/// diagnostic.
pub open spec fn lex_line(s: Seq<char>, lo: int, hi: int, t: Token) -> Seq<char> {
    kind_name(t.kind) + seq![' ', '"'] + escape_range(s, lo, hi) + seq!['"'] + err_part(t.error)
        + seq!['\n']
}

/// The token dump from token `j` on, with `off` its starting offset.
pub open spec fn lex_dump_from(s: Seq<char>, ts: Seq<Token>, j: int, off: int) -> Seq<char>
    decreases ts.len() - j,
{
    if 0 <= j && j < ts.len() {
        lex_line(s, off, off + ts[j].len, ts[j]) + lex_dump_from(s, ts, j + 1, off + ts[j].len)
    } else {
        Seq::empty()
    }
}

/// The full token dump of an input: one line per token of its
/// tokenization, in order.
pub open spec fn spec_lex_dump(s: Seq<char>) -> Seq<char> {
    lex_dump_from(s, spec_tokenize(s), 0, 0)
}

/// Tokenize `text` and dump every token as one line `Kind "text"`, with
/// ` error: message` appended on tokens carrying a diagnostic. Total,
/// and pinned to the model [`spec_lex_dump`].
pub fn lex(text: &str) -> (r: String)
    ensures
        r@ == spec_lex_dump(text@),
{
    let lexed = LexedStr::new(text);
    let n = lexed.tokens.len();
    let mut out: Vec<char> = Vec::new();
    let mut j: usize = 0;
    while j < n
        invariant
            lexed.wf(),
            lexed.text@ == text@,
            n == lexed.tokens@.len(),
            j <= n,
            spec_lex_dump(text@) == out@ + lex_dump_from(
                text@,
                lexed.tokens@,
                j as int,
                lexed.starts@[j as int] as int,
            ),
        decreases n - j,
    {
        let ghost out0 = out@;
        let ghost tok = lexed.tokens@[j as int];
        let lo = lexed.starts[j];
        let hi = lexed.starts[j + 1];
        proof {
            lexed.lemma_starts_le(j as int, j as int + 1);
            lexed.lemma_starts_le(j as int + 1, n as int);
        }
        let name = kind_name_str(lexed.tokens[j].kind);
        push_str_chars(&mut out, name);
        out.push(' ');
        out.push('"');
        push_escaped_range(&mut out, &lexed.text, lo, hi);
        out.push('"');
        if let Some(e) = lexed.tokens[j].error {
            push_str_chars(&mut out, " error: ");
            push_str_chars(&mut out, lex_error_message_str(e));
        }
        out.push('\n');
        proof {
            assert(out@ =~= out0 + lex_line(text@, lo as int, hi as int, tok));
            assert(out0 + (lex_line(text@, lo as int, hi as int, tok) + lex_dump_from(
                text@,
                lexed.tokens@,
                j as int + 1,
                hi as int,
            )) =~= (out0 + lex_line(text@, lo as int, hi as int, tok)) + lex_dump_from(
                text@,
                lexed.tokens@,
                j as int + 1,
                hi as int,
            ));
        }
        j = j + 1;
    }
    proof {
        assert(out@ + Seq::<char>::empty() =~= out@);
    }
    chars_to_string(&out)
}

/// The escaped text of a token step, when its span lies inside `s`.
pub open spec fn token_text_part(s: Seq<char>, start: int, end: int) -> Seq<char> {
    if 0 <= start <= end <= s.len() {
        escape_range(s, start, end)
    } else {
        Seq::empty()
    }
}

/// The line one output step contributes to the tree dump at indentation
/// `ind` (structure-only steps and errors contribute nothing here).
pub open spec fn step_line(s: Seq<char>, st: RecStep, ind: int) -> Seq<char> {
    match st {
        RecStep::Enter { kind } => spaces(ind) + node_name(kind) + seq!['\n'],
        RecStep::Token { kind, start, end } => spaces(ind) + kind_name(kind) + seq![' ', '"']
            + token_text_part(s, start as int, end as int) + seq!['"', '\n'],
        _ => Seq::empty(),
    }
}

/// The indentation after one step.
pub open spec fn next_indent(st: RecStep, ind: int) -> int {
    match st {
        RecStep::Enter { .. } => ind + 1,
        RecStep::Exit => if ind > 0 {
            ind - 1
        } else {
            0
        },
        _ => ind,
    }
}

/// The tree dump of an output stream from step `i` on.
pub open spec fn spec_render_steps(s: Seq<char>, rs: Seq<RecStep>, i: int, ind: int) -> Seq<char>
    decreases rs.len() - i,
{
    if 0 <= i && i < rs.len() {
        step_line(s, rs[i], ind) + spec_render_steps(s, rs, i + 1, next_indent(rs[i], ind))
    } else {
        Seq::empty()
    }
}

/// Append the indented tree dump of `steps`: one line per node entry
/// and per token (with its escaped text), indentation following the
/// nesting.
fn render_tree(steps: &Vec<RecStep>, text: &Vec<char>, out: &mut Vec<char>)
    ensures
        final(out)@ == old(out)@ + spec_render_steps(text@, steps@, 0, 0),
{
    let n = steps.len();
    let mut i: usize = 0;
    let mut ind: usize = 0;
    while i < n
        invariant
            n == steps@.len(),
            i <= n,
            ind <= i,
            old(out)@ + spec_render_steps(text@, steps@, 0, 0) == out@ + spec_render_steps(
                text@,
                steps@,
                i as int,
                ind as int,
            ),
        decreases n - i,
    {
        let ghost out0 = out@;
        let st = steps[i];
        match st {
            RecStep::Enter { kind } => {
                push_spaces(out, ind);
                push_str_chars(out, crate::events::node_name_str(kind));
                out.push('\n');
                ind = ind + 1;
            },
            RecStep::Token { kind, start, end } => {
                push_spaces(out, ind);
                push_str_chars(out, kind_name_str(kind));
                out.push(' ');
                out.push('"');
                if start <= end && end <= text.len() {
                    push_escaped_range(out, text, start, end);
                }
                out.push('"');
                out.push('\n');
            },
            RecStep::Exit => {
                if ind > 0 {
                    ind = ind - 1;
                }
            },
            RecStep::Error { .. } => {},
        }
        proof {
            assert(out@ =~= out0 + step_line(text@, steps@[i as int], old_ind_of(st, ind as int)));
            assert(out0 + (step_line(text@, steps@[i as int], old_ind_of(st, ind as int))
                + spec_render_steps(
                text@,
                steps@,
                i as int + 1,
                next_indent(steps@[i as int], old_ind_of(st, ind as int)),
            )) =~= out@ + spec_render_steps(
                text@,
                steps@,
                i as int + 1,
                next_indent(steps@[i as int], old_ind_of(st, ind as int)),
            ));
        }
        i = i + 1;
    }
    proof {
        assert(out@ + Seq::<char>::empty() =~= out@);
    }
}

/// The indentation a step was rendered at, recovered from the
/// indentation after it.
pub open spec fn old_ind_of(st: RecStep, ind_after: int) -> int {
    match st {
        RecStep::Enter { .. } => ind_after - 1,
        _ => ind_after,
    }
}

/// One diagnostic line: `error <position>: <message>`.
pub open spec fn error_line(d: Diag) -> Seq<char> {
    "error "@ + dec_digits(d.pos as int) + ": "@ + diag_message(d.kind) + seq!['\n']
}

/// The diagnostic lines from entry `i` on.
pub open spec fn error_lines_from(ds: Seq<Diag>, i: int) -> Seq<char>
    decreases ds.len() - i,
{
    if 0 <= i && i < ds.len() {
        error_line(ds[i]) + error_lines_from(ds, i + 1)
    } else {
        Seq::empty()
    }
}

/// Append one line per diagnostic, in list order.
fn push_error_lines(out: &mut Vec<char>, ds: &Vec<Diag>)
    ensures
        final(out)@ == old(out)@ + error_lines_from(ds@, 0),
{
    let n = ds.len();
    let mut i: usize = 0;
    while i < n
        invariant
            n == ds@.len(),
            i <= n,
            old(out)@ + error_lines_from(ds@, 0) == out@ + error_lines_from(ds@, i as int),
        decreases n - i,
    {
        let ghost out0 = out@;
        let d = ds[i];
        push_str_chars(out, "error ");
        push_usize(out, d.pos);
        push_str_chars(out, ": ");
        push_str_chars(out, diag_message_str(d.kind));
        out.push('\n');
        proof {
            assert(out@ =~= out0 + error_line(ds@[i as int]));
            assert(out0 + (error_line(ds@[i as int]) + error_lines_from(ds@, i as int + 1)) =~= out@
                + error_lines_from(ds@, i as int + 1));
        }
        i = i + 1;
    }
    proof {
        assert(out@ + Seq::<char>::empty() =~= out@);
    }
}

/// Whether the tokenization of `s` carries any lexical diagnostic.
pub open spec fn spec_has_lex_errors(s: Seq<char>) -> bool {
    exists|x: int| 0 <= x < spec_tokenize(s).len() && spec_tokenize(s)[x].error is Some
}

/// The parse dump determined by an input text and the event sequence its
/// parse produced: the tree dump of the reconciled stream, then one line
/// per diagnostic, lexical and syntactic merged in position order.
pub open spec fn spec_parse_dump(text: Seq<char>, es: Seq<Event>) -> Seq<char> {
    let ts = spec_tokenize(text);
    let starts = spec_starts(ts);
    let ns = nontrivia_starts_from(ts, starts, 0).push(text.len() as usize);
    let steps = spec_reconcile(es, ts, starts, ns);
    let ds = spec_merge_from(spec_lex_diags(ts, starts, 0), spec_parse_diags(es, ns, 0), 0, 0);
    spec_render_steps(text, steps, 0, 0) + error_lines_from(ds, 0)
}

/// The number of diagnostics, lexical and syntactic together, for an
/// input text and the event sequence its parse produced.
pub open spec fn spec_diag_count(text: Seq<char>, es: Seq<Event>) -> int {
    let ts = spec_tokenize(text);
    let starts = spec_starts(ts);
    let ns = nontrivia_starts_from(ts, starts, 0).push(text.len() as usize);
    spec_lex_diags(ts, starts, 0).len() + spec_parse_diags(es, ns, 0).len() as int
}

/// The trivia-filtered token kinds of an input text: what the parser
/// reads.
pub open spec fn spec_input_kinds(text: Seq<char>) -> Seq<crate::tokens::TokenKind> {
    nontrivia_kinds_from(spec_tokenize(text), 0)
}

/// Parse `text` under the given entry point and dump the lossless tree
/// walk, followed by one line per diagnostic — lexical and syntactic
/// merged in position order, lexical first on ties. The second result
/// reports whether any diagnostic was produced; in particular every
/// lexical error surfaces there.
pub fn parse_with(entry: TopEntryPoint, text: &str) -> (r: (String, bool))
    ensures
        r.0@ == spec_parse_dump(text@, spec_parse(entry, spec_input_kinds(text@))),
        r.1 == (spec_diag_count(text@, spec_parse(entry, spec_input_kinds(text@))) > 0),
        spec_has_lex_errors(text@) ==> r.1,
{
    let lexed = LexedStr::new(text);
    let kinds = lexed.to_input();
    let events = entry.parse(kinds);
    let steps = reconcile(&events, &lexed);
    let nsv = lexed.nontrivia_starts();
    let lex_diags = collect_lex_diags(&lexed);
    let syn_diags = collect_parse_diags(&events, &nsv);
    let all = merge_diags(&lex_diags, &syn_diags);
    let mut out: Vec<char> = Vec::new();
    render_tree(&steps, &lexed.text, &mut out);
    push_error_lines(&mut out, &all);
    let has = all.len() > 0;
    proof {
        if spec_has_lex_errors(text@) {
            let x = choose|x: int|
                0 <= x < spec_tokenize(text@).len() && spec_tokenize(text@)[x].error is Some;
            lemma_lex_diags_nonempty(lexed.tokens@, lexed.starts@, 0, x);
        }
        lexed.lemma_starts_are_spec();
        assert(events@ == spec_parse(entry, spec_input_kinds(text@)));
        assert(out@ == spec_parse_dump(text@, events@));
        assert(all@.len() == spec_diag_count(text@, events@));
    }
    let s = chars_to_string(&out);
    (s, has)
}

/// Parse `text` as a whole source file: [`parse_with`] at the file entry
/// point.
pub fn parse(text: &str) -> (r: (String, bool))
    ensures
        r.0@ == spec_parse_dump(
            text@,
            spec_parse(TopEntryPoint::SourceFile, spec_input_kinds(text@)),
        ),
        r.1 == (spec_diag_count(
            text@,
            spec_parse(TopEntryPoint::SourceFile, spec_input_kinds(text@)),
        ) > 0),
        spec_has_lex_errors(text@) ==> r.1,
{
    parse_with(TopEntryPoint::SourceFile, text)
}

} // verus!
