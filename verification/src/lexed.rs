//! The token stream view: an indexed, read-only view over the lexer's
//! output, exposing kind, text, starting offset and diagnostic per token,
//! plus the trivia-filtered projections the parser and the reconciler
//! read from.

use vstd::prelude::*;
use crate::tokens::{Token, TokenKind, LexErrorKind, spec_is_trivia, is_trivia};
use crate::lexer::{spec_tokenize, sum_lens, lemma_lex_coverage};

verus! {

/// The non-trivia token kinds of `ts` from index `j` on, in order: the
/// parser's input.
pub open spec fn nontrivia_kinds_from(ts: Seq<Token>, j: int) -> Seq<TokenKind>
    decreases ts.len() - j,
{
    if 0 <= j && j < ts.len() {
        if spec_is_trivia(ts[j].kind) {
            nontrivia_kinds_from(ts, j + 1)
        } else {
            seq![ts[j].kind] + nontrivia_kinds_from(ts, j + 1)
        }
    } else {
        Seq::empty()
    }
}

/// The starting offsets of the non-trivia tokens of `ts` from index `j`
/// on, in order: used to map parser error positions back to character
/// offsets.
pub open spec fn nontrivia_starts_from(ts: Seq<Token>, starts: Seq<usize>, j: int) -> Seq<usize>
    decreases ts.len() - j,
{
    if 0 <= j && j < ts.len() {
        if spec_is_trivia(ts[j].kind) {
            nontrivia_starts_from(ts, starts, j + 1)
        } else {
            seq![starts[j]] + nontrivia_starts_from(ts, starts, j + 1)
        }
    } else {
        Seq::empty()
    }
}

/// The starting offset of token `i`: the sum of the lengths before it.
pub open spec fn token_start(ts: Seq<Token>, i: int) -> int
    decreases i,
{
    if i <= 0 {
        0
    } else {
        token_start(ts, i - 1) + ts[i - 1].len
    }
}

/// The full cumulative offset table of a token sequence, with its end
/// sentinel.
pub open spec fn spec_starts(ts: Seq<Token>) -> Seq<usize> {
    Seq::new((ts.len() + 1) as nat, |i: int| token_start(ts, i) as usize)
}

/// Token lengths are non-negative, so partial sums are bounded.
proof fn lemma_sum_lens_nonneg(ts: Seq<Token>)
    ensures
        sum_lens(ts) >= 0,
    decreases ts.len(),
{
    if ts.len() > 0 {
        lemma_sum_lens_nonneg(ts.subrange(1, ts.len() as int));
    }
}

/// The immutable token stream view built once per parse: the decoded
/// input characters, the tokens that tile them, and the cumulative
/// starting offset of each token (with one trailing sentinel equal to
/// the input length).
pub struct LexedStr {
    pub text: Vec<char>,
    pub tokens: Vec<Token>,
    pub starts: Vec<usize>,
}

impl LexedStr {
    /// Well-formedness: the tokens are exactly the lexer's model output
    /// for the text, and `starts` is their exact cumulative offset table.
    pub open spec fn wf(self) -> bool {
        &&& self.tokens@ == spec_tokenize(self.text@)
        &&& self.starts@.len() == self.tokens@.len() + 1
        &&& self.starts@[0] == 0
        &&& forall|i: int|
            0 <= i < self.tokens@.len() ==> self.starts@[i + 1] == #[trigger] self.starts@[i]
                + self.tokens@[i].len
        &&& self.starts@[self.tokens@.len() as int] == self.text@.len()
    }

    /// Offsets never decrease along the table.
    pub proof fn lemma_starts_le(self, i: int, j: int)
        requires
            self.wf(),
            0 <= i <= j < self.starts@.len(),
        ensures
            self.starts@[i] <= self.starts@[j],
        decreases j - i,
    {
        if i < j {
            self.lemma_starts_le(i, j - 1);
            assert(self.starts@[j] == self.starts@[j - 1] + self.tokens@[j - 1].len);
        }
    }

    proof fn lemma_start_at(self, i: int)
        requires
            self.wf(),
            0 <= i < self.starts@.len(),
        ensures
            token_start(self.tokens@, i) == self.starts@[i] as int,
        decreases i,
    {
        if i > 0 {
            self.lemma_start_at(i - 1);
        }
    }

    /// The offset table a well-formed view carries is exactly the
    /// cumulative-sum table of its tokens.
    pub proof fn lemma_starts_are_spec(self)
        requires
            self.wf(),
        ensures
            self.starts@ == spec_starts(self.tokens@),
    {
        assert forall|i: int| 0 <= i < self.starts@.len() implies self.starts@[i] == (token_start(
            self.tokens@,
            i,
        ) as usize) by {
            self.lemma_start_at(i);
        }
        assert(self.starts@ =~= spec_starts(self.tokens@));
    }

    /// Build the view: decode the text and tokenize it. Total for any
    /// input text.
    pub fn new(text: &str) -> (r: LexedStr)
        ensures
            r.wf(),
            r.text@ == text@,
    {
        let chars = str_to_chars(text);
        let total = chars.len();
        let tokens = crate::lexer::tokenize(&chars);
        let n = tokens.len();
        proof {
            assert(chars@.len() == total);
            lemma_lex_coverage(chars@);
            assert(tokens@.subrange(0, n as int) =~= tokens@);
        }
        let mut starts: Vec<usize> = Vec::new();
        starts.push(0);
        let mut off: usize = 0;
        let mut j: usize = 0;
        while j < n
            invariant
                n == tokens@.len(),
                tokens@ == spec_tokenize(chars@),
                j <= n,
                starts@.len() == j + 1,
                starts@[0] == 0,
                starts@[j as int] == off,
                chars@.len() <= usize::MAX,
                forall|i: int|
                    0 <= i < j ==> starts@[i + 1] == #[trigger] starts@[i] + tokens@[i].len,
                off + sum_lens(tokens@.subrange(j as int, n as int)) == chars@.len(),
            decreases n - j,
        {
            proof {
                let rest = tokens@.subrange(j as int, n as int);
                assert(rest[0] == tokens@[j as int]);
                assert(rest.subrange(1, rest.len() as int) =~= tokens@.subrange(
                    j as int + 1,
                    n as int,
                ));
                lemma_sum_lens_nonneg(tokens@.subrange(j as int + 1, n as int));
            }
            off = off + tokens[j].len;
            starts.push(off);
            j = j + 1;
        }
        proof {
            assert(tokens@.subrange(n as int, n as int) =~= Seq::<Token>::empty());
        }
        LexedStr { text: chars, tokens, starts }
    }

    /// The number of tokens.
    pub fn len(&self) -> (r: usize)
        ensures
            r == self.tokens@.len(),
    {
        self.tokens.len()
    }

    /// The kind of token `i`.
    pub fn kind(&self, i: usize) -> (r: TokenKind)
        requires
            i < self.tokens@.len(),
        ensures
            r == self.tokens@[i as int].kind,
    {
        self.tokens[i].kind
    }

    /// The diagnostic attached to token `i`, if any.
    pub fn error(&self, i: usize) -> (r: Option<LexErrorKind>)
        requires
            i < self.tokens@.len(),
        ensures
            r == self.tokens@[i as int].error,
    {
        self.tokens[i].error
    }

    /// The starting character offset of token `i` (or the text length
    /// for `i` equal to the token count).
    pub fn text_start(&self, i: usize) -> (r: usize)
        requires
            self.wf(),
            i <= self.tokens@.len(),
        ensures
            r == self.starts@[i as int],
    {
        self.starts[i]
    }

    /// The character offset just past token `i`.
    pub fn text_end(&self, i: usize) -> (r: usize)
        requires
            self.wf(),
            i < self.tokens@.len(),
        ensures
            r == self.starts@[i as int + 1],
    {
        let n = self.tokens.len();
        proof {
            assert(i < n);
        }
        self.starts[i + 1]
    }

    /// The text of token `i`, as a copy of its character span.
    pub fn text(&self, i: usize) -> (r: Vec<char>)
        requires
            self.wf(),
            i < self.tokens@.len(),
        ensures
            r@ == self.text@.subrange(
                self.starts@[i as int] as int,
                self.starts@[i as int + 1] as int,
            ),
    {
        let n = self.tokens.len();
        let lo = self.starts[i];
        let hi = self.starts[i + 1];
        proof {
            self.lemma_starts_le(i as int, i as int + 1);
            self.lemma_starts_le(i as int + 1, self.tokens@.len() as int);
        }
        let mut r: Vec<char> = Vec::new();
        let mut k: usize = lo;
        while k < hi
            invariant
                lo <= k <= hi <= self.text@.len(),
                r@ == self.text@.subrange(lo as int, k as int),
            decreases hi - k,
        {
            r.push(self.text[k]);
            proof {
                assert(self.text@.subrange(lo as int, k + 1) =~= self.text@.subrange(
                    lo as int,
                    k as int,
                ).push(self.text@[k as int]));
            }
            k = k + 1;
        }
        r
    }

    /// The trivia-filtered token kinds: the parser's input.
    pub fn to_input(&self) -> (r: Vec<TokenKind>)
        requires
            self.wf(),
        ensures
            r@ == nontrivia_kinds_from(self.tokens@, 0),
    {
        let n = self.tokens.len();
        let mut r: Vec<TokenKind> = Vec::new();
        let mut j: usize = 0;
        while j < n
            invariant
                n == self.tokens@.len(),
                j <= n,
                nontrivia_kinds_from(self.tokens@, 0) == r@ + nontrivia_kinds_from(
                    self.tokens@,
                    j as int,
                ),
            decreases n - j,
        {
            let k = self.tokens[j].kind;
            if !is_trivia(k) {
                proof {
                    assert(r@ + (seq![k] + nontrivia_kinds_from(self.tokens@, j + 1)) =~= r@.push(
                        k,
                    ) + nontrivia_kinds_from(self.tokens@, j + 1));
                }
                r.push(k);
            }
            j = j + 1;
        }
        proof {
            assert(r@ + Seq::<TokenKind>::empty() =~= r@);
        }
        r
    }

    /// The starting offsets of the non-trivia tokens, with the text
    /// length as a final sentinel: position `p` of the parser's filtered
    /// input maps to character offset `r[p]`. The table is sorted and
    /// bounded by the text length.
    #[verifier::rlimit(50)]
    pub fn nontrivia_starts(&self) -> (r: Vec<usize>)
        requires
            self.wf(),
        ensures
            r@ == nontrivia_starts_from(self.tokens@, self.starts@, 0).push(
                self.text@.len() as usize,
            ),
            r@.len() == nontrivia_kinds_from(self.tokens@, 0).len() + 1,
            forall|a: int, b: int| 0 <= a <= b < r@.len() ==> #[trigger] r@[a] <= #[trigger] r@[b],
            forall|a: int| 0 <= a < r@.len() ==> #[trigger] r@[a] <= self.text@.len(),
    {
        let n = self.tokens.len();
        let mut r: Vec<usize> = Vec::new();
        let mut j: usize = 0;
        while j < n
            invariant
                self.wf(),
                n == self.tokens@.len(),
                j <= n,
                nontrivia_starts_from(self.tokens@, self.starts@, 0) == r@
                    + nontrivia_starts_from(self.tokens@, self.starts@, j as int),
                r@.len() + nontrivia_kinds_from(self.tokens@, j as int).len()
                    == nontrivia_kinds_from(self.tokens@, 0).len(),
                forall|a: int, b: int| 0 <= a <= b < r@.len() ==> #[trigger] r@[a] <= #[trigger] r@[b],
                forall|a: int| 0 <= a < r@.len() ==> #[trigger] r@[a] <= self.starts@[j as int],
            decreases n - j,
        {
            let k = self.tokens[j].kind;
            proof {
                self.lemma_starts_le(j as int, j as int + 1);
            }
            if !is_trivia(k) {
                let s = self.starts[j];
                proof {
                    assert(r@ + (seq![s] + nontrivia_starts_from(self.tokens@, self.starts@, j + 1))
                        =~= r@.push(s) + nontrivia_starts_from(self.tokens@, self.starts@, j + 1));
                }
                r.push(s);
            }
            j = j + 1;
        }
        proof {
            assert(r@ + Seq::<usize>::empty() =~= r@);
            self.lemma_starts_le(0, n as int);
        }
        let sentinel = self.text.len();
        r.push(sentinel);
        r
    }
}

/// Decode a string slice into its characters, one `Vec` element per
/// character.
pub fn str_to_chars(s: &str) -> (r: Vec<char>)
    ensures
        r@ == s@,
{
    let n = s.unicode_len();
    let mut r: Vec<char> = Vec::new();
    let mut i: usize = 0;
    while i < n
        invariant
            n == s@.len(),
            i <= n,
            r@ == s@.take(i as int),
        decreases n - i,
    {
        let c = s.get_char(i);
        r.push(c);
        proof {
            assert(s@.take(i + 1) =~= s@.take(i as int).push(s@[i as int]));
        }
        i = i + 1;
    }
    proof {
        assert(s@.take(n as int) =~= s@);
    }
    r
}

} // verus!
