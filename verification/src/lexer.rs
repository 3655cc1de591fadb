//! The tokenizer: classifies the longest prefix of the remaining input at
//! each position, producing tokens whose texts concatenate back to the exact
//! source.
//!
//! The classification is an explicit ordered rule list, stated once as the
//! spec function [`token_at`] and implemented by [`Lexer::next`] and
//! [`tokenize`]: whitespace runs, `//` line comments, numbers (integer or
//! float), words (keywords checked against the identifier pattern), string
//! literals, and single-character punctuation. Input on which no rule
//! matches is an unlexable-input error.

use vstd::prelude::*;
use vstd::string::StrSliceExecFns;
use vstd::utf8::encode_utf8;

use crate::token::{byte_pos, lemma_byte_pos_step, lemma_byte_pos_zero, Span, Token, TokenKind};

verus! {

/// A whitespace character: space, tab, newline, carriage return, form feed.
pub open spec fn is_ws_char(c: char) -> bool {
    c == ' ' || c == '\t' || c == '\n' || c == '\r' || c == '\u{c}'
}

/// An ASCII decimal digit.
pub open spec fn is_digit_char(c: char) -> bool {
    ('0' as u32) <= (c as u32) && (c as u32) <= ('9' as u32)
}

/// A character that may start a word: a letter or an underscore.
pub open spec fn is_word_start_char(c: char) -> bool {
    ||| ('a' as u32) <= (c as u32) && (c as u32) <= ('z' as u32)
    ||| ('A' as u32) <= (c as u32) && (c as u32) <= ('Z' as u32)
    ||| c == '_'
}

/// A character that may continue a word: a letter, a digit, or an underscore.
pub open spec fn is_word_cont_char(c: char) -> bool {
    is_word_start_char(c) || is_digit_char(c)
}

pub open spec fn ws_pred() -> spec_fn(char) -> bool {
    |c: char| is_ws_char(c)
}

pub open spec fn digit_pred() -> spec_fn(char) -> bool {
    |c: char| is_digit_char(c)
}

pub open spec fn word_cont_pred() -> spec_fn(char) -> bool {
    |c: char| is_word_cont_char(c)
}

pub open spec fn not_newline_pred() -> spec_fn(char) -> bool {
    |c: char| c != '\n'
}

pub open spec fn not_quote_pred() -> spec_fn(char) -> bool {
    |c: char| c != '"'
}

/// The first position at or after `i` whose character fails `p`, or the end
/// of the string: the end of the maximal run of `p`-characters starting at
/// `i`.
pub open spec fn run_end(s: Seq<char>, i: int, p: spec_fn(char) -> bool) -> int
    decreases s.len() - i,
    when 0 <= i <= s.len()
{
    if i >= s.len() {
        i
    } else if p(s[i]) {
        run_end(s, i + 1, p)
    } else {
        i
    }
}

pub proof fn lemma_run_end(s: Seq<char>, i: int, p: spec_fn(char) -> bool)
    requires
        0 <= i <= s.len(),
    ensures
        i <= run_end(s, i, p) <= s.len(),
        forall|j: int| i <= j < run_end(s, i, p) ==> p(s[j]),
        run_end(s, i, p) < s.len() ==> !p(s[run_end(s, i, p)]),
    decreases s.len() - i,
{
    if i < s.len() && p(s[i]) {
        lemma_run_end(s, i + 1, p);
    }
}

/// The kind of a scanned word: one of the seven keywords, matched exactly,
/// or an identifier.
pub open spec fn word_kind(t: Seq<char>) -> TokenKind {
    if t == seq!['a', 'c', 't', 'o', 'r'] {
        TokenKind::Actor
    } else if t == seq!['l', 'e', 't'] {
        TokenKind::Let
    } else if t == seq!['o', 'n'] {
        TokenKind::On
    } else if t == seq!['p', 'r', 'i', 'n', 't'] {
        TokenKind::Print
    } else if t == seq!['d', 'i', 'e'] {
        TokenKind::Die
    } else if t == seq!['t', 'r', 'u', 'e'] {
        TokenKind::True
    } else if t == seq!['f', 'a', 'l', 's', 'e'] {
        TokenKind::False
    } else {
        TokenKind::Ident
    }
}

/// The token matched at position `i` of `s`: its kind and its end position,
/// or `None` when no rule matches there.
pub open spec fn token_at(s: Seq<char>, i: int) -> Option<(TokenKind, int)>
    recommends
        0 <= i < s.len(),
{
    let c = s[i];
    if is_ws_char(c) {
        Some((TokenKind::Whitespace, run_end(s, i + 1, ws_pred())))
    } else if c == '/' {
        if i + 1 < s.len() && s[i + 1] == '/' {
            Some((TokenKind::Comment, run_end(s, i + 2, not_newline_pred())))
        } else {
            None
        }
    } else if is_digit_char(c) {
        let d = run_end(s, i + 1, digit_pred());
        if d + 1 < s.len() && s[d] == '.' && is_digit_char(s[d + 1]) {
            Some((TokenKind::Float, run_end(s, d + 2, digit_pred())))
        } else {
            Some((TokenKind::Int, d))
        }
    } else if is_word_start_char(c) {
        let e = run_end(s, i + 1, word_cont_pred());
        Some((word_kind(s.subrange(i, e)), e))
    } else if c == '"' {
        let q = run_end(s, i + 1, not_quote_pred());
        if q < s.len() {
            Some((TokenKind::String, q + 1))
        } else {
            None
        }
    } else if c == '(' {
        Some((TokenKind::LParen, i + 1))
    } else if c == ')' {
        Some((TokenKind::RParen, i + 1))
    } else if c == '{' {
        Some((TokenKind::LCurlyBrace, i + 1))
    } else if c == '}' {
        Some((TokenKind::RCurlyBrace, i + 1))
    } else if c == '=' {
        Some((TokenKind::Equals, i + 1))
    } else {
        None
    }
}

/// Every matched token is non-empty and ends within the source.
pub proof fn lemma_token_at_bounds(s: Seq<char>, i: int)
    requires
        0 <= i < s.len(),
    ensures
        match token_at(s, i) {
            Some(ke) => i < ke.1 <= s.len(),
            None => true,
        },
{
    let c = s[i];
    if is_ws_char(c) {
        lemma_run_end(s, i + 1, ws_pred());
    } else if c == '/' {
        if i + 1 < s.len() && s[i + 1] == '/' {
            lemma_run_end(s, i + 2, not_newline_pred());
        }
    } else if is_digit_char(c) {
        lemma_run_end(s, i + 1, digit_pred());
        let d = run_end(s, i + 1, digit_pred());
        if d + 1 < s.len() && s[d] == '.' && is_digit_char(s[d + 1]) {
            lemma_run_end(s, d + 2, digit_pred());
        }
    } else if is_word_start_char(c) {
        lemma_run_end(s, i + 1, word_cont_pred());
    } else if c == '"' {
        lemma_run_end(s, i + 1, not_quote_pred());
    }
}

/// The classification of all of `s` from position `i` on: the sequence of
/// `(kind, start, end)` triples of the tokens, or `None` on unlexable input.
pub open spec fn spec_tokenize_from(s: Seq<char>, i: int) -> Option<Seq<(TokenKind, int, int)>>
    decreases s.len() - i,
    when 0 <= i <= s.len()
    via spec_tokenize_from_dec
{
    if i >= s.len() {
        Some(Seq::empty())
    } else {
        match token_at(s, i) {
            None => None,
            Some(ke) => match spec_tokenize_from(s, ke.1) {
                None => None,
                Some(rest) => Some(seq![(ke.0, i, ke.1)] + rest),
            },
        }
    }
}

#[via_fn]
proof fn spec_tokenize_from_dec(s: Seq<char>, i: int) {
    if 0 <= i < s.len() {
        lemma_token_at_bounds(s, i);
    }
}

/// The position at which scanning from `i` gets stuck: the first position,
/// token by token, where no rule matches. `None` when tokenization runs to
/// the end of the source.
pub open spec fn scan_fail_pos(s: Seq<char>, i: int) -> Option<int>
    decreases s.len() - i,
    when 0 <= i <= s.len()
    via scan_fail_pos_dec
{
    if i >= s.len() {
        None
    } else {
        match token_at(s, i) {
            None => Some(i),
            Some(ke) => scan_fail_pos(s, ke.1),
        }
    }
}

#[via_fn]
proof fn scan_fail_pos_dec(s: Seq<char>, i: int) {
    if 0 <= i < s.len() {
        lemma_token_at_bounds(s, i);
    }
}

/// The source from position `i` on reads as trivia alone: whitespace
/// characters and `//` line comments, in any order, and nothing else.
pub open spec fn trivia_from(s: Seq<char>, i: int) -> bool
    decreases s.len() - i,
    when 0 <= i <= s.len()
    via trivia_from_dec
{
    if i >= s.len() {
        true
    } else if is_ws_char(s[i]) {
        trivia_from(s, i + 1)
    } else if s[i] == '/' && i + 1 < s.len() && s[i + 1] == '/' {
        trivia_from(s, run_end(s, i + 2, not_newline_pred()))
    } else {
        false
    }
}

#[via_fn]
proof fn trivia_from_dec(s: Seq<char>, i: int) {
    if 0 <= i < s.len() && !is_ws_char(s[i]) && s[i] == '/' && i + 1 < s.len() && s[i + 1]
        == '/' {
        lemma_run_end(s, i + 2, not_newline_pred());
    }
}

/// Being trivia is preserved across a run of whitespace characters.
proof fn lemma_trivia_from_ws_run(s: Seq<char>, i: int, e: int)
    requires
        0 <= i <= e <= s.len(),
        trivia_from(s, i),
        forall|k: int| i <= k < e ==> is_ws_char(#[trigger] s[k]),
    ensures
        trivia_from(s, e),
    decreases e - i,
{
    if i < e {
        lemma_trivia_from_ws_run(s, i + 1, e);
    }
}

/// A source of trivia alone tokenizes successfully, and every token it
/// yields is trivia-classified.
pub proof fn lemma_trivia_source_tokenizes_trivia(s: Seq<char>, i: int)
    requires
        0 <= i <= s.len(),
        trivia_from(s, i),
    ensures
        spec_tokenize_from(s, i) is Some,
        forall|k: int|
            0 <= k < spec_tokenize_from(s, i).unwrap().len() ==> (#[trigger] spec_tokenize_from(
                s,
                i,
            ).unwrap()[k]).0.spec_is_trivia(),
    decreases s.len() - i,
{
    if i < s.len() {
        if is_ws_char(s[i]) {
            lemma_run_end(s, i + 1, ws_pred());
            let e = run_end(s, i + 1, ws_pred());
            assert(forall|k: int| i + 1 <= k < e ==> is_ws_char(#[trigger] s[k]));
            lemma_trivia_from_ws_run(s, i + 1, e);
            lemma_trivia_source_tokenizes_trivia(s, e);
            let sts = spec_tokenize_from(s, i).unwrap();
            let rest = spec_tokenize_from(s, e).unwrap();
            assert(sts == seq![(TokenKind::Whitespace, i, e)] + rest);
            assert(forall|k: int| 0 < k < sts.len() ==> sts[k] == rest[k - 1]);
        } else {
            assert(!is_ws_char('/'));
            assert(s[i] == '/' && i + 1 < s.len() && s[i + 1] == '/');
            lemma_run_end(s, i + 2, not_newline_pred());
            let e = run_end(s, i + 2, not_newline_pred());
            lemma_trivia_source_tokenizes_trivia(s, e);
            let sts = spec_tokenize_from(s, i).unwrap();
            let rest = spec_tokenize_from(s, e).unwrap();
            assert(sts == seq![(TokenKind::Comment, i, e)] + rest);
            assert(forall|k: int| 0 < k < sts.len() ==> sts[k] == rest[k - 1]);
        }
    }
}

/// Tokenization succeeds exactly when scanning never gets stuck.
pub proof fn lemma_scan_fail_iff(s: Seq<char>, i: int)
    requires
        0 <= i <= s.len(),
    ensures
        (spec_tokenize_from(s, i) is Some) <==> (scan_fail_pos(s, i) is None),
    decreases s.len() - i,
{
    if i < s.len() {
        lemma_token_at_bounds(s, i);
        match token_at(s, i) {
            Some(ke) => {
                lemma_scan_fail_iff(s, ke.1);
            },
            None => {},
        }
    }
}

/// The concatenation of the texts of a token sequence.
pub open spec fn concat_texts(ts: Seq<Token>) -> Seq<char>
    decreases ts,
{
    if ts.len() == 0 {
        Seq::empty()
    } else {
        concat_texts(ts.drop_last()) + ts.last().text@
    }
}

/// The tokens `ts` are exactly the classification `sts` of the source `s`:
/// same kinds, spans at the matched character ranges' byte offsets, and each
/// text the exact matched substring.
pub open spec fn tokens_match(ts: Seq<Token>, s: Seq<char>, sts: Seq<(TokenKind, int, int)>) -> bool {
    &&& ts.len() == sts.len()
    &&& forall|k: int|
        0 <= k < ts.len() ==> (#[trigger] ts[k]).fits(s, sts[k].0, sts[k].1, sts[k].2)
}

/// Tokenization failed: no rule matches at character offset `pos`.
#[derive(Debug, Copy, Clone, PartialEq, Eq, Structural)]
pub struct LexError {
    pub pos: usize,
}

/// A forward-only token stream over one source string. A fresh `Lexer` must
/// be constructed per input; it cannot be rewound.
pub struct Lexer<'a> {
    input: &'a str,
    len: usize,
    pos: usize,
    bpos: usize,
}

impl<'a> Lexer<'a> {
    /// The source being tokenized.
    pub closed spec fn src(self) -> Seq<char> {
        self.input@
    }

    /// The current cursor, a character offset into the source.
    pub closed spec fn position(self) -> int {
        self.pos as int
    }

    pub closed spec fn wf(self) -> bool {
        &&& self.len == self.input@.len()
        &&& self.pos <= self.len
        &&& self.bpos == byte_pos(self.input@, self.pos as int)
        &&& byte_pos(self.input@, self.input@.len() as int) <= usize::MAX
    }

    pub fn new(input: &'a str) -> (l: Lexer<'a>)
        ensures
            l.wf(),
            l.src() == input@,
            l.position() == 0,
    {
        let nbytes = input.as_bytes().len();
        proof {
            lemma_byte_pos_zero(input@);
            assert(input@.subrange(0, input@.len() as int) =~= input@);
            assert(nbytes == encode_utf8(input@).len());
        }
        Lexer { input, len: input.unicode_len(), pos: 0, bpos: 0 }
    }

    /// Pulls the next token. Returns `None` at the end of the source; on
    /// unlexable input it reports the error and does not advance.
    pub fn next(&mut self) -> (r: Option<Result<Token, LexError>>)
        requires
            old(self).wf(),
        ensures
            final(self).wf(),
            final(self).src() == old(self).src(),
            old(self).position() >= old(self).src().len() ==> r is None && final(self).position()
                == old(self).position(),
            old(self).position() < old(self).src().len() ==> match token_at(
                old(self).src(),
                old(self).position(),
            ) {
                Some(ke) => {
                    &&& r matches Some(Ok(t))
                    &&& t.fits(old(self).src(), ke.0, old(self).position(), ke.1)
                    &&& final(self).position() == ke.1
                },
                None => {
                    &&& r matches Some(Err(e)) && e.pos as int == old(self).position()
                    &&& final(self).position() == old(self).position()
                },
            },
    {
        if self.pos >= self.len {
            return None;
        }
        match scan_token(self.input, self.len, self.pos) {
            None => Some(Err(LexError { pos: self.pos })),
            Some((kind, end)) => {
                let text = self.input.substring_char(self.pos, end).to_owned();
                proof {
                    lemma_byte_pos_step(self.input@, self.pos as int, end as int);
                    lemma_byte_pos_step(self.input@, end as int, self.input@.len() as int);
                }
                let blen = text.as_str().len();
                let span = Span { start: self.bpos, end: self.bpos + blen };
                self.pos = end;
                self.bpos = span.end;
                Some(Ok(Token { kind, text, span }))
            },
        }
    }
}

/// A source of whitespace characters alone tokenizes to a single
/// whitespace token covering the whole source: trivia in, trivia out.
pub proof fn lemma_ws_source_single_token(s: Seq<char>)
    requires
        s.len() > 0,
        forall|k: int| 0 <= k < s.len() ==> is_ws_char(#[trigger] s[k]),
    ensures
        spec_tokenize_from(s, 0) == Some(seq![(TokenKind::Whitespace, 0int, s.len() as int)]),
        forall|k: int|
            0 <= k < spec_tokenize_from(s, 0).unwrap().len() ==> spec_tokenize_from(
                s,
                0,
            ).unwrap()[k].0.spec_is_trivia(),
{
    lemma_run_end(s, 1, ws_pred());
    let re = run_end(s, 1, ws_pred());
    if re < s.len() {
        assert(ws_pred()(s[re]) == is_ws_char(s[re]));
        assert(is_ws_char(s[re]));
        assert(false);
    }
    assert(token_at(s, 0) == Some((TokenKind::Whitespace, s.len() as int)));
    assert(spec_tokenize_from(s, s.len() as int) == Some(Seq::<(TokenKind, int, int)>::empty()));
    assert(seq![(TokenKind::Whitespace, 0int, s.len() as int)] + Seq::<(
        TokenKind,
        int,
        int,
    )>::empty() =~= seq![(TokenKind::Whitespace, 0int, s.len() as int)]);
}

/// A source that is one line comment (it starts with `//` and holds no
/// newline) tokenizes to a single comment token: trivia in, trivia out.
pub proof fn lemma_comment_source_single_token(s: Seq<char>)
    requires
        s.len() >= 2,
        s[0] == '/',
        s[1] == '/',
        forall|k: int| 0 <= k < s.len() ==> #[trigger] s[k] != '\n',
    ensures
        spec_tokenize_from(s, 0) == Some(seq![(TokenKind::Comment, 0int, s.len() as int)]),
{
    lemma_run_end(s, 2, not_newline_pred());
    let re = run_end(s, 2, not_newline_pred());
    if re < s.len() {
        assert(not_newline_pred()(s[re]) == (s[re] != '\n'));
        assert(s[re] != '\n');
        assert(false);
    }
    assert(token_at(s, 0) == Some((TokenKind::Comment, s.len() as int)));
    assert(spec_tokenize_from(s, s.len() as int) == Some(Seq::<(TokenKind, int, int)>::empty()));
    assert(seq![(TokenKind::Comment, 0int, s.len() as int)] + Seq::<(
        TokenKind,
        int,
        int,
    )>::empty() =~= seq![(TokenKind::Comment, 0int, s.len() as int)]);
}

/// Idempotence, first half: re-tokenizing the reconstructed concatenation
/// classifies exactly as tokenizing the original source does.
pub proof fn lemma_retokenize(toks: Seq<Token>, s: Seq<char>)
    requires
        concat_texts(toks) == s,
    ensures
        spec_tokenize_from(concat_texts(toks), 0) == spec_tokenize_from(s, 0),
{
}

/// Idempotence, second half: the tokens are a function of the
/// classification, so two token sequences produced from one source agree in
/// kind, span and text, position by position.
pub proof fn lemma_tokens_determined(
    a: Seq<Token>,
    b: Seq<Token>,
    s: Seq<char>,
    sts: Seq<(TokenKind, int, int)>,
)
    requires
        tokens_match(a, s, sts),
        tokens_match(b, s, sts),
    ensures
        a.len() == b.len(),
        forall|k: int|
            0 <= k < a.len() ==> (#[trigger] a[k]).kind == b[k].kind && a[k].span == b[k].span
                && a[k].text@ == b[k].text@,
{
}

fn is_ws(c: char) -> (b: bool)
    ensures
        b == is_ws_char(c),
{
    c == ' ' || c == '\t' || c == '\n' || c == '\r' || c == '\u{c}'
}

fn is_digit(c: char) -> (b: bool)
    ensures
        b == is_digit_char(c),
{
    let u = c as u32;
    ('0' as u32) <= u && u <= ('9' as u32)
}

fn is_word_start(c: char) -> (b: bool)
    ensures
        b == is_word_start_char(c),
{
    let u = c as u32;
    (('a' as u32) <= u && u <= ('z' as u32)) || (('A' as u32) <= u && u <= ('Z' as u32)) || c == '_'
}

fn is_word_cont(c: char) -> (b: bool)
    ensures
        b == is_word_cont_char(c),
{
    is_word_start(c) || is_digit(c)
}

fn scan_ws(s: &str, n: usize, from: usize) -> (r: usize)
    requires
        n == s@.len(),
        from <= n,
    ensures
        r == run_end(s@, from as int, ws_pred()),
        from <= r <= n,
{
    let mut i = from;
    while i < n && is_ws(s.get_char(i))
        invariant
            n == s@.len(),
            from <= i <= n,
            run_end(s@, from as int, ws_pred()) == run_end(s@, i as int, ws_pred()),
        decreases n - i,
    {
        i = i + 1;
    }
    i
}

fn scan_digits(s: &str, n: usize, from: usize) -> (r: usize)
    requires
        n == s@.len(),
        from <= n,
    ensures
        r == run_end(s@, from as int, digit_pred()),
        from <= r <= n,
{
    let mut i = from;
    while i < n && is_digit(s.get_char(i))
        invariant
            n == s@.len(),
            from <= i <= n,
            run_end(s@, from as int, digit_pred()) == run_end(s@, i as int, digit_pred()),
        decreases n - i,
    {
        i = i + 1;
    }
    i
}

fn scan_word(s: &str, n: usize, from: usize) -> (r: usize)
    requires
        n == s@.len(),
        from <= n,
    ensures
        r == run_end(s@, from as int, word_cont_pred()),
        from <= r <= n,
{
    let mut i = from;
    while i < n && is_word_cont(s.get_char(i))
        invariant
            n == s@.len(),
            from <= i <= n,
            run_end(s@, from as int, word_cont_pred()) == run_end(s@, i as int, word_cont_pred()),
        decreases n - i,
    {
        i = i + 1;
    }
    i
}

fn scan_to_newline(s: &str, n: usize, from: usize) -> (r: usize)
    requires
        n == s@.len(),
        from <= n,
    ensures
        r == run_end(s@, from as int, not_newline_pred()),
        from <= r <= n,
{
    let mut i = from;
    while i < n && s.get_char(i) != '\n'
        invariant
            n == s@.len(),
            from <= i <= n,
            run_end(s@, from as int, not_newline_pred()) == run_end(s@, i as int, not_newline_pred()),
        decreases n - i,
    {
        i = i + 1;
    }
    i
}

fn scan_to_quote(s: &str, n: usize, from: usize) -> (r: usize)
    requires
        n == s@.len(),
        from <= n,
    ensures
        r == run_end(s@, from as int, not_quote_pred()),
        from <= r <= n,
{
    let mut i = from;
    while i < n && s.get_char(i) != '"'
        invariant
            n == s@.len(),
            from <= i <= n,
            run_end(s@, from as int, not_quote_pred()) == run_end(s@, i as int, not_quote_pred()),
        decreases n - i,
    {
        i = i + 1;
    }
    i
}

/// Decides whether the word at `[start, end)` is a keyword or an identifier.
fn classify_word(s: &str, start: usize, end: usize) -> (k: TokenKind)
    requires
        start < end <= s@.len(),
    ensures
        k == word_kind(s@.subrange(start as int, end as int)),
{
    let ghost t = s@.subrange(start as int, end as int);
    let len = end - start;
    if len == 2 {
        if s.get_char(start) == 'o' && s.get_char(start + 1) == 'n' {
            proof {
                assert(t =~= seq!['o', 'n']);
            }
            return TokenKind::On;
        }
    } else if len == 3 {
        if s.get_char(start) == 'l' && s.get_char(start + 1) == 'e' && s.get_char(start + 2)
            == 't' {
            proof {
                assert(t =~= seq!['l', 'e', 't']);
            }
            return TokenKind::Let;
        }
        if s.get_char(start) == 'd' && s.get_char(start + 1) == 'i' && s.get_char(start + 2)
            == 'e' {
            proof {
                assert(t =~= seq!['d', 'i', 'e']);
            }
            return TokenKind::Die;
        }
    } else if len == 4 {
        if s.get_char(start) == 't' && s.get_char(start + 1) == 'r' && s.get_char(start + 2) == 'u'
            && s.get_char(start + 3) == 'e' {
            proof {
                assert(t =~= seq!['t', 'r', 'u', 'e']);
            }
            return TokenKind::True;
        }
    } else if len == 5 {
        if s.get_char(start) == 'a' && s.get_char(start + 1) == 'c' && s.get_char(start + 2) == 't'
            && s.get_char(start + 3) == 'o' && s.get_char(start + 4) == 'r' {
            proof {
                assert(t =~= seq!['a', 'c', 't', 'o', 'r']);
            }
            return TokenKind::Actor;
        }
        if s.get_char(start) == 'p' && s.get_char(start + 1) == 'r' && s.get_char(start + 2) == 'i'
            && s.get_char(start + 3) == 'n' && s.get_char(start + 4) == 't' {
            proof {
                assert(t =~= seq!['p', 'r', 'i', 'n', 't']);
            }
            return TokenKind::Print;
        }
        if s.get_char(start) == 'f' && s.get_char(start + 1) == 'a' && s.get_char(start + 2) == 'l'
            && s.get_char(start + 3) == 's' && s.get_char(start + 4) == 'e' {
            proof {
                assert(t =~= seq!['f', 'a', 'l', 's', 'e']);
            }
            return TokenKind::False;
        }
    }
    proof {
        assert(t.len() == end - start);
    }
    TokenKind::Ident
}

/// Matches one token at position `pos`, returning its kind and end, exactly
/// as [`token_at`] classifies it.
fn scan_token(s: &str, n: usize, pos: usize) -> (r: Option<(TokenKind, usize)>)
    requires
        n == s@.len(),
        pos < n,
    ensures
        match r {
            Some(ke) => token_at(s@, pos as int) == Some((ke.0, ke.1 as int)) && pos < ke.1 <= n,
            None => token_at(s@, pos as int) is None,
        },
{
    proof {
        lemma_token_at_bounds(s@, pos as int);
    }
    let c = s.get_char(pos);
    if is_ws(c) {
        Some((TokenKind::Whitespace, scan_ws(s, n, pos + 1)))
    } else if c == '/' {
        if pos + 1 < n && s.get_char(pos + 1) == '/' {
            Some((TokenKind::Comment, scan_to_newline(s, n, pos + 2)))
        } else {
            None
        }
    } else if is_digit(c) {
        let d = scan_digits(s, n, pos + 1);
        if d < n && s.get_char(d) == '.' && d + 1 < n && is_digit(s.get_char(d + 1)) {
            Some((TokenKind::Float, scan_digits(s, n, d + 2)))
        } else {
            Some((TokenKind::Int, d))
        }
    } else if is_word_start(c) {
        let e = scan_word(s, n, pos + 1);
        Some((classify_word(s, pos, e), e))
    } else if c == '"' {
        let q = scan_to_quote(s, n, pos + 1);
        if q < n {
            Some((TokenKind::String, q + 1))
        } else {
            None
        }
    } else if c == '(' {
        Some((TokenKind::LParen, pos + 1))
    } else if c == ')' {
        Some((TokenKind::RParen, pos + 1))
    } else if c == '{' {
        Some((TokenKind::LCurlyBrace, pos + 1))
    } else if c == '}' {
        Some((TokenKind::RCurlyBrace, pos + 1))
    } else if c == '=' {
        Some((TokenKind::Equals, pos + 1))
    } else {
        None
    }
}

/// One unfolding of the classification: the token matched at `pos` heads
/// the classification of the rest.
proof fn lemma_tokenize_step(s: Seq<char>, pos: int, kind: TokenKind, end: int)
    requires
        0 <= pos < s.len(),
        token_at(s, pos) == Some((kind, end)),
    ensures
        pos < end <= s.len(),
        (spec_tokenize_from(s, pos) is Some) == (spec_tokenize_from(s, end) is Some),
        spec_tokenize_from(s, end) is Some ==> spec_tokenize_from(s, pos).unwrap() == seq![
            (kind, pos, end),
        ] + spec_tokenize_from(s, end).unwrap(),
        scan_fail_pos(s, pos) == scan_fail_pos(s, end),
{
    lemma_token_at_bounds(s, pos);
}

/// Tokenizes a whole source string. On success the tokens partition the
/// source: spans are contiguous, monotonically increasing, and the
/// concatenation of all token texts reconstructs the source exactly.
#[verifier::rlimit(100)]
pub fn tokenize(input: &str) -> (r: Result<Vec<Token>, LexError>)
    ensures
        match r {
            Ok(toks) => {
                &&& spec_tokenize_from(input@, 0) matches Some(sts) && tokens_match(
                    toks@,
                    input@,
                    sts,
                )
                &&& concat_texts(toks@) == input@
                &&& forall|k: int|
                    0 < k < toks@.len() ==> (#[trigger] toks@[k]).span.start == toks@[k
                        - 1].span.end
                &&& toks@.len() > 0 ==> toks@[0].span.start == 0 && toks@.last().span.end
                    == byte_pos(input@, input@.len() as int)
            },
            Err(e) => {
                &&& spec_tokenize_from(input@, 0) is None
                &&& scan_fail_pos(input@, 0) == Some(e.pos as int)
                &&& e.pos < input@.len()
                &&& token_at(input@, e.pos as int) is None
            },
        },
{
    let ghost s = input@;
    let n = input.unicode_len();
    let nbytes = input.as_bytes().len();
    proof {
        lemma_byte_pos_zero(s);
        assert(s.subrange(0, s.len() as int) =~= s);
        assert(nbytes == encode_utf8(s).len());
    }
    let mut toks: Vec<Token> = Vec::new();
    let mut pos: usize = 0;
    let mut bpos: usize = 0;
    let ghost mut gtriples: Seq<(TokenKind, int, int)> = Seq::empty();
    while pos < n
        invariant
            n == s.len(),
            input@ == s,
            pos <= n,
            bpos == byte_pos(s, pos as int),
            byte_pos(s, n as int) <= usize::MAX,
            match spec_tokenize_from(s, pos as int) {
                Some(rest) => spec_tokenize_from(s, 0) == Some(gtriples + rest),
                None => spec_tokenize_from(s, 0) is None,
            },
            scan_fail_pos(s, 0) == scan_fail_pos(s, pos as int),
            tokens_match(toks@, s, gtriples),
            concat_texts(toks@) == s.subrange(0, pos as int),
            forall|k: int|
                0 < k < toks@.len() ==> (#[trigger] toks@[k]).span.start == toks@[k - 1].span.end,
            toks@.len() > 0 ==> toks@[0].span.start == 0 && toks@.last().span.end == bpos,
            toks@.len() == 0 ==> pos == 0 && bpos == 0,
        decreases n - pos,
    {
        match scan_token(input, n, pos) {
            None => {
                return Err(LexError { pos });
            },
            Some((kind, end)) => {
                let text = input.substring_char(pos, end).to_owned();
                proof {
                    lemma_byte_pos_step(s, pos as int, end as int);
                    lemma_byte_pos_step(s, end as int, n as int);
                }
                let blen = text.as_str().len();
                let tok = Token { kind, text, span: Span { start: bpos, end: bpos + blen } };
                proof {
                    lemma_tokenize_step(s, pos as int, kind, end as int);
                    let t3 = (kind, pos as int, end as int);
                    if spec_tokenize_from(s, end as int) is Some {
                        let rest = spec_tokenize_from(s, pos as int).unwrap();
                        let rest2 = spec_tokenize_from(s, end as int).unwrap();
                        assert(gtriples + rest =~= gtriples.push(t3) + rest2);
                    }
                    assert(concat_texts(toks@.push(tok)) == concat_texts(toks@) + tok.text@) by {
                        assert(toks@.push(tok).drop_last() =~= toks@);
                    }
                    assert(s.subrange(0, pos as int) + s.subrange(pos as int, end as int)
                        =~= s.subrange(0, end as int));
                    gtriples = gtriples.push(t3);
                }
                toks.push(tok);
                pos = end;
                bpos = bpos + blen;
            },
        }
    }
    proof {
        assert(gtriples + Seq::<(TokenKind, int, int)>::empty() =~= gtriples);
        assert(s.subrange(0, n as int) =~= s);
    }
    Ok(toks)
}

} // verus!
