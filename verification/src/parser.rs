//! The recursive-descent parser: one token of lookahead over the token
//! sequence, trivia skipped before every decision, producing actor
//! definitions with their message handlers, or a descriptive error.
//!
//! The grammar is stated once as spec functions (`sp_program`,
//! `sp_actor_def`, `sp_handler`, `sp_stmt`, `sp_expr`) over the token
//! sequence; every `Parser` method is proved to return exactly what the
//! corresponding spec function computes, including which error comes out of
//! malformed input.

use vstd::prelude::*;
use vstd::string::StrSliceExecFns;

use crate::ast::{
    expr_v, handler_v, handlers_v, lemma_handlers_v_push, lemma_stmts_v_push, stmt_v, stmts_v,
    Expr, ExprV, HandlerV, Literal, LiteralV, MessageHandler, Stmt, StmtV,
};
use crate::token::{Token, TokenKind};

verus! {

/// Relies on `String::push` from std: appends the given character to the
/// end of the string.
pub assume_specification[ std::string::String::push ](s: &mut String, c: char)
    ensures
        final(s)@ == old(s)@.push(c),
;

/// Why a parse failed. Every error is terminal for the whole parse.
#[derive(Debug, PartialEq)]
pub enum ParseError {
    /// No grammar rule applies at the offending token (`None`: end of input).
    UnexpectedToken(Option<Token>),
    /// A required token was missing or of the wrong kind.
    ExpectedToken { expected: TokenKind, found: Option<Token> },
    /// The token stream ended where an expression was required.
    ExpectedExpression,
    /// A string literal's raw text is malformed.
    InvalidStringLiteral,
    /// An unknown escape character (`None`: input ended after the backslash).
    InvalidEscapeSequence(Option<char>),
}

/// The fixed escape table: what `\c` stands for, or `None` for an invalid
/// escape.
pub open spec fn escape_char(c: char) -> Option<char> {
    if c == '"' {
        Some('"')
    } else if c == 'n' {
        Some('\n')
    } else if c == 'r' {
        Some('\r')
    } else if c == 't' {
        Some('\t')
    } else if c == '\\' {
        Some('\\')
    } else {
        None
    }
}

/// Decodes the content of a raw string literal from position `i` (after the
/// opening quote): characters are copied, escapes are mapped through
/// [`escape_char`], the first unescaped quote terminates, and characters
/// after the terminator are an error.
pub open spec fn decode_body(t: Seq<char>, i: int) -> Result<Seq<char>, ParseError>
    decreases t.len() - i,
    when 0 <= i <= t.len()
{
    if i >= t.len() {
        Ok(Seq::empty())
    } else if t[i] == '"' {
        if i + 1 < t.len() {
            Err(ParseError::InvalidStringLiteral)
        } else {
            Ok(Seq::empty())
        }
    } else if t[i] == '\\' {
        if i + 1 >= t.len() {
            Err(ParseError::InvalidEscapeSequence(None))
        } else {
            match escape_char(t[i + 1]) {
                None => Err(ParseError::InvalidEscapeSequence(Some(t[i + 1]))),
                Some(c) => match decode_body(t, i + 2) {
                    Ok(rest) => Ok(seq![c] + rest),
                    Err(e) => Err(e),
                },
            }
        }
    } else {
        match decode_body(t, i + 1) {
            Ok(rest) => Ok(seq![t[i]] + rest),
            Err(e) => Err(e),
        }
    }
}

/// Decodes a raw string literal, quotes included: the first character must
/// be a quote, then the body follows [`decode_body`].
pub open spec fn spec_decode(t: Seq<char>) -> Result<Seq<char>, ParseError> {
    if t.len() == 0 || t[0] != '"' {
        Err(ParseError::InvalidStringLiteral)
    } else {
        decode_body(t, 1)
    }
}

/// The first position at or after `i` holding a non-trivia token, or the end
/// of the sequence.
pub open spec fn sp_skip(ts: Seq<Token>, i: int) -> int
    decreases ts.len() - i,
    when 0 <= i <= ts.len()
{
    if i >= ts.len() {
        i
    } else if ts[i].kind.spec_is_trivia() {
        sp_skip(ts, i + 1)
    } else {
        i
    }
}

pub proof fn lemma_sp_skip(ts: Seq<Token>, i: int)
    requires
        0 <= i <= ts.len(),
    ensures
        i <= sp_skip(ts, i) <= ts.len(),
        sp_skip(ts, i) < ts.len() ==> !ts[sp_skip(ts, i)].kind.spec_is_trivia(),
        forall|j: int| i <= j < sp_skip(ts, i) ==> ts[j].kind.spec_is_trivia(),
        sp_skip(ts, sp_skip(ts, i)) == sp_skip(ts, i),
    decreases ts.len() - i,
{
    if i < ts.len() && ts[i].kind.spec_is_trivia() {
        lemma_sp_skip(ts, i + 1);
    }
}

/// Skips trivia, then demands a token of kind `k`: the token and the
/// position after it, or the error naming what was expected and found.
pub open spec fn sp_expect(ts: Seq<Token>, i: int, k: TokenKind) -> Result<
    (Token, int),
    ParseError,
>
    recommends
        0 <= i <= ts.len(),
{
    let j = sp_skip(ts, i);
    if j >= ts.len() {
        Err(ParseError::ExpectedToken { expected: k, found: None })
    } else if ts[j].kind == k {
        Ok((ts[j], j + 1))
    } else {
        Err(ParseError::ExpectedToken { expected: k, found: Some(ts[j]) })
    }
}

pub proof fn lemma_sp_expect(ts: Seq<Token>, i: int, k: TokenKind)
    requires
        0 <= i <= ts.len(),
    ensures
        match sp_expect(ts, i, k) {
            Ok(te) => i < te.1 <= ts.len(),
            Err(e) => true,
        },
{
    lemma_sp_skip(ts, i);
}

/// An expression: exactly one string-literal token, decoded. No trivia skip
/// happens here; callers position the cursor first.
pub open spec fn sp_expr(ts: Seq<Token>, i: int) -> Result<(ExprV, int), ParseError>
    recommends
        0 <= i <= ts.len(),
{
    if i >= ts.len() {
        Err(ParseError::ExpectedExpression)
    } else if ts[i].kind is String {
        match spec_decode(ts[i].text@) {
            Ok(d) => Ok((ExprV::Literal(LiteralV::Str(d)), i + 1)),
            Err(e) => Err(e),
        }
    } else {
        Err(ParseError::UnexpectedToken(Some(ts[i])))
    }
}

/// A statement: `print <expr>` or `die`, dispatched on the leading keyword.
pub open spec fn sp_stmt(ts: Seq<Token>, i: int) -> Result<(StmtV, int), ParseError>
    recommends
        0 <= i <= ts.len(),
{
    let j = sp_skip(ts, i);
    if j >= ts.len() {
        Err(ParseError::UnexpectedToken(None))
    } else if ts[j].kind is Print {
        let j2 = sp_skip(ts, j + 1);
        match sp_expr(ts, j2) {
            Ok(ev) => Ok((StmtV::Print(ev.0), ev.1)),
            Err(e) => Err(e),
        }
    } else if ts[j].kind is Die {
        Ok((StmtV::Die, j + 1))
    } else {
        Err(ParseError::UnexpectedToken(Some(ts[j])))
    }
}

pub proof fn lemma_sp_stmt(ts: Seq<Token>, i: int)
    requires
        0 <= i <= ts.len(),
    ensures
        match sp_stmt(ts, i) {
            Ok(se) => i < se.1 <= ts.len(),
            Err(e) => true,
        },
{
    lemma_sp_skip(ts, i);
    let j = sp_skip(ts, i);
    if j < ts.len() && ts[j].kind is Print {
        lemma_sp_skip(ts, j + 1);
    }
}

/// A handler body: statements until the next non-trivia token is a closing
/// brace (or the stream ends, which the statement rule reports).
pub open spec fn sp_body(ts: Seq<Token>, i: int) -> Result<(Seq<StmtV>, int), ParseError>
    decreases ts.len() - i,
    when 0 <= i <= ts.len()
    via sp_body_dec
{
    let j = sp_skip(ts, i);
    if j < ts.len() && ts[j].kind is RCurlyBrace {
        Ok((Seq::empty(), j))
    } else {
        match sp_stmt(ts, i) {
            Err(e) => Err(e),
            Ok(se) => match sp_body(ts, se.1) {
                Err(e) => Err(e),
                Ok(be) => Ok((seq![se.0] + be.0, be.1)),
            },
        }
    }
}

#[via_fn]
proof fn sp_body_dec(ts: Seq<Token>, i: int) {
    if 0 <= i <= ts.len() {
        lemma_sp_skip(ts, i);
        lemma_sp_stmt(ts, i);
    }
}

pub proof fn lemma_sp_body(ts: Seq<Token>, i: int)
    requires
        0 <= i <= ts.len(),
    ensures
        match sp_body(ts, i) {
            Ok(be) => i <= be.1 <= ts.len(),
            Err(e) => true,
        },
    decreases ts.len() - i,
{
    lemma_sp_skip(ts, i);
    lemma_sp_stmt(ts, i);
    let j = sp_skip(ts, i);
    if j < ts.len() && ts[j].kind is RCurlyBrace {
    } else {
        match sp_stmt(ts, i) {
            Ok(se) => {
                lemma_sp_body(ts, se.1);
            },
            Err(e) => {},
        }
    }
}

/// One message handler: `on IDENT { stmt* }`. The produced handler carries
/// the event identifier token, so the tree records which event it answers.
pub open spec fn sp_handler(ts: Seq<Token>, i: int) -> Result<(HandlerV, int), ParseError>
    recommends
        0 <= i <= ts.len(),
{
    match sp_expect(ts, i, TokenKind::On) {
        Err(e) => Err(e),
        Ok(on_e) => match sp_expect(ts, on_e.1, TokenKind::Ident) {
            Err(e) => Err(e),
            Ok(id_e) => match sp_expect(ts, id_e.1, TokenKind::LCurlyBrace) {
                Err(e) => Err(e),
                Ok(lc_e) => match sp_body(ts, lc_e.1) {
                    Err(e) => Err(e),
                    Ok(be) => match sp_expect(ts, be.1, TokenKind::RCurlyBrace) {
                        Err(e) => Err(e),
                        Ok(rc_e) => Ok((HandlerV { on: id_e.0, body: be.0 }, rc_e.1)),
                    },
                },
            },
        },
    }
}

pub proof fn lemma_sp_handler(ts: Seq<Token>, i: int)
    requires
        0 <= i <= ts.len(),
    ensures
        match sp_handler(ts, i) {
            Ok(he) => i < he.1 <= ts.len(),
            Err(e) => true,
        },
{
    lemma_sp_expect(ts, i, TokenKind::On);
    match sp_expect(ts, i, TokenKind::On) {
        Ok(on_e) => {
            lemma_sp_expect(ts, on_e.1, TokenKind::Ident);
            match sp_expect(ts, on_e.1, TokenKind::Ident) {
                Ok(id_e) => {
                    lemma_sp_expect(ts, id_e.1, TokenKind::LCurlyBrace);
                    match sp_expect(ts, id_e.1, TokenKind::LCurlyBrace) {
                        Ok(lc_e) => {
                            lemma_sp_body(ts, lc_e.1);
                            match sp_body(ts, lc_e.1) {
                                Ok(be) => {
                                    lemma_sp_expect(ts, be.1, TokenKind::RCurlyBrace);
                                },
                                Err(_) => {},
                            }
                        },
                        Err(_) => {},
                    }
                },
                Err(_) => {},
            }
        },
        Err(_) => {},
    }
}

/// The run of message handlers inside an actor definition: handlers as long
/// as the next non-trivia token is `on`.
pub open spec fn sp_handlers(ts: Seq<Token>, i: int) -> Result<(Seq<HandlerV>, int), ParseError>
    decreases ts.len() - i,
    when 0 <= i <= ts.len()
    via sp_handlers_dec
{
    let j = sp_skip(ts, i);
    if j < ts.len() && ts[j].kind is On {
        match sp_handler(ts, j) {
            Err(e) => Err(e),
            Ok(he) => match sp_handlers(ts, he.1) {
                Err(e) => Err(e),
                Ok(hse) => Ok((seq![he.0] + hse.0, hse.1)),
            },
        }
    } else {
        Ok((Seq::empty(), j))
    }
}

#[via_fn]
proof fn sp_handlers_dec(ts: Seq<Token>, i: int) {
    if 0 <= i <= ts.len() {
        lemma_sp_skip(ts, i);
        lemma_sp_handler(ts, sp_skip(ts, i));
    }
}

pub proof fn lemma_sp_handlers(ts: Seq<Token>, i: int)
    requires
        0 <= i <= ts.len(),
    ensures
        match sp_handlers(ts, i) {
            Ok(hse) => i <= hse.1 <= ts.len(),
            Err(e) => true,
        },
    decreases ts.len() - i,
{
    lemma_sp_skip(ts, i);
    let j = sp_skip(ts, i);
    if j < ts.len() && ts[j].kind is On {
        lemma_sp_handler(ts, j);
        match sp_handler(ts, j) {
            Ok(he) => {
                lemma_sp_handlers(ts, he.1);
            },
            Err(_) => {},
        }
    }
}

/// One actor definition: `actor IDENT { message_handler* }`.
pub open spec fn sp_actor_def(ts: Seq<Token>, i: int) -> Result<(StmtV, int), ParseError>
    recommends
        0 <= i <= ts.len(),
{
    match sp_expect(ts, i, TokenKind::Actor) {
        Err(e) => Err(e),
        Ok(ac_e) => match sp_expect(ts, ac_e.1, TokenKind::Ident) {
            Err(e) => Err(e),
            Ok(name_e) => match sp_expect(ts, name_e.1, TokenKind::LCurlyBrace) {
                Err(e) => Err(e),
                Ok(lc_e) => match sp_handlers(ts, lc_e.1) {
                    Err(e) => Err(e),
                    Ok(hse) => match sp_expect(ts, hse.1, TokenKind::RCurlyBrace) {
                        Err(e) => Err(e),
                        Ok(rc_e) => Ok(
                            (
                                StmtV::ActorDef { name: name_e.0, message_handlers: hse.0 },
                                rc_e.1,
                            ),
                        ),
                    },
                },
            },
        },
    }
}

pub proof fn lemma_sp_actor_def(ts: Seq<Token>, i: int)
    requires
        0 <= i <= ts.len(),
    ensures
        match sp_actor_def(ts, i) {
            Ok(se) => i < se.1 <= ts.len(),
            Err(e) => true,
        },
{
    lemma_sp_expect(ts, i, TokenKind::Actor);
    match sp_expect(ts, i, TokenKind::Actor) {
        Ok(ac_e) => {
            lemma_sp_expect(ts, ac_e.1, TokenKind::Ident);
            match sp_expect(ts, ac_e.1, TokenKind::Ident) {
                Ok(name_e) => {
                    lemma_sp_expect(ts, name_e.1, TokenKind::LCurlyBrace);
                    match sp_expect(ts, name_e.1, TokenKind::LCurlyBrace) {
                        Ok(lc_e) => {
                            lemma_sp_handlers(ts, lc_e.1);
                            match sp_handlers(ts, lc_e.1) {
                                Ok(hse) => {
                                    lemma_sp_expect(ts, hse.1, TokenKind::RCurlyBrace);
                                },
                                Err(_) => {},
                            }
                        },
                        Err(_) => {},
                    }
                },
                Err(_) => {},
            }
        },
        Err(_) => {},
    }
}

/// The whole program: actor definitions until the stream is exhausted; any
/// other leading token is an unexpected-token error.
pub open spec fn sp_program(ts: Seq<Token>, i: int) -> Result<(Seq<StmtV>, int), ParseError>
    decreases ts.len() - i,
    when 0 <= i <= ts.len()
    via sp_program_dec
{
    let j = sp_skip(ts, i);
    if j >= ts.len() {
        Ok((Seq::empty(), j))
    } else if ts[j].kind is Actor {
        match sp_actor_def(ts, j) {
            Err(e) => Err(e),
            Ok(se) => match sp_program(ts, se.1) {
                Err(e) => Err(e),
                Ok(pe) => Ok((seq![se.0] + pe.0, pe.1)),
            },
        }
    } else {
        Err(ParseError::UnexpectedToken(Some(ts[j])))
    }
}

#[via_fn]
proof fn sp_program_dec(ts: Seq<Token>, i: int) {
    if 0 <= i <= ts.len() {
        lemma_sp_skip(ts, i);
        lemma_sp_actor_def(ts, sp_skip(ts, i));
    }
}

/// What a full parse of the token sequence yields: the program, or the
/// first error.
pub open spec fn sp_parse(ts: Seq<Token>) -> Result<Seq<StmtV>, ParseError> {
    match sp_program(ts, 0) {
        Ok(pe) => Ok(pe.0),
        Err(e) => Err(e),
    }
}

fn escape_lookup(c: char) -> (r: Option<char>)
    ensures
        r == escape_char(c),
{
    if c == '"' {
        Some('"')
    } else if c == 'n' {
        Some('\n')
    } else if c == 'r' {
        Some('\r')
    } else if c == 't' {
        Some('\t')
    } else if c == '\\' {
        Some('\\')
    } else {
        None
    }
}

/// Consumes tokens with one token of lookahead and builds the syntax tree.
/// A fresh `Parser` must be constructed per token sequence.
pub struct Parser<'a> {
    tokens: &'a [Token],
    pos: usize,
}

impl<'a> Parser<'a> {
    /// The token sequence being parsed.
    pub closed spec fn toks(self) -> Seq<Token> {
        self.tokens@
    }

    /// The current cursor into the token sequence.
    pub closed spec fn position(self) -> int {
        self.pos as int
    }

    pub closed spec fn wf(self) -> bool {
        self.pos <= self.tokens@.len()
    }

    pub fn new(tokens: &'a [Token]) -> (p: Parser<'a>)
        ensures
            p.wf(),
            p.toks() == tokens@,
            p.position() == 0,
    {
        Parser { tokens, pos: 0 }
    }

    fn skip_trivia(&mut self)
        requires
            old(self).wf(),
        ensures
            final(self).wf(),
            final(self).tokens == old(self).tokens,
            final(self).position() == sp_skip(old(self).toks(), old(self).position()),
    {
        while self.pos < self.tokens.len() && self.tokens[self.pos].kind.is_trivia()
            invariant
                self.wf(),
                self.tokens == old(self).tokens,
                old(self).position() <= self.position(),
                sp_skip(self.toks(), old(self).position()) == sp_skip(
                    self.toks(),
                    self.position(),
                ),
            decreases self.tokens@.len() - self.pos,
        {
            self.pos = self.pos + 1;
        }
    }

    fn peek_token(&mut self, kind: TokenKind) -> (r: bool)
        requires
            old(self).wf(),
        ensures
            final(self).wf(),
            final(self).tokens == old(self).tokens,
            final(self).position() == sp_skip(old(self).toks(), old(self).position()),
            r == (final(self).position() < old(self).toks().len() && old(self).toks()[final(self).position()].kind == kind),
    {
        self.skip_trivia();
        self.pos < self.tokens.len() && self.tokens[self.pos].kind == kind
    }

    fn expect_token(&mut self, kind: TokenKind) -> (r: Result<Token, ParseError>)
        requires
            old(self).wf(),
        ensures
            final(self).wf(),
            final(self).tokens == old(self).tokens,
            match sp_expect(old(self).toks(), old(self).position(), kind) {
                Ok(te) => r matches Ok(t) && t == te.0 && final(self).position() == te.1,
                Err(pe) => r matches Err(e) && e == pe,
            },
    {
        self.skip_trivia();
        if self.pos >= self.tokens.len() {
            Err(ParseError::ExpectedToken { expected: kind, found: None })
        } else {
            let t = self.tokens[self.pos].clone();
            if t.kind == kind {
                self.pos = self.pos + 1;
                Ok(t)
            } else {
                Err(ParseError::ExpectedToken { expected: kind, found: Some(t) })
            }
        }
    }

    /// Decodes the raw text of a string-literal token (quotes included) into
    /// the string it denotes, mapping escapes through the fixed table.
    #[verifier::loop_isolation(false)]
    pub fn parse_string_literal(&self, text: &str) -> (r: Result<String, ParseError>)
        ensures
            match spec_decode(text@) {
                Ok(d) => r matches Ok(out) && out@ == d,
                Err(pe) => r matches Err(e) && e == pe,
            },
    {
        let n = text.unicode_len();
        if n == 0 || text.get_char(0) != '"' {
            return Err(ParseError::InvalidStringLiteral);
        }
        let mut out = String::new();
        let mut i: usize = 1;
        proof {
            if decode_body(text@, 1) is Ok {
                assert(out@ + decode_body(text@, 1).unwrap() =~= decode_body(text@, 1).unwrap());
            }
        }
        while i < n
            invariant
                n == text@.len(),
                1 <= i <= n,
                match decode_body(text@, i as int) {
                    Ok(rest) => decode_body(text@, 1) == Ok::<Seq<char>, ParseError>(out@ + rest),
                    Err(pe) => decode_body(text@, 1) == Err::<Seq<char>, ParseError>(pe),
                },
            decreases n - i,
        {
            let c = text.get_char(i);
            if c == '"' {
                if i + 1 < n {
                    return Err(ParseError::InvalidStringLiteral);
                } else {
                    proof {
                        assert(out@ + Seq::<char>::empty() =~= out@);
                    }
                    return Ok(out);
                }
            } else if c == '\\' {
                if i + 1 >= n {
                    return Err(ParseError::InvalidEscapeSequence(None));
                }
                let e = text.get_char(i + 1);
                match escape_lookup(e) {
                    None => {
                        return Err(ParseError::InvalidEscapeSequence(Some(e)));
                    },
                    Some(d) => {
                        proof {
                            if decode_body(text@, i + 2) is Ok {
                                let rest = decode_body(text@, i + 2).unwrap();
                                assert(out@ + (seq![d] + rest) =~= out@.push(d) + rest);
                            }
                        }
                        out.push(d);
                        i = i + 2;
                    },
                }
            } else {
                proof {
                    if decode_body(text@, i + 1) is Ok {
                        let rest = decode_body(text@, i + 1).unwrap();
                        assert(out@ + (seq![c] + rest) =~= out@.push(c) + rest);
                    }
                }
                out.push(c);
                i = i + 1;
            }
        }
        proof {
            assert(out@ + Seq::<char>::empty() =~= out@);
        }
        Ok(out)
    }

    fn expr(&mut self) -> (r: Result<Expr, ParseError>)
        requires
            old(self).wf(),
        ensures
            final(self).wf(),
            final(self).tokens == old(self).tokens,
            match sp_expr(old(self).toks(), old(self).position()) {
                Ok(ee) => r matches Ok(ex) && expr_v(ex) == ee.0 && final(self).position() == ee.1,
                Err(pe) => r matches Err(e) && e == pe,
            },
    {
        if self.pos >= self.tokens.len() {
            return Err(ParseError::ExpectedExpression);
        }
        let t = self.tokens[self.pos].clone();
        match t.kind {
            TokenKind::String => {
                match self.parse_string_literal(&t.text) {
                    Ok(s) => {
                        self.pos = self.pos + 1;
                        Ok(Expr::Literal(Literal::String(s)))
                    },
                    Err(e) => Err(e),
                }
            },
            _ => Err(ParseError::UnexpectedToken(Some(t))),
        }
    }

    fn stmt(&mut self) -> (r: Result<Stmt, ParseError>)
        requires
            old(self).wf(),
        ensures
            final(self).wf(),
            final(self).tokens == old(self).tokens,
            match sp_stmt(old(self).toks(), old(self).position()) {
                Ok(se) => r matches Ok(st) && stmt_v(st) == se.0 && final(self).position() == se.1,
                Err(pe) => r matches Err(e) && e == pe,
            },
    {
        self.skip_trivia();
        proof {
            lemma_sp_skip(old(self).toks(), old(self).position());
        }
        if self.pos >= self.tokens.len() {
            return Err(ParseError::UnexpectedToken(None));
        }
        let k = self.tokens[self.pos].kind;
        match k {
            TokenKind::Print => {
                self.pos = self.pos + 1;
                self.skip_trivia();
                match self.expr() {
                    Ok(e) => Ok(Stmt::Print(e)),
                    Err(pe) => Err(pe),
                }
            },
            TokenKind::Die => {
                self.pos = self.pos + 1;
                Ok(Stmt::Die)
            },
            _ => Err(ParseError::UnexpectedToken(Some(self.tokens[self.pos].clone()))),
        }
    }

    #[verifier::loop_isolation(false)]
    fn message_handler(&mut self) -> (r: Result<MessageHandler, ParseError>)
        requires
            old(self).wf(),
        ensures
            final(self).wf(),
            final(self).tokens == old(self).tokens,
            match sp_handler(old(self).toks(), old(self).position()) {
                Ok(he) => r matches Ok(h) && handler_v(h) == he.0 && final(self).position()
                    == he.1,
                Err(pe) => r matches Err(e) && e == pe,
            },
    {
        let ghost ts = self.toks();
        match self.expect_token(TokenKind::On) {
            Ok(_) => (),
            Err(e) => {
                return Err(e);
            },
        };
        let on = match self.expect_token(TokenKind::Ident) {
            Ok(t) => t,
            Err(e) => {
                return Err(e);
            },
        };
        match self.expect_token(TokenKind::LCurlyBrace) {
            Ok(_) => (),
            Err(e) => {
                return Err(e);
            },
        };
        let ghost i3 = self.position();
        let mut body: Vec<Stmt> = Vec::new();
        let mut closed = false;
        while !closed
            invariant
                self.wf(),
                ts == self.toks(),
                !closed ==> match sp_body(ts, self.position()) {
                    Ok(be) => sp_body(ts, i3) == Ok::<_, ParseError>(
                        (stmts_v(body@) + be.0, be.1),
                    ),
                    Err(pe) => sp_body(ts, i3) == Err::<(Seq<StmtV>, int), _>(pe),
                },
                closed ==> sp_body(ts, i3) == Ok::<_, ParseError>(
                    (stmts_v(body@), self.position()),
                ),
            decreases ts.len() - self.position() + (if closed {
                0int
            } else {
                1int
            }),
        {
            let ghost p = self.position();
            let at_close = self.peek_token(TokenKind::RCurlyBrace);
            let ghost j = self.position();
            proof {
                lemma_sp_skip(ts, p);
                assert(sp_stmt(ts, p) == sp_stmt(ts, j));
                assert(sp_body(ts, p) == sp_body(ts, j));
            }
            if at_close {
                proof {
                    assert(stmts_v(body@) + Seq::<StmtV>::empty() =~= stmts_v(body@));
                }
                closed = true;
            } else {
                match self.stmt() {
                    Err(e) => {
                        return Err(e);
                    },
                    Ok(s) => {
                        proof {
                            lemma_sp_stmt(ts, j);
                            lemma_stmts_v_push(body@, s);
                            if sp_body(ts, sp_stmt(ts, j).unwrap().1) is Ok {
                                let be = sp_body(ts, sp_stmt(ts, j).unwrap().1).unwrap();
                                assert(stmts_v(body@) + (seq![stmt_v(s)] + be.0) =~= stmts_v(
                                    body@.push(s),
                                ) + be.0);
                            }
                        }
                        body.push(s);
                    },
                }
            }
        }
        match self.expect_token(TokenKind::RCurlyBrace) {
            Ok(_) => (),
            Err(e) => {
                return Err(e);
            },
        };
        Ok(MessageHandler { on, body })
    }

    #[verifier::loop_isolation(false)]
    fn actor_def(&mut self) -> (r: Result<Stmt, ParseError>)
        requires
            old(self).wf(),
        ensures
            final(self).wf(),
            final(self).tokens == old(self).tokens,
            match sp_actor_def(old(self).toks(), old(self).position()) {
                Ok(se) => r matches Ok(st) && stmt_v(st) == se.0 && final(self).position() == se.1,
                Err(pe) => r matches Err(e) && e == pe,
            },
    {
        let ghost ts = self.toks();
        match self.expect_token(TokenKind::Actor) {
            Ok(_) => (),
            Err(e) => {
                return Err(e);
            },
        };
        let name = match self.expect_token(TokenKind::Ident) {
            Ok(t) => t,
            Err(e) => {
                return Err(e);
            },
        };
        match self.expect_token(TokenKind::LCurlyBrace) {
            Ok(_) => (),
            Err(e) => {
                return Err(e);
            },
        };
        let ghost i3 = self.position();
        let mut message_handlers: Vec<MessageHandler> = Vec::new();
        let mut closed = false;
        while !closed
            invariant
                self.wf(),
                ts == self.toks(),
                !closed ==> match sp_handlers(ts, self.position()) {
                    Ok(hse) => sp_handlers(ts, i3) == Ok::<_, ParseError>(
                        (handlers_v(message_handlers@) + hse.0, hse.1),
                    ),
                    Err(pe) => sp_handlers(ts, i3) == Err::<(Seq<HandlerV>, int), _>(pe),
                },
                closed ==> sp_handlers(ts, i3) == Ok::<_, ParseError>(
                    (handlers_v(message_handlers@), self.position()),
                ),
            decreases ts.len() - self.position() + (if closed {
                0int
            } else {
                1int
            }),
        {
            let ghost p = self.position();
            let at_on = self.peek_token(TokenKind::On);
            let ghost j = self.position();
            proof {
                lemma_sp_skip(ts, p);
                assert(sp_handlers(ts, p) == sp_handlers(ts, j));
            }
            if !at_on {
                proof {
                    assert(handlers_v(message_handlers@) + Seq::<HandlerV>::empty()
                        =~= handlers_v(message_handlers@));
                }
                closed = true;
            } else {
                match self.message_handler() {
                    Err(e) => {
                        return Err(e);
                    },
                    Ok(h) => {
                        proof {
                            lemma_sp_handler(ts, j);
                            lemma_handlers_v_push(message_handlers@, h);
                            if sp_handlers(ts, sp_handler(ts, j).unwrap().1) is Ok {
                                let hse = sp_handlers(ts, sp_handler(ts, j).unwrap().1).unwrap();
                                assert(handlers_v(message_handlers@) + (seq![handler_v(h)] + hse.0)
                                    =~= handlers_v(message_handlers@.push(h)) + hse.0);
                            }
                        }
                        message_handlers.push(h);
                    },
                }
            }
        }
        match self.expect_token(TokenKind::RCurlyBrace) {
            Ok(_) => (),
            Err(e) => {
                return Err(e);
            },
        };
        Ok(Stmt::ActorDef { name, message_handlers })
    }

    /// Parses the whole token sequence into the program's top-level
    /// statements, or reports the first grammar violation.
    #[verifier::loop_isolation(false)]
    pub fn parse(&mut self) -> (r: Result<Vec<Stmt>, ParseError>)
        requires
            old(self).wf(),
        ensures
            final(self).wf(),
            final(self).toks() == old(self).toks(),
            match sp_program(old(self).toks(), old(self).position()) {
                Ok(pe) => r matches Ok(out) && stmts_v(out@) == pe.0 && final(self).position()
                    == pe.1,
                Err(pe) => r matches Err(e) && e == pe,
            },
            old(self).position() == 0 ==> match sp_parse(old(self).toks()) {
                Ok(ss) => r matches Ok(out) && stmts_v(out@) == ss,
                Err(pe) => r matches Err(e) && e == pe,
            },
    {
        let ghost ts = self.toks();
        let ghost i0 = self.position();
        let mut stmts: Vec<Stmt> = Vec::new();
        let mut done = false;
        while !done
            invariant
                self.wf(),
                ts == self.toks(),
                !done ==> match sp_program(ts, self.position()) {
                    Ok(pe) => sp_program(ts, i0) == Ok::<_, ParseError>(
                        (stmts_v(stmts@) + pe.0, pe.1),
                    ),
                    Err(pe) => sp_program(ts, i0) == Err::<(Seq<StmtV>, int), _>(pe),
                },
                done ==> sp_program(ts, i0) == Ok::<_, ParseError>(
                    (stmts_v(stmts@), self.position()),
                ),
            decreases ts.len() - self.position() + (if done {
                0int
            } else {
                1int
            }),
        {
            let ghost p = self.position();
            self.skip_trivia();
            let ghost j = self.position();
            proof {
                lemma_sp_skip(ts, p);
                assert(sp_program(ts, p) == sp_program(ts, j));
            }
            if self.pos >= self.tokens.len() {
                proof {
                    assert(stmts_v(stmts@) + Seq::<StmtV>::empty() =~= stmts_v(stmts@));
                }
                done = true;
            } else if self.tokens[self.pos].kind == TokenKind::Actor {
                match self.actor_def() {
                    Err(e) => {
                        return Err(e);
                    },
                    Ok(s) => {
                        proof {
                            lemma_sp_actor_def(ts, j);
                            lemma_stmts_v_push(stmts@, s);
                            if sp_program(ts, sp_actor_def(ts, j).unwrap().1) is Ok {
                                let pe = sp_program(ts, sp_actor_def(ts, j).unwrap().1).unwrap();
                                assert(stmts_v(stmts@) + (seq![stmt_v(s)] + pe.0) =~= stmts_v(
                                    stmts@.push(s),
                                ) + pe.0);
                            }
                        }
                        stmts.push(s);
                    },
                }
            } else {
                return Err(ParseError::UnexpectedToken(Some(self.tokens[self.pos].clone())));
            }
        }
        Ok(stmts)
    }
}

/// Trivia in, empty program out: tokens produced from a source of
/// whitespace and comments alone are all trivia, and parsing them yields
/// the empty program.
pub proof fn lemma_trivia_pipeline(
    toks: Seq<Token>,
    s: Seq<char>,
    sts: Seq<(TokenKind, int, int)>,
)
    requires
        crate::lexer::trivia_from(s, 0),
        crate::lexer::spec_tokenize_from(s, 0) == Some(sts),
        crate::lexer::tokens_match(toks, s, sts),
    ensures
        sp_parse(toks) == Ok::<Seq<StmtV>, ParseError>(Seq::<StmtV>::empty()),
{
    crate::lexer::lemma_trivia_source_tokenizes_trivia(s, 0);
    assert(crate::lexer::spec_tokenize_from(s, 0).unwrap() == sts);
    assert forall|k: int| 0 <= k < toks.len() implies (#[trigger] toks[k]).kind.spec_is_trivia() by {
        assert(toks[k].fits(s, sts[k].0, sts[k].1, sts[k].2));
        assert(crate::lexer::spec_tokenize_from(s, 0).unwrap()[k].0.spec_is_trivia());
    };
    lemma_trivia_parses_empty(toks);
}

/// A token sequence of trivia alone parses to the empty program.
pub proof fn lemma_trivia_parses_empty(ts: Seq<Token>)
    requires
        forall|k: int| 0 <= k < ts.len() ==> (#[trigger] ts[k]).kind.spec_is_trivia(),
    ensures
        sp_parse(ts) == Ok::<Seq<StmtV>, ParseError>(Seq::<StmtV>::empty()),
{
    lemma_sp_skip(ts, 0);
    assert(sp_skip(ts, 0) == ts.len());
}

} // verus!

