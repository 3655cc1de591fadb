//! The syntax tree built by the parser, together with its mathematical model.
//!
//! The executable types (`Stmt`, `MessageHandler`, `Expr`, `Literal`) hold
//! `Vec` and `String`; the model types (`StmtV`, `HandlerV`, `ExprV`,
//! `LiteralV`) mirror them over `Seq`, so that contracts can speak of trees
//! as mathematical values. `Block`, bare `Expr`, `Assign`, and the non-string
//! literal arms are reserved shapes: the current grammar never produces them.

use vstd::prelude::*;

use crate::token::Token;

verus! {

/// A statement of the language. The grammar currently produces only
/// `ActorDef` (at top level), and `Print` and `Die` (inside handler bodies).
#[derive(Debug, PartialEq)]
pub enum Stmt {
    ActorDef { name: Token, message_handlers: Vec<MessageHandler> },
    Die,
    Block(Vec<Stmt>),
    Expr(Expr),
    Print(Expr),
    Assign { name: Token, value: Expr },
}

/// A named reaction block `on <event> { ... }` inside an actor definition.
/// `on` is the triggering event's identifier token, carrying its text and
/// span.
#[derive(Debug, PartialEq)]
pub struct MessageHandler {
    pub on: Token,
    pub body: Vec<Stmt>,
}

#[derive(Debug, PartialEq)]
pub enum Expr {
    Literal(Literal),
}

/// A literal value. `Float` holds the IEEE 754 bit pattern of the value, as
/// plain bits; only `String` is ever constructed by the current grammar.
#[derive(Debug, PartialEq)]
pub enum Literal {
    String(String),
    Int(i64),
    Float(u64),
    Boolean(bool),
}

/// Model of `Stmt` over `Seq`.
pub enum StmtV {
    ActorDef { name: Token, message_handlers: Seq<HandlerV> },
    Die,
    Block(Seq<StmtV>),
    Expr(ExprV),
    Print(ExprV),
    Assign { name: Token, value: ExprV },
}

/// Model of `MessageHandler`.
pub struct HandlerV {
    pub on: Token,
    pub body: Seq<StmtV>,
}

/// Model of `Expr`.
pub enum ExprV {
    Literal(LiteralV),
}

/// Model of `Literal`; the string arm is a sequence of characters.
pub enum LiteralV {
    Str(Seq<char>),
    Int(i64),
    Float(u64),
    Boolean(bool),
}

pub open spec fn literal_v(l: Literal) -> LiteralV {
    match l {
        Literal::String(s) => LiteralV::Str(s@),
        Literal::Int(i) => LiteralV::Int(i),
        Literal::Float(f) => LiteralV::Float(f),
        Literal::Boolean(b) => LiteralV::Boolean(b),
    }
}

pub open spec fn expr_v(e: Expr) -> ExprV {
    match e {
        Expr::Literal(l) => ExprV::Literal(literal_v(l)),
    }
}

pub open spec fn stmt_v(s: Stmt) -> StmtV
    decreases s,
{
    match s {
        Stmt::ActorDef { name, message_handlers } => StmtV::ActorDef {
            name,
            message_handlers: handlers_v(message_handlers@),
        },
        Stmt::Die => StmtV::Die,
        Stmt::Block(body) => StmtV::Block(stmts_v(body@)),
        Stmt::Expr(e) => StmtV::Expr(expr_v(e)),
        Stmt::Print(e) => StmtV::Print(expr_v(e)),
        Stmt::Assign { name, value } => StmtV::Assign { name, value: expr_v(value) },
    }
}

pub open spec fn stmts_v(ss: Seq<Stmt>) -> Seq<StmtV>
    decreases ss,
{
    if ss.len() == 0 {
        Seq::empty()
    } else {
        stmts_v(ss.drop_last()).push(stmt_v(ss.last()))
    }
}

pub open spec fn handler_v(h: MessageHandler) -> HandlerV
    decreases h,
{
    HandlerV { on: h.on, body: stmts_v(h.body@) }
}

pub open spec fn handlers_v(hs: Seq<MessageHandler>) -> Seq<HandlerV>
    decreases hs,
{
    if hs.len() == 0 {
        Seq::empty()
    } else {
        handlers_v(hs.drop_last()).push(handler_v(hs.last()))
    }
}

/// Pushing a statement onto a vector pushes its model onto the model sequence.
pub proof fn lemma_stmts_v_push(ss: Seq<Stmt>, s: Stmt)
    ensures
        stmts_v(ss.push(s)) == stmts_v(ss).push(stmt_v(s)),
{
    assert(ss.push(s).drop_last() =~= ss);
    assert(ss.push(s).last() == s);
}

/// Pushing a handler onto a vector pushes its model onto the model sequence.
pub proof fn lemma_handlers_v_push(hs: Seq<MessageHandler>, h: MessageHandler)
    ensures
        handlers_v(hs.push(h)) == handlers_v(hs).push(handler_v(h)),
{
    assert(hs.push(h).drop_last() =~= hs);
    assert(hs.push(h).last() == h);
}

} // verus!
