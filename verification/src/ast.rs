//! The statement tree the core consumes.
//!
//! The front end (outside the core) resolves identifier text to dense ids
//! before anything reaches these types.  A statement is a bare execution or
//! an assignment; an execution is a single expression or a call, whose
//! second position is always the message name; an expression is an
//! identifier, a literal, or a block of statements.  Float literals carry
//! the double's raw bit pattern.

use vstd::prelude::*;

verus! {

/// A byte range in the source text, kept for diagnostics.
#[derive(Clone, Copy, Debug, PartialEq, Eq, Structural)]
pub struct Span {
    pub start: usize,
    pub end: usize,
}

/// An identifier, pre-resolved to its id.
#[derive(Clone, Copy, Debug, PartialEq, Eq, Structural)]
pub struct Ident {
    pub id: u64,
    pub span: Span,
}

#[derive(Clone, Debug)]
pub enum Literal {
    Int(i32),
    /// A double, by its raw bit pattern.
    Float(u64),
    Bool(bool),
    Nil,
    Str(Vec<u8>),
}

#[derive(Debug)]
pub enum Expr {
    Ident(Ident),
    Lit(Literal),
    Block(Vec<Stmt>),
}

#[derive(Debug)]
pub enum Execution {
    Single(Expr),
    /// Receiver, message, arguments.
    Called(Expr, Expr, Vec<Expr>),
}

#[derive(Debug)]
pub enum Stmt {
    Exe(Execution),
    Assignment { dst: Ident, rhs: Execution },
}

} // verus!
