//! Syntax trees and what the checker found out about them.
use vstd::prelude::*;

use crate::error::Span;
use crate::ir::{BinOp, ElemTy, Ty, UnOp};
use crate::tree::{SymId, Symbol, TypedConstDef};

verus! {

/// A name in the source.
#[derive(Debug)]
pub struct Ident {
    pub name: String,
    pub span: Span,
}

/// A type as it is written.
#[derive(Clone, Copy, Debug, PartialEq, Eq, Structural)]
pub enum SynType {
    I32,
    I64,
    F32,
    F64,
    Bool,
    Array(ElemTy),
    Unit,
}

/// An expression as it is written. Floating-point literals are held as their bits.
#[allow(inconsistent_fields)]
#[derive(Debug)]
pub enum Expr {
    IntLit(i64, Span),
    FloatLit(u64, Span),
    Bool(bool, Span),
    Var(Ident),
    Unary(UnOp, Box<Expr>, Span),
    Bin(BinOp, Box<Expr>, Box<Expr>, Span),
    Index(Ident, Box<Expr>, Span),
    Cast(Box<Expr>, SynType, Span),
    Call { callee: Ident, args: Vec<Expr>, span: Span },
}

/// What is assigned: a variable, or an element of an array.
#[derive(Debug)]
pub struct Target {
    pub base: Ident,
    pub index: Option<Box<Expr>>,
    pub span: Span,
}

/// Statements between braces.
#[derive(Debug)]
pub struct Block {
    pub stmts: Vec<Stmt>,
}

/// What follows `else`.
#[derive(Debug)]
pub enum ElsePart {
    If(Box<Stmt>),
    Block(Block),
}

/// A statement as it is written.
#[allow(inconsistent_fields)]
#[derive(Debug)]
pub enum Stmt {
    Let { name: Ident, ty: Option<SynType>, init: Expr },
    Assign { target: Target, value: Expr },
    If { cond: Expr, then_blk: Block, else_part: Option<Box<ElsePart>> },
    For { iv: Ident, start: Expr, end: Expr, body: Block },
    Return { value: Option<Expr>, span: Span },
    Expr(Expr),
    Empty,
    Block(Block),
}

/// A function as it is written.
#[derive(Debug)]
pub struct FnDef {
    pub name: Ident,
    pub body: Block,
}

/// An item of a program.
#[derive(Debug)]
pub enum Item {
    Fn(FnDef),
    /// A constant; what matters of it stands in the checked program.
    Const(Ident),
}

/// A program as it is written.
#[derive(Debug)]
pub struct Program {
    pub items: Vec<Item>,
}

/// A checked function: its parameters, what it returns and its symbols, in the order in
/// which they are declared.
#[derive(Debug)]
pub struct TypedFnDef {
    pub name: String,
    pub params: Vec<(SymId, Ty)>,
    pub ret: Ty,
    pub symbols: Vec<Symbol>,
}

/// A checked program.
#[derive(Debug)]
pub struct TypedProgram {
    pub funcs: Vec<TypedFnDef>,
    pub consts: Vec<TypedConstDef>,
}

} // verus!
