//! The tree that the interpreter evaluates.
use vstd::prelude::*;

use crate::error::Span;
use crate::ir::{BinOp, Ty, UnOp};
use crate::value::ConstLit;

verus! {

/// A symbol of a function.
#[derive(Clone, Copy, Debug, PartialEq, Eq, PartialOrd, Ord, Hash, Structural)]
pub struct SymId(pub u32);

/// What a symbol stands for.
#[derive(Clone, Copy, Debug, PartialEq, Eq, Structural)]
pub enum SymKind {
    Const,
    Param,
    Local,
    LoopVar,
}

/// A symbol: its name, what it stands for, and its type.
#[derive(Debug)]
pub struct Symbol {
    pub name: String,
    pub kind: SymKind,
    pub ty: Ty,
}

/// The functions that are always there.
#[derive(Clone, Copy, Debug, PartialEq, Eq, Structural)]
pub enum Builtin {
    Print,
    Zeros,
    Len,
    Sqrt,
    Abs,
    Min,
    Max,
}

/// Statements in order.
#[derive(Debug)]
pub struct EBlock {
    pub stmts: Vec<EStmt>,
}

/// A statement.
#[allow(inconsistent_fields)]
#[derive(Debug)]
pub enum EStmt {
    /// Binds a symbol in the current scope.
    Let { sym: SymId, init: EExpr },
    /// Assigns a variable, or an element where there is an index.
    Assign { base: SymId, index: Option<Box<EExpr>>, value: EExpr, span: Span },
    If { cond: EExpr, then_blk: EBlock, else_arm: Option<EElse> },
    /// Runs the body for every integer from `start` up to, but without, `end`.
    For { iv: SymId, start: Box<EExpr>, end: Box<EExpr>, body: EBlock, span: Span },
    Return { value: Option<EExpr>, span: Span },
    /// Evaluates for effects only.
    Effect(EExpr),
    /// Statements in a scope of their own.
    Nested(EBlock),
}

/// The other side of an `if`.
#[derive(Debug)]
pub enum EElse {
    If(Box<EIf>),
    Block(EBlock),
}

/// A condition with its sides.
#[derive(Debug)]
pub struct EIf {
    pub cond: EExpr,
    pub then_blk: EBlock,
    pub else_arm: Option<EElse>,
}

/// An expression with its type and place.
#[derive(Debug)]
pub struct EExpr {
    pub ty: Ty,
    pub span: Span,
    pub kind: EExprKind,
}

/// Shapes of expressions. Floating-point literals are held as their bits.
#[derive(Debug)]
pub enum EExprKind {
    IntLit(i64),
    FloatLit(u64),
    BoolLit(bool),
    Var(SymId),
    /// A whole array, by reference.
    ArrayRef(SymId),
    Unary(UnOp, Box<EExpr>),
    Bin(BinOp, Box<EExpr>, Box<EExpr>),
    Index(SymId, Box<EExpr>),
    Call(ETarget),
    Cast(Box<EExpr>, Ty),
}

/// What is called, with its arguments.
#[allow(inconsistent_fields)]
#[derive(Debug)]
pub enum ETarget {
    Builtin(Builtin, Vec<EExpr>),
    /// A function of the program, by its position.
    User { idx: u32, args: Vec<EExpr> },
}

/// A constant of the program.
#[derive(Debug)]
pub struct TypedConstDef {
    pub sym: SymId,
    pub name: String,
    pub ty: Ty,
    pub value: ConstLit,
}

/// A function that is ready to run.
#[derive(Debug)]
pub struct AdaptedFn {
    pub idx: u32,
    pub name: String,
    pub params: Vec<(SymId, Ty)>,
    pub ret: Ty,
    pub body: EBlock,
    pub symbols: Vec<Symbol>,
}

/// A program that is ready to run.
#[derive(Debug)]
pub struct AdaptedProgram {
    pub funcs: Vec<AdaptedFn>,
    pub consts: Vec<TypedConstDef>,
}

} // verus!
