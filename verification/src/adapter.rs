//! From syntax and checked declarations to the tree that is evaluated.
//!
//! The checker numbers symbols in the order in which it meets their declarations. The
//! same walk over the syntax meets them in the same order: every declaration claims the
//! next symbol that fits it. Scopes open and close as they did for the checker, so that
//! names resolve to the same symbols.
//!
//! Where syntax and declarations do not belong together, there is no tree.
use vstd::prelude::*;

use crate::ast::{
    Block, ElsePart, Expr, FnDef, Item, Program, Stmt, SynType, TypedFnDef, TypedProgram,
};
use crate::error::Span;
use crate::ir::{BinOp, ElemTy, Ty};
use crate::text::is_text;
use crate::tree::{
    AdaptedFn, AdaptedProgram, Builtin, EBlock, EElse, EExpr, EExprKind, EIf, EStmt, ETarget,
    SymId, SymKind, Symbol, TypedConstDef,
};

verus! {

// ---------------------------------------------------------------------------
// Types
// ---------------------------------------------------------------------------

/// What a written type means.
pub open spec fn meaning(t: SynType) -> Ty {
    match t {
        SynType::I32 => Ty::I32,
        SynType::I64 => Ty::I64,
        SynType::F32 => Ty::F32,
        SynType::F64 => Ty::F64,
        SynType::Bool => Ty::Bool,
        SynType::Array(e) => Ty::Array(e),
        SynType::Unit => Ty::Unit,
    }
}

/// What a written type means.
pub fn ann_ty(t: &SynType) -> (r: Ty)
    ensures
        r == meaning(*t),
{
    match *t {
        SynType::I32 => Ty::I32,
        SynType::I64 => Ty::I64,
        SynType::F32 => Ty::F32,
        SynType::F64 => Ty::F64,
        SynType::Bool => Ty::Bool,
        SynType::Array(e) => Ty::Array(e),
        SynType::Unit => Ty::Unit,
    }
}

/// The type that a cast converts to; only numbers can be converted.
pub open spec fn cast_to(t: SynType) -> Option<Ty> {
    match t {
        SynType::I32 => Some(Ty::I32),
        SynType::I64 => Some(Ty::I64),
        SynType::F32 => Some(Ty::F32),
        SynType::F64 => Some(Ty::F64),
        _ => None,
    }
}

/// The type that a cast converts to.
fn cast_target(t: &SynType) -> (r: Option<Ty>)
    ensures
        r == cast_to(*t),
{
    match *t {
        SynType::I32 => Some(Ty::I32),
        SynType::I64 => Some(Ty::I64),
        SynType::F32 => Some(Ty::F32),
        SynType::F64 => Some(Ty::F64),
        _ => None,
    }
}

/// The type of an element.
pub open spec fn scalar_of(e: ElemTy) -> Ty {
    match e {
        ElemTy::I32 => Ty::I32,
        ElemTy::I64 => Ty::I64,
        ElemTy::F32 => Ty::F32,
        ElemTy::F64 => Ty::F64,
        ElemTy::Bool => Ty::Bool,
    }
}

/// The type of an element.
pub fn elem_scalar_ty(e: ElemTy) -> (r: Ty)
    ensures
        r == scalar_of(e),
{
    match e {
        ElemTy::I32 => Ty::I32,
        ElemTy::I64 => Ty::I64,
        ElemTy::F32 => Ty::F32,
        ElemTy::F64 => Ty::F64,
        ElemTy::Bool => Ty::Bool,
    }
}

/// The function that is always there under the name.
pub open spec fn builtin_of(name: Seq<char>) -> Option<Builtin> {
    if name == "print"@ {
        Some(Builtin::Print)
    } else if name == "zeros"@ {
        Some(Builtin::Zeros)
    } else if name == "len"@ {
        Some(Builtin::Len)
    } else if name == "sqrt"@ {
        Some(Builtin::Sqrt)
    } else if name == "abs"@ {
        Some(Builtin::Abs)
    } else if name == "min"@ {
        Some(Builtin::Min)
    } else if name == "max"@ {
        Some(Builtin::Max)
    } else {
        None
    }
}

impl Builtin {
    /// The function that is always there under the name.
    pub fn from_name(name: &String) -> (r: Option<Builtin>)
        ensures
            r == builtin_of(name@),
    {
        if is_text(name, "print") {
            Some(Builtin::Print)
        } else if is_text(name, "zeros") {
            Some(Builtin::Zeros)
        } else if is_text(name, "len") {
            Some(Builtin::Len)
        } else if is_text(name, "sqrt") {
            Some(Builtin::Sqrt)
        } else if is_text(name, "abs") {
            Some(Builtin::Abs)
        } else if is_text(name, "min") {
            Some(Builtin::Min)
        } else if is_text(name, "max") {
            Some(Builtin::Max)
        } else {
            None
        }
    }
}

// ---------------------------------------------------------------------------
// Names
// ---------------------------------------------------------------------------

/// The names of a scope; a later one hides an earlier one.
pub type ScopeV = Seq<(Seq<char>, SymId)>;

/// What is declared at a point of the walk.
#[verifier::ext_equal]
pub struct Here {
    /// Scopes, the innermost last.
    pub scopes: Seq<ScopeV>,
    /// The first symbol that nothing has claimed.
    pub next: u32,
}

/// The function that is walked, and all functions.
pub struct Cx {
    pub cur: TypedFnDef,
    pub funcs: Seq<TypedFnDef>,
}

/// The symbol of a name among the first `k` of a scope: the last one.
pub open spec fn in_scope(s: ScopeV, name: Seq<char>, k: nat) -> Option<SymId>
    decreases k,
{
    if k == 0 {
        None
    } else if s[k - 1].0 == name {
        Some(s[k - 1].1)
    } else {
        in_scope(s, name, (k - 1) as nat)
    }
}

/// The symbol of a name in the first `k` scopes: that of the innermost.
pub open spec fn resolved(scopes: Seq<ScopeV>, name: Seq<char>, k: nat) -> Option<SymId>
    decreases k,
{
    if k == 0 {
        None
    } else {
        match in_scope(scopes[k - 1], name, scopes[k - 1].len()) {
            Some(id) => Some(id),
            None => resolved(scopes, name, (k - 1) as nat),
        }
    }
}

impl Here {
    /// The symbol of a name.
    pub open spec fn resolve(self, name: Seq<char>) -> Option<SymId> {
        resolved(self.scopes, name, self.scopes.len())
    }

    /// Enters a scope.
    pub open spec fn push(self) -> Here {
        Here { scopes: self.scopes.push(seq![]), ..self }
    }

    /// Leaves the innermost scope.
    pub open spec fn pop(self) -> Here {
        if self.scopes.len() == 0 {
            self
        } else {
            Here { scopes: self.scopes.drop_last(), ..self }
        }
    }

    /// Declares a name in the innermost scope; its symbol is claimed.
    pub open spec fn bind(self, name: Seq<char>, id: SymId) -> Here {
        let k = self.scopes.len() - 1;
        let next = if self.next > id.0 {
            self.next
        } else {
            (id.0 + 1) as u32
        };
        if k < 0 {
            Here { next, ..self }
        } else {
            Here { scopes: self.scopes.update(k, self.scopes[k].push((name, id))), next }
        }
    }
}

impl Cx {
    /// The type of a symbol.
    pub open spec fn ty_of(self, id: SymId) -> Option<Ty> {
        if (id.0 as int) < self.cur.symbols@.len() {
            Some(self.cur.symbols@[id.0 as int].ty)
        } else {
            None
        }
    }

    /// The first symbol from number `i` on that is of the kind, has the name and, where
    /// one is asked for, the type.
    pub open spec fn claim(self, i: nat, kind: SymKind, name: Seq<char>, ty: Option<Ty>) -> Option<
        SymId,
    >
        decreases self.cur.symbols@.len() - i,
    {
        if i >= self.cur.symbols@.len() {
            None
        } else {
            let s = self.cur.symbols@[i as int];
            if s.kind == kind && s.name@ == name && (ty is None || ty == Some(s.ty)) {
                Some(SymId(i as u32))
            } else {
                self.claim(i + 1, kind, name, ty)
            }
        }
    }

    /// The function of a name among the first `k`: the last one.
    pub open spec fn callee(self, name: Seq<char>, k: nat) -> Option<int>
        decreases k,
    {
        if k == 0 {
            None
        } else if self.funcs[k - 1].name@ == name {
            Some(k - 1)
        } else {
            self.callee(name, (k - 1) as nat)
        }
    }
}

// ---------------------------------------------------------------------------
// Expressions
// ---------------------------------------------------------------------------

/// The operator computes a number of the type of its operands.
pub open spec fn is_arithmetic(op: BinOp) -> bool {
    match op {
        BinOp::Add => true,
        BinOp::Sub => true,
        BinOp::Mul => true,
        BinOp::Div => true,
        BinOp::Rem => true,
        _ => false,
    }
}

/// A floating-point type.
pub open spec fn floats_in(t: Ty) -> bool {
    t == Ty::F32 || t == Ty::F64
}

/// The type that an expression gets where `want` is expected, if it fits.
pub open spec fn expr_type(cx: Cx, h: Here, e: Expr, want: Option<Ty>) -> Option<Ty>
    decreases e, 0nat,
{
    match e {
        Expr::IntLit(_, _) => Some(
            if want == Some(Ty::I32) {
                Ty::I32
            } else {
                Ty::I64
            },
        ),
        Expr::FloatLit(_, _) => Some(
            if want == Some(Ty::F32) {
                Ty::F32
            } else {
                Ty::F64
            },
        ),
        Expr::Bool(_, _) => Some(Ty::Bool),
        Expr::Var(id) => match h.resolve(id.name@) {
            Some(s) => cx.ty_of(s),
            None => None,
        },
        Expr::Unary(_, o, _) => expr_type(cx, h, *o, None),
        Expr::Bin(op, l, r, _) => match expr_type(cx, h, *l, None) {
            Some(t) => match expr_type(cx, h, *r, Some(operand_type(op, t))) {
                Some(_) => Some(
                    if is_arithmetic(op) {
                        t
                    } else {
                        Ty::Bool
                    },
                ),
                None => None,
            },
            None => None,
        },
        Expr::Index(base, idx, _) => match h.resolve(base.name@) {
            Some(s) => match cx.ty_of(s) {
                Some(Ty::Array(el)) => match expr_type(cx, h, *idx, Some(Ty::I64)) {
                    Some(_) => Some(scalar_of(el)),
                    None => None,
                },
                _ => None,
            },
            None => None,
        },
        Expr::Cast(o, to, _) => match expr_type(cx, h, *o, None) {
            Some(_) => cast_to(to),
            None => None,
        },
        Expr::Call { callee, args, .. } => match builtin_of(callee.name@) {
            Some(b) => builtin_type(cx, h, b, args@, want),
            None => match cx.callee(callee.name@, cx.funcs.len()) {
                Some(i) => if cx.funcs[i].params@.len() == args@.len() && args_fit(
                    cx,
                    h,
                    args@,
                    cx.funcs[i].params@,
                    args@.len(),
                ) {
                    Some(cx.funcs[i].ret)
                } else {
                    None
                },
                None => None,
            },
        },
    }
}

/// The type that the right operand is expected to have.
pub open spec fn operand_type(op: BinOp, left: Ty) -> Ty {
    if op == BinOp::And || op == BinOp::Or {
        Ty::Bool
    } else {
        left
    }
}

/// The type that a call of a function that is always there gets.
pub open spec fn builtin_type(cx: Cx, h: Here, b: Builtin, args: Seq<Expr>, want: Option<Ty>) -> Option<
    Ty,
>
    decreases args, 1nat,
{
    match b {
        Builtin::Print => if args.len() == 1 && expr_type(cx, h, args[0], None) is Some {
            Some(Ty::Unit)
        } else {
            None
        },
        Builtin::Zeros => match want {
            Some(Ty::Array(el)) => if args.len() == 1 && expr_type(
                cx,
                h,
                args[0],
                Some(Ty::I64),
            ) is Some {
                Some(Ty::Array(el))
            } else {
                None
            },
            _ => None,
        },
        Builtin::Len => if args.len() == 1 && array_named(cx, h, args[0]) is Some {
            Some(Ty::I64)
        } else {
            None
        },
        Builtin::Abs => if args.len() == 1 {
            expr_type(cx, h, args[0], None)
        } else {
            None
        },
        Builtin::Sqrt => if args.len() == 1 {
            match expr_type(cx, h, args[0], None) {
                Some(t) => if floats_in(t) {
                    Some(t)
                } else {
                    None
                },
                None => None,
            }
        } else {
            None
        },
        Builtin::Min => pair_type(cx, h, args),
        Builtin::Max => pair_type(cx, h, args),
    }
}

/// The type of two operands that have to agree.
pub open spec fn pair_type(cx: Cx, h: Here, args: Seq<Expr>) -> Option<Ty>
    decreases args, 0nat,
{
    if args.len() == 2 {
        match expr_type(cx, h, args[0], None) {
            Some(t) => if expr_type(cx, h, args[1], Some(t)) == Some(t) {
                Some(t)
            } else {
                None
            },
            None => None,
        }
    } else {
        None
    }
}

/// The array that an expression names, with its type.
pub open spec fn array_named(cx: Cx, h: Here, e: Expr) -> Option<(SymId, Ty)> {
    match e {
        Expr::Var(id) => match h.resolve(id.name@) {
            Some(s) => match cx.ty_of(s) {
                Some(Ty::Array(el)) => Some((s, Ty::Array(el))),
                _ => None,
            },
            None => None,
        },
        _ => None,
    }
}

/// An argument fits a parameter of type `want`: an array by its name and with exactly
/// that type, anything else where that type is expected.
pub open spec fn arg_fits(cx: Cx, h: Here, a: Expr, want: Ty) -> bool
    decreases a, 1nat,
{
    match array_named(cx, h, a) {
        Some((_, t)) => t == want,
        None => expr_type(cx, h, a, Some(want)) is Some,
    }
}

/// The first `k` arguments fit their parameters.
pub open spec fn args_fit(
    cx: Cx,
    h: Here,
    args: Seq<Expr>,
    params: Seq<(SymId, Ty)>,
    k: nat,
) -> bool
    decreases args, k,
{
    if k == 0 || k > args.len() {
        true
    } else {
        args_fit(cx, h, args, params, (k - 1) as nat) && arg_fits(
            cx,
            h,
            args[k - 1],
            params[k - 1].1,
        )
    }
}

/// Where an expression stands.
pub open spec fn place_of(e: Expr) -> Span {
    match e {
        Expr::IntLit(_, s) => s,
        Expr::FloatLit(_, s) => s,
        Expr::Bool(_, s) => s,
        Expr::Var(id) => id.span,
        Expr::Unary(_, _, s) => s,
        Expr::Bin(_, _, _, s) => s,
        Expr::Index(_, _, s) => s,
        Expr::Cast(_, _, s) => s,
        Expr::Call { span, .. } => span,
    }
}

/// `out` is the tree of the expression.
pub open spec fn expr_is(cx: Cx, h: Here, e: Expr, want: Option<Ty>, out: EExpr) -> bool
    decreases e, 0nat,
{
    &&& Some(out.ty) == expr_type(cx, h, e, want)
    &&& out.span == place_of(e)
    &&& match e {
        Expr::IntLit(v, _) => out.kind == EExprKind::IntLit(v),
        Expr::FloatLit(b, _) => out.kind == EExprKind::FloatLit(b),
        Expr::Bool(b, _) => out.kind == EExprKind::BoolLit(b),
        Expr::Var(id) => out.kind matches EExprKind::Var(s) && h.resolve(id.name@) == Some(s),
        Expr::Unary(op, o, _) => out.kind matches EExprKind::Unary(op2, o2) && op2 == op
            && expr_is(cx, h, *o, None, *o2),
        Expr::Bin(op, l, r, _) => out.kind matches EExprKind::Bin(op2, l2, r2) && op2 == op
            && expr_is(cx, h, *l, None, *l2) && expr_is(
            cx,
            h,
            *r,
            Some(operand_type(op, l2.ty)),
            *r2,
        ),
        Expr::Index(base, idx, _) => out.kind matches EExprKind::Index(s, i2) && h.resolve(
            base.name@,
        ) == Some(s) && expr_is(cx, h, *idx, Some(Ty::I64), *i2),
        Expr::Cast(o, to, _) => out.kind matches EExprKind::Cast(o2, t2) && cast_to(to) == Some(t2)
            && expr_is(cx, h, *o, None, *o2),
        Expr::Call { callee, args, .. } => match builtin_of(callee.name@) {
            Some(b) => out.kind matches EExprKind::Call(ETarget::Builtin(b2, args2)) && b2 == b
                && builtin_args_are(cx, h, b, args@, args2@),
            None => out.kind matches EExprKind::Call(ETarget::User { idx, args: args2 })
                && cx.callee(callee.name@, cx.funcs.len()) == Some(idx as int) && args2@.len()
                == args@.len() && args_are(
                cx,
                h,
                args@,
                cx.funcs[idx as int].params@,
                args2@,
                args@.len(),
            ),
        },
    }
}

/// `out` are the trees of the arguments of a function that is always there.
pub open spec fn builtin_args_are(
    cx: Cx,
    h: Here,
    b: Builtin,
    args: Seq<Expr>,
    out: Seq<EExpr>,
) -> bool
    decreases args, 0nat,
{
    if b == Builtin::Min || b == Builtin::Max {
        args.len() == 2 && out.len() == 2 && expr_is(cx, h, args[0], None, out[0]) && expr_is(
            cx,
            h,
            args[1],
            Some(out[0].ty),
            out[1],
        )
    } else if args.len() != 1 || out.len() != 1 {
        false
    } else if b == Builtin::Len {
        array_is(cx, h, args[0], out[0])
    } else if b == Builtin::Zeros {
        expr_is(cx, h, args[0], Some(Ty::I64), out[0])
    } else {
        expr_is(cx, h, args[0], None, out[0])
    }
}

/// `out` is the array that the expression names, by reference.
pub open spec fn array_is(cx: Cx, h: Here, e: Expr, out: EExpr) -> bool {
    out.kind matches EExprKind::ArrayRef(s) && array_named(cx, h, e) == Some((s, out.ty))
        && out.span == place_of(e)
}

/// `out` is the tree of an argument for a parameter of type `want`.
pub open spec fn arg_is(cx: Cx, h: Here, a: Expr, want: Ty, out: EExpr) -> bool
    decreases a, 1nat,
{
    if array_named(cx, h, a) is Some {
        array_is(cx, h, a, out)
    } else {
        expr_is(cx, h, a, Some(want), out)
    }
}

/// `out` are the trees of the first `k` arguments.
pub open spec fn args_are(
    cx: Cx,
    h: Here,
    args: Seq<Expr>,
    params: Seq<(SymId, Ty)>,
    out: Seq<EExpr>,
    k: nat,
) -> bool
    decreases args, k,
{
    if k == 0 || k > args.len() {
        true
    } else {
        args_are(cx, h, args, params, out, (k - 1) as nat) && arg_is(
            cx,
            h,
            args[k - 1],
            params[k - 1].1,
            out[k - 1],
        )
    }
}

// ---------------------------------------------------------------------------
// Statements
// ---------------------------------------------------------------------------

/// What is declared after a statement, if it fits.
pub open spec fn after_stmt(cx: Cx, h: Here, s: Stmt) -> Option<Here>
    decreases s, 0nat,
{
    match s {
        Stmt::Let { name, ty, init } => match cx.claim(
            h.next as nat,
            SymKind::Local,
            name.name@,
            annotation(ty),
        ) {
            Some(id) => if expr_type(cx, h, init, cx.ty_of(id)) is Some {
                Some(h.bind(name.name@, id))
            } else {
                None
            },
            None => None,
        },
        Stmt::Assign { target, value } => match h.resolve(target.base.name@) {
            Some(id) => match (cx.ty_of(id), target.index) {
                (Some(Ty::Array(el)), Some(ix)) => if expr_type(cx, h, *ix, Some(Ty::I64)) is Some
                    && expr_type(cx, h, value, Some(scalar_of(el))) is Some {
                    Some(h)
                } else {
                    None
                },
                (Some(Ty::Array(_)), None) => None,
                (Some(t), None) => if expr_type(cx, h, value, Some(t)) is Some {
                    Some(h)
                } else {
                    None
                },
                _ => None,
            },
            None => None,
        },
        Stmt::If { cond, then_blk, else_part } => if expr_type(
            cx,
            h,
            cond,
            Some(Ty::Bool),
        ) is Some {
            match after_block(cx, h, then_blk) {
                Some(h1) => match else_part {
                    None => Some(h1),
                    Some(p) => after_else(cx, h1, *p),
                },
                None => None,
            }
        } else {
            None
        },
        Stmt::For { iv, start, end, body } => if expr_type(cx, h, start, Some(Ty::I64)) is Some
            && expr_type(cx, h, end, Some(Ty::I64)) is Some {
            match cx.claim(h.next as nat, SymKind::LoopVar, iv.name@, None) {
                Some(id) => match after_block(cx, h.push().bind(iv.name@, id), body) {
                    Some(h1) => Some(h1.pop()),
                    None => None,
                },
                None => None,
            }
        } else {
            None
        },
        Stmt::Return { value, .. } => match value {
            None => Some(h),
            Some(v) => if expr_type(cx, h, v, returned(cx)) is Some {
                Some(h)
            } else {
                None
            },
        },
        Stmt::Expr(e) => if expr_type(cx, h, e, None) is Some {
            Some(h)
        } else {
            None
        },
        Stmt::Empty => Some(h),
        Stmt::Block(b) => after_block(cx, h, b),
    }
}

/// What is declared after what follows `else`. Only an `if` can follow it without
/// braces.
pub open spec fn after_else(cx: Cx, h: Here, p: ElsePart) -> Option<Here>
    decreases p, 0nat,
{
    match p {
        ElsePart::If(inner) => if *inner is If {
            after_stmt(cx, h, *inner)
        } else {
            None
        },
        ElsePart::Block(b) => after_block(cx, h, b),
    }
}

/// What is declared after a block: its own declarations are gone, their symbols claimed.
pub open spec fn after_block(cx: Cx, h: Here, b: Block) -> Option<Here>
    decreases b, 0nat,
{
    match after_stmts(cx, h.push(), b.stmts@, b.stmts@.len()) {
        Some(h1) => Some(h1.pop()),
        None => None,
    }
}

/// What is declared after the first `k` statements.
pub open spec fn after_stmts(cx: Cx, h: Here, list: Seq<Stmt>, k: nat) -> Option<Here>
    decreases list, k,
{
    if k == 0 || k > list.len() {
        Some(h)
    } else {
        match after_stmts(cx, h, list, (k - 1) as nat) {
            Some(h1) => after_stmt(cx, h1, list[k - 1]),
            None => None,
        }
    }
}

/// The type that a declaration names.
pub open spec fn annotation(t: Option<SynType>) -> Option<Ty> {
    match t {
        Some(t) => Some(meaning(t)),
        None => None,
    }
}

/// The type that a returned value is expected to have.
pub open spec fn returned(cx: Cx) -> Option<Ty> {
    if cx.cur.ret == Ty::Unit {
        None
    } else {
        Some(cx.cur.ret)
    }
}

/// `out` is the tree of the statement.
pub open spec fn stmt_is(cx: Cx, h: Here, s: Stmt, out: EStmt) -> bool
    decreases s, 0nat,
{
    match s {
        Stmt::Let { name, ty, init } => out matches EStmt::Let { sym, init: i2 } && cx.claim(
            h.next as nat,
            SymKind::Local,
            name.name@,
            annotation(ty),
        ) == Some(sym) && expr_is(cx, h, init, cx.ty_of(sym), i2),
        Stmt::Assign { target, value } => out matches EStmt::Assign {
            base,
            index,
            value: v2,
            span,
        } && h.resolve(target.base.name@) == Some(base) && span == target.span && match (
            target.index,
            index,
        ) {
            (None, None) => expr_is(cx, h, value, cx.ty_of(base), v2),
            (Some(ix), Some(i2)) => expr_is(cx, h, *ix, Some(Ty::I64), *i2) && match cx.ty_of(
                base,
            ) {
                Some(Ty::Array(el)) => expr_is(cx, h, value, Some(scalar_of(el)), v2),
                _ => false,
            },
            _ => false,
        },
        Stmt::If { cond, then_blk, else_part } => out matches EStmt::If {
            cond: c2,
            then_blk: t2,
            else_arm,
        } && expr_is(cx, h, cond, Some(Ty::Bool), c2) && block_is(cx, h, then_blk, t2) && match (
            else_part,
            else_arm,
        ) {
            (None, None) => true,
            (Some(p), Some(a)) => else_is(cx, after_block(cx, h, then_blk)->0, *p, a),
            _ => false,
        },
        Stmt::For { iv, start, end, body } => out matches EStmt::For {
            iv: sym,
            start: s2,
            end: e2,
            body: b2,
            span,
        } && cx.claim(h.next as nat, SymKind::LoopVar, iv.name@, None) == Some(sym) && span
            == iv.span && expr_is(cx, h, start, Some(Ty::I64), *s2) && expr_is(
            cx,
            h,
            end,
            Some(Ty::I64),
            *e2,
        ) && block_is(cx, h.push().bind(iv.name@, sym), body, b2),
        Stmt::Return { value, span } => out matches EStmt::Return { value: v2, span: sp2 } && sp2
            == span && match (value, v2) {
            (None, None) => true,
            (Some(v), Some(x)) => expr_is(cx, h, v, returned(cx), x),
            _ => false,
        },
        Stmt::Expr(e) => out matches EStmt::Effect(e2) && expr_is(cx, h, e, None, e2),
        Stmt::Empty => out matches EStmt::Effect(e2) && e2.ty == Ty::Unit && e2.kind
            == EExprKind::BoolLit(false) && e2.span == (Span { start: 0, end: 0 }),
        Stmt::Block(b) => out matches EStmt::Nested(b2) && block_is(cx, h, b, b2),
    }
}

/// `out` is the tree of what follows `else`.
pub open spec fn else_is(cx: Cx, h: Here, p: ElsePart, out: EElse) -> bool
    decreases p, 0nat,
{
    match p {
        ElsePart::If(inner) => out matches EElse::If(f) && stmt_is(
            cx,
            h,
            *inner,
            EStmt::If { cond: f.cond, then_blk: f.then_blk, else_arm: f.else_arm },
        ),
        ElsePart::Block(b) => out matches EElse::Block(b2) && block_is(cx, h, b, b2),
    }
}

/// `out` is the tree of the block.
pub open spec fn block_is(cx: Cx, h: Here, b: Block, out: EBlock) -> bool
    decreases b, 0nat,
{
    out.stmts@.len() == b.stmts@.len() && stmts_are(
        cx,
        h.push(),
        b.stmts@,
        out.stmts@,
        b.stmts@.len(),
    )
}

/// `out` are the trees of the first `k` statements.
pub open spec fn stmts_are(cx: Cx, h: Here, list: Seq<Stmt>, out: Seq<EStmt>, k: nat) -> bool
    decreases list, k,
{
    if k == 0 || k > list.len() {
        true
    } else {
        stmts_are(cx, h, list, out, (k - 1) as nat) && stmt_is(
            cx,
            after_stmts(cx, h, list, (k - 1) as nat)->0,
            list[k - 1],
            out[k - 1],
        )
    }
}

// ---------------------------------------------------------------------------
// The walk
// ---------------------------------------------------------------------------

/// Names and symbols of a scope.
type Scope = Vec<(String, SymId)>;

/// The view of a scope.
spec fn scope_view(s: Scope) -> ScopeV {
    s@.map_values(|e: (String, SymId)| (e.0@, e.1))
}

/// A walk over one function.
struct Adapter<'p> {
    cur: &'p TypedFnDef,
    funcs: &'p Vec<TypedFnDef>,
    scopes: Vec<Scope>,
    next: u32,
}

impl<'p> View for Adapter<'p> {
    type V = Here;

    closed spec fn view(&self) -> Here {
        Here { scopes: self.scopes@.map_values(|s: Scope| scope_view(s)), next: self.next }
    }
}

/// Numbers of symbols and functions fit.
pub open spec fn fn_fits(f: TypedFnDef) -> bool {
    &&& f.symbols@.len() < u32::MAX
    &&& forall|k: int| 0 <= k < f.params@.len() ==> (#[trigger] f.params@[k]).0.0 < u32::MAX
}

impl<'p> Adapter<'p> {
    /// What is walked.
    closed spec fn cx(self) -> Cx {
        Cx { cur: *self.cur, funcs: self.funcs@ }
    }

    /// Numbers fit.
    closed spec fn fits(self) -> bool {
        fn_fits(*self.cur) && self.funcs@.len() <= u32::MAX
    }

    /// The symbol of a name.
    fn resolve(&self, name: &String) -> (r: Option<SymId>)
        ensures
            r == self@.resolve(name@),
    {
        let mut k: usize = self.scopes.len();
        while k > 0
            invariant
                k <= self.scopes@.len(),
                self@.scopes == self.scopes@.map_values(|s: Scope| scope_view(s)),
                self@.resolve(name@) == resolved(self@.scopes, name@, k as nat),
            decreases k,
        {
            let scope = &self.scopes[k - 1];
            let ghost view = self@.scopes[k - 1];
            proof {
                assert(view == scope_view(*scope));
            }
            let mut j: usize = scope.len();
            while j > 0
                invariant
                    0 < k <= self.scopes@.len(),
                    view == scope_view(*scope),
                    view == self@.scopes[k - 1],
                    j <= scope@.len(),
                    in_scope(view, name@, view.len()) == in_scope(view, name@, j as nat),
                    self@.resolve(name@) == resolved(self@.scopes, name@, k as nat),
                decreases j,
            {
                proof {
                    assert(view[j - 1] == (scope@[j - 1].0@, scope@[j - 1].1));
                }
                if scope[j - 1].0 == *name {
                    return Some(scope[j - 1].1);
                }
                j = j - 1;
            }
            k = k - 1;
        }
        None
    }

    /// The type of a symbol.
    fn ty_of(&self, id: SymId) -> (r: Option<Ty>)
        ensures
            r == self.cx().ty_of(id),
    {
        if (id.0 as usize) < self.cur.symbols.len() {
            Some(self.cur.symbols[id.0 as usize].ty)
        } else {
            None
        }
    }

    /// Enters a scope.
    fn push_scope(&mut self)
        ensures
            final(self)@ == old(self)@.push(),
            final(self).cx() == old(self).cx(),
            final(self).fits() == old(self).fits(),
    {
        let ghost start = self@;
        let s: Scope = Vec::new();
        let ghost view = scope_view(s);
        self.scopes.push(s);
        proof {
            assert(view =~= seq![]);
            assert(self@.scopes =~= start.scopes.push(view));
        }
    }

    /// Leaves the innermost scope.
    fn pop_scope(&mut self)
        ensures
            final(self)@ == old(self)@.pop(),
            final(self).cx() == old(self).cx(),
            final(self).fits() == old(self).fits(),
    {
        let ghost start = self@;
        let _ = self.scopes.pop();
        proof {
            assert(self@.scopes =~= start.pop().scopes);
        }
    }

    /// Declares a name in the innermost scope.
    fn bind_local(&mut self, name: &String, id: SymId)
        requires
            id.0 < u32::MAX,
        ensures
            final(self)@ == old(self)@.bind(name@, id),
            final(self).cx() == old(self).cx(),
            final(self).fits() == old(self).fits(),
    {
        let ghost start = self@;
        if self.next <= id.0 {
            self.next = id.0 + 1;
        }
        let n: usize = self.scopes.len();
        if n > 0 {
            let mut s: Scope = Vec::new();
            self.scopes.set_and_swap(n - 1, &mut s);
            let ghost before = scope_view(s);
            s.push((name.as_str().to_owned(), id));
            let ghost after = scope_view(s);
            self.scopes.set(n - 1, s);
            proof {
                assert(after =~= before.push((name@, id)));
                assert(self@.scopes =~= start.scopes.update(n - 1, after));
            }
        }
    }

    /// The first symbol that nothing has claimed and that fits.
    fn claim(&self, kind: SymKind, name: &String, ty: Option<Ty>) -> (r: Option<SymId>)
        requires
            self.fits(),
        ensures
            r == self.cx().claim(self@.next as nat, kind, name@, ty),
            r matches Some(id) ==> (id.0 as int) < self.cx().cur.symbols@.len() && id.0 < u32::MAX,
    {
        let n: usize = self.cur.symbols.len();
        let mut i: usize = self.next as usize;
        while i < n
            invariant
                self.fits(),
                n == self.cur.symbols@.len(),
                self.cx().claim(self@.next as nat, kind, name@, ty) == self.cx().claim(
                    i as nat,
                    kind,
                    name@,
                    ty,
                ),
            decreases n - i,
        {
            let s = &self.cur.symbols[i];
            let typed = match ty {
                Some(t) => t == s.ty,
                None => true,
            };
            if s.kind == kind && s.name == *name && typed {
                return Some(SymId(i as u32));
            }
            i = i + 1;
        }
        None
    }

    /// The function of a name.
    fn callee(&self, name: &String) -> (r: Option<usize>)
        ensures
            match self.cx().callee(name@, self.cx().funcs.len()) {
                Some(k) => r == Some(k as usize) && 0 <= k < self.funcs@.len() && k == k as usize,
                None => r is None,
            },
    {
        let mut k: usize = self.funcs.len();
        while k > 0
            invariant
                k <= self.funcs@.len(),
                self.cx().funcs == self.funcs@,
                self.cx().callee(name@, self.cx().funcs.len()) == self.cx().callee(
                    name@,
                    k as nat,
                ),
            decreases k,
        {
            if self.funcs[k - 1].name == *name {
                return Some(k - 1);
            }
            k = k - 1;
        }
        None
    }

    /// The array that an expression names, by reference.
    fn array_arg(&self, e: &Expr) -> (r: Option<EExpr>)
        ensures
            match array_named(self.cx(), self@, *e) {
                Some((_, t)) => r matches Some(out) && array_is(self.cx(), self@, *e, out)
                    && out.ty == t,
                None => r is None,
            },
    {
        match e {
            Expr::Var(id) => match self.resolve(&id.name) {
                Some(s) => match self.ty_of(s) {
                    Some(Ty::Array(el)) => Some(
                        EExpr {
                            ty: Ty::Array(el),
                            span: id.span,
                            kind: EExprKind::ArrayRef(s),
                        },
                    ),
                    _ => None,
                },
                None => None,
            },
            _ => None,
        }
    }

    /// The tree of an expression.
    fn expr(&self, e: &Expr, want: Option<Ty>) -> (r: Option<EExpr>)
        requires
            self.fits(),
        ensures
            r is Some <==> expr_type(self.cx(), self@, *e, want) is Some,
            r matches Some(out) ==> expr_is(self.cx(), self@, *e, want, out),
        decreases e, 1nat,
    {
        match e {
            Expr::IntLit(v, span) => {
                let ty = match want {
                    Some(Ty::I32) => Ty::I32,
                    _ => Ty::I64,
                };
                Some(EExpr { ty, span: *span, kind: EExprKind::IntLit(*v) })
            },
            Expr::FloatLit(b, span) => {
                let ty = match want {
                    Some(Ty::F32) => Ty::F32,
                    _ => Ty::F64,
                };
                Some(EExpr { ty, span: *span, kind: EExprKind::FloatLit(*b) })
            },
            Expr::Bool(b, span) => Some(
                EExpr { ty: Ty::Bool, span: *span, kind: EExprKind::BoolLit(*b) },
            ),
            Expr::Var(id) => match self.resolve(&id.name) {
                Some(s) => match self.ty_of(s) {
                    Some(ty) => Some(EExpr { ty, span: id.span, kind: EExprKind::Var(s) }),
                    None => None,
                },
                None => None,
            },
            Expr::Unary(op, o, span) => match self.expr(o, None) {
                Some(x) => Some(
                    EExpr { ty: x.ty, span: *span, kind: EExprKind::Unary(*op, Box::new(x)) },
                ),
                None => None,
            },
            Expr::Bin(_, _, _, _) => self.bin_expr(e, Ghost(want)),
            Expr::Index(_, _, _) => self.index_expr(e, Ghost(want)),
            Expr::Cast(o, to, span) => match self.expr(o, None) {
                Some(x) => match cast_target(to) {
                    Some(ty) => Some(
                        EExpr { ty, span: *span, kind: EExprKind::Cast(Box::new(x), ty) },
                    ),
                    None => None,
                },
                None => None,
            },
            Expr::Call { .. } => self.call_expr(e, want),
        }
    }

    /// The tree of an operation on two operands.
    fn bin_expr(&self, e: &Expr, want: Ghost<Option<Ty>>) -> (r: Option<EExpr>)
        requires
            self.fits(),
            e is Bin,
        ensures
            r is Some <==> expr_type(self.cx(), self@, *e, want@) is Some,
            r matches Some(out) ==> expr_is(self.cx(), self@, *e, want@, out),
        decreases e, 0nat,
    {
        match e {
            Expr::Bin(op, l, r, span) => {
                let x = match self.expr(l, None) {
                    Some(x) => x,
                    None => {
                        return None;
                    },
                };
                let right = match op {
                    BinOp::And => Ty::Bool,
                    BinOp::Or => Ty::Bool,
                    _ => x.ty,
                };
                let ty = match op {
                    BinOp::Add => x.ty,
                    BinOp::Sub => x.ty,
                    BinOp::Mul => x.ty,
                    BinOp::Div => x.ty,
                    BinOp::Rem => x.ty,
                    _ => Ty::Bool,
                };
                match self.expr(r, Some(right)) {
                    Some(y) => Some(
                        EExpr {
                            ty,
                            span: *span,
                            kind: EExprKind::Bin(*op, Box::new(x), Box::new(y)),
                        },
                    ),
                    None => None,
                }
            },
            _ => None,
        }
    }

    /// The tree of an element.
    fn index_expr(&self, e: &Expr, want: Ghost<Option<Ty>>) -> (r: Option<EExpr>)
        requires
            self.fits(),
            e is Index,
        ensures
            r is Some <==> expr_type(self.cx(), self@, *e, want@) is Some,
            r matches Some(out) ==> expr_is(self.cx(), self@, *e, want@, out),
        decreases e, 0nat,
    {
        match e {
            Expr::Index(base, idx, span) => match self.resolve(&base.name) {
                Some(s) => match self.ty_of(s) {
                    Some(Ty::Array(el)) => match self.expr(idx, Some(Ty::I64)) {
                        Some(i) => Some(
                            EExpr {
                                ty: elem_scalar_ty(el),
                                span: *span,
                                kind: EExprKind::Index(s, Box::new(i)),
                            },
                        ),
                        None => None,
                    },
                    _ => None,
                },
                None => None,
            },
            _ => None,
        }
    }

    /// The tree of a call.
    fn call_expr(&self, e: &Expr, want: Option<Ty>) -> (r: Option<EExpr>)
        requires
            self.fits(),
            e is Call,
        ensures
            r is Some <==> expr_type(self.cx(), self@, *e, want) is Some,
            r matches Some(out) ==> expr_is(self.cx(), self@, *e, want, out),
        decreases e, 0nat,
    {
        match e {
            Expr::Call { callee, args, span } => match Builtin::from_name(&callee.name) {
                Some(b) => match self.builtin(b, args, want) {
                    Some((ty, list)) => Some(
                        EExpr {
                            ty,
                            span: *span,
                            kind: EExprKind::Call(ETarget::Builtin(b, list)),
                        },
                    ),
                    None => None,
                },
                None => match self.callee(&callee.name) {
                    Some(i) => {
                        let f = &self.funcs[i];
                        if f.params.len() != args.len() {
                            return None;
                        }
                        match self.user_args(args, &f.params) {
                            Some(list) => Some(
                                EExpr {
                                    ty: f.ret,
                                    span: *span,
                                    kind: EExprKind::Call(
                                        ETarget::User { idx: i as u32, args: list },
                                    ),
                                },
                            ),
                            None => None,
                        }
                    },
                    None => None,
                },
            },
            _ => None,
        }
    }

    /// The tree of an argument for a parameter of type `want`.
    fn arg(&self, a: &Expr, want: Ty) -> (r: Option<EExpr>)
        requires
            self.fits(),
        ensures
            r is Some <==> arg_fits(self.cx(), self@, *a, want),
            r matches Some(out) ==> arg_is(self.cx(), self@, *a, want, out),
        decreases a, 2nat,
    {
        match self.array_arg(a) {
            Some(out) => if out.ty == want {
                Some(out)
            } else {
                None
            },
            None => self.expr(a, Some(want)),
        }
    }

    /// The trees of the arguments of a function of the program.
    #[verifier::rlimit(40)]
    fn user_args(&self, args: &Vec<Expr>, params: &Vec<(SymId, Ty)>) -> (r: Option<Vec<EExpr>>)
        requires
            self.fits(),
            args@.len() == params@.len(),
        ensures
            r is Some <==> args_fit(self.cx(), self@, args@, params@, args@.len()),
            r matches Some(out) ==> out@.len() == args@.len() && args_are(
                self.cx(),
                self@,
                args@,
                params@,
                out@,
                args@.len(),
            ),
        decreases args, args@.len(),
    {
        let mut out: Vec<EExpr> = Vec::new();
        let mut k: usize = 0;
        while k < args.len()
            invariant
                self.fits(),
                args@.len() == params@.len(),
                k <= args@.len(),
                out@.len() == k,
                args_fit(self.cx(), self@, args@, params@, k as nat),
                args_are(self.cx(), self@, args@, params@, out@, k as nat),
            decreases args@.len() - k,
        {
            match self.arg(&args[k], params[k].1) {
                Some(x) => {
                    let ghost before = out@;
                    out.push(x);
                    proof {
                        lemma_args_are(
                            self.cx(),
                            self@,
                            args@,
                            params@,
                            before,
                            out@,
                            k as nat,
                        );
                    }
                },
                None => {
                    proof {
                        if args_fit(self.cx(), self@, args@, params@, args@.len()) {
                            lemma_args_fit(
                                self.cx(),
                                self@,
                                args@,
                                params@,
                                (k + 1) as nat,
                                args@.len(),
                            );
                        }
                    }
                    return None;
                },
            }
            k = k + 1;
        }
        Some(out)
    }

    /// The type of a call of a function that is always there, and the trees of its
    /// arguments.
    fn builtin(&self, b: Builtin, args: &Vec<Expr>, want: Option<Ty>) -> (r: Option<
        (Ty, Vec<EExpr>),
    >)
        requires
            self.fits(),
        ensures
            r is Some <==> builtin_type(self.cx(), self@, b, args@, want) is Some,
            r matches Some((ty, out)) ==> Some(ty) == builtin_type(
                self.cx(),
                self@,
                b,
                args@,
                want,
            ) && builtin_args_are(self.cx(), self@, b, args@, out@),
        decreases args, 1nat,
    {
        match b {
            Builtin::Min => self.pair(args),
            Builtin::Max => self.pair(args),
            _ => {
                if args.len() != 1 {
                    return None;
                }
                let a = &args[0];
                match b {
                    Builtin::Print => match self.expr(a, None) {
                        Some(x) => Some((Ty::Unit, vec![x])),
                        None => None,
                    },
                    Builtin::Zeros => match want {
                        Some(Ty::Array(el)) => match self.expr(a, Some(Ty::I64)) {
                            Some(x) => Some((Ty::Array(el), vec![x])),
                            None => None,
                        },
                        _ => None,
                    },
                    Builtin::Len => match self.array_arg(a) {
                        Some(x) => Some((Ty::I64, vec![x])),
                        None => None,
                    },
                    Builtin::Abs => match self.expr(a, None) {
                        Some(x) => Some((x.ty, vec![x])),
                        None => None,
                    },
                    _ => match self.expr(a, None) {
                        Some(x) => match x.ty {
                            Ty::F32 => Some((x.ty, vec![x])),
                            Ty::F64 => Some((x.ty, vec![x])),
                            _ => None,
                        },
                        None => None,
                    },
                }
            },
        }
    }

    /// Two operands that have to agree.
    fn pair(&self, args: &Vec<Expr>) -> (r: Option<(Ty, Vec<EExpr>)>)
        requires
            self.fits(),
        ensures
            r is Some <==> pair_type(self.cx(), self@, args@) is Some,
            r matches Some((ty, out)) ==> Some(ty) == pair_type(self.cx(), self@, args@)
                && builtin_args_are(self.cx(), self@, Builtin::Min, args@, out@)
                && builtin_args_are(self.cx(), self@, Builtin::Max, args@, out@),
        decreases args, 0nat,
    {
        if args.len() != 2 {
            return None;
        }
        let x = match self.expr(&args[0], None) {
            Some(x) => x,
            None => {
                return None;
            },
        };
        let ty = x.ty;
        match self.expr(&args[1], Some(ty)) {
            Some(y) => if y.ty == ty {
                Some((ty, vec![x, y]))
            } else {
                None
            },
            None => None,
        }
    }
}

/// What was found for the first arguments stays.
proof fn lemma_args_are(
    cx: Cx,
    h: Here,
    args: Seq<Expr>,
    params: Seq<(SymId, Ty)>,
    a: Seq<EExpr>,
    b: Seq<EExpr>,
    k: nat,
)
    requires
        args_are(cx, h, args, params, a, k),
        k <= a.len() <= b.len(),
        forall|i: int| 0 <= i < k ==> a[i] == b[i],
    ensures
        args_are(cx, h, args, params, b, k),
    decreases k,
{
    if 0 < k <= args.len() {
        lemma_args_are(cx, h, args, params, a, b, (k - 1) as nat);
    }
}

/// An argument that does not fit spoils the list.
proof fn lemma_args_fit(cx: Cx, h: Here, args: Seq<Expr>, params: Seq<(SymId, Ty)>, k: nat, n: nat)
    requires
        k <= n <= args.len(),
        args_fit(cx, h, args, params, n),
    ensures
        args_fit(cx, h, args, params, k),
    decreases n,
{
    if k < n {
        lemma_args_fit(cx, h, args, params, k, (n - 1) as nat);
    }
}

impl<'p> Adapter<'p> {
    /// The tree of a statement.
    fn stmt(&mut self, s: &Stmt) -> (r: Option<EStmt>)
        requires
            old(self).fits(),
        ensures
            final(self).cx() == old(self).cx(),
            final(self).fits(),
            match after_stmt(old(self).cx(), old(self)@, *s) {
                Some(h) => r matches Some(out) && stmt_is(old(self).cx(), old(self)@, *s, out)
                    && final(self)@ == h,
                None => r is None,
            },
        decreases s, 1nat,
    {
        match s {
            Stmt::Let { .. } => self.let_stmt(s),
            Stmt::Assign { .. } => self.assign_stmt(s),
            Stmt::If { .. } => self.if_stmt(s),
            Stmt::For { .. } => self.for_stmt(s),
            Stmt::Return { value, span } => {
                let want = match self.cur.ret {
                    Ty::Unit => None,
                    t => Some(t),
                };
                match value {
                    None => Some(EStmt::Return { value: None, span: *span }),
                    Some(v) => match self.expr(v, want) {
                        Some(x) => Some(EStmt::Return { value: Some(x), span: *span }),
                        None => None,
                    },
                }
            },
            Stmt::Expr(e) => match self.expr(e, None) {
                Some(x) => Some(EStmt::Effect(x)),
                None => None,
            },
            Stmt::Empty => Some(EStmt::Effect(inert(Span { start: 0, end: 0 }))),
            Stmt::Block(b) => match self.block(b) {
                Some(out) => Some(EStmt::Nested(out)),
                None => None,
            },
        }
    }

    /// The tree of a declaration. The name is declared after its first value: there it
    /// still means what it meant before.
    fn let_stmt(&mut self, s: &Stmt) -> (r: Option<EStmt>)
        requires
            old(self).fits(),
            s is Let,
        ensures
            final(self).cx() == old(self).cx(),
            final(self).fits(),
            match after_stmt(old(self).cx(), old(self)@, *s) {
                Some(h) => r matches Some(out) && stmt_is(old(self).cx(), old(self)@, *s, out)
                    && final(self)@ == h,
                None => r is None,
            },
    {
        match s {
            Stmt::Let { name, ty, init } => {
                let written = match ty {
                    Some(t) => Some(ann_ty(t)),
                    None => None,
                };
                let id = match self.claim(SymKind::Local, &name.name, written) {
                    Some(id) => id,
                    None => {
                        return None;
                    },
                };
                let want = self.ty_of(id);
                match self.expr(init, want) {
                    Some(x) => {
                        self.bind_local(&name.name, id);
                        Some(EStmt::Let { sym: id, init: x })
                    },
                    None => None,
                }
            },
            _ => None,
        }
    }

    /// The tree of an assignment.
    fn assign_stmt(&self, s: &Stmt) -> (r: Option<EStmt>)
        requires
            self.fits(),
            s is Assign,
        ensures
            match after_stmt(self.cx(), self@, *s) {
                Some(h) => r matches Some(out) && stmt_is(self.cx(), self@, *s, out) && self@ == h,
                None => r is None,
            },
    {
        match s {
            Stmt::Assign { target, value } => {
                let base = match self.resolve(&target.base.name) {
                    Some(id) => id,
                    None => {
                        return None;
                    },
                };
                match (self.ty_of(base), &target.index) {
                    (Some(Ty::Array(el)), Some(ix)) => match self.expr(ix, Some(Ty::I64)) {
                        Some(i) => match self.expr(value, Some(elem_scalar_ty(el))) {
                            Some(v) => Some(
                                EStmt::Assign {
                                    base,
                                    index: Some(Box::new(i)),
                                    value: v,
                                    span: target.span,
                                },
                            ),
                            None => None,
                        },
                        None => None,
                    },
                    (Some(Ty::Array(_)), None) => None,
                    (Some(t), None) => match self.expr(value, Some(t)) {
                        Some(v) => Some(
                            EStmt::Assign { base, index: None, value: v, span: target.span },
                        ),
                        None => None,
                    },
                    _ => None,
                }
            },
            _ => None,
        }
    }

    /// The tree of a condition with its sides.
    fn if_stmt(&mut self, s: &Stmt) -> (r: Option<EStmt>)
        requires
            old(self).fits(),
            s is If,
        ensures
            final(self).cx() == old(self).cx(),
            final(self).fits(),
            match after_stmt(old(self).cx(), old(self)@, *s) {
                Some(h) => r matches Some(out) && stmt_is(old(self).cx(), old(self)@, *s, out)
                    && final(self)@ == h && out is If,
                None => r is None,
            },
        decreases s, 0nat,
    {
        match s {
            Stmt::If { cond, then_blk, else_part } => {
                let c = match self.expr(cond, Some(Ty::Bool)) {
                    Some(c) => c,
                    None => {
                        return None;
                    },
                };
                let t = match self.block(then_blk) {
                    Some(t) => t,
                    None => {
                        return None;
                    },
                };
                let arm = match else_part {
                    None => None,
                    Some(p) => match self.else_arm(p) {
                        Some(a) => Some(a),
                        None => {
                            return None;
                        },
                    },
                };
                Some(EStmt::If { cond: c, then_blk: t, else_arm: arm })
            },
            _ => None,
        }
    }

    /// The tree of what follows `else`.
    fn else_arm(&mut self, p: &ElsePart) -> (r: Option<EElse>)
        requires
            old(self).fits(),
        ensures
            final(self).cx() == old(self).cx(),
            final(self).fits(),
            match after_else(old(self).cx(), old(self)@, *p) {
                Some(h) => r matches Some(out) && else_is(old(self).cx(), old(self)@, *p, out)
                    && final(self)@ == h,
                None => r is None,
            },
        decreases p, 0nat,
    {
        match p {
            ElsePart::If(inner) => match **inner {
                Stmt::If { .. } => match self.if_stmt(inner) {
                    Some(EStmt::If { cond, then_blk, else_arm }) => Some(
                        EElse::If(Box::new(EIf { cond, then_blk, else_arm })),
                    ),
                    _ => None,
                },
                _ => None,
            },
            ElsePart::Block(b) => match self.block(b) {
                Some(out) => Some(EElse::Block(out)),
                None => None,
            },
        }
    }

    /// The tree of a loop. Its bounds come before its variable.
    fn for_stmt(&mut self, s: &Stmt) -> (r: Option<EStmt>)
        requires
            old(self).fits(),
            s is For,
        ensures
            final(self).cx() == old(self).cx(),
            final(self).fits(),
            match after_stmt(old(self).cx(), old(self)@, *s) {
                Some(h) => r matches Some(out) && stmt_is(old(self).cx(), old(self)@, *s, out)
                    && final(self)@ == h,
                None => r is None,
            },
        decreases s, 0nat,
    {
        match s {
            Stmt::For { iv, start, end, body } => {
                let first = match self.expr(start, Some(Ty::I64)) {
                    Some(x) => x,
                    None => {
                        return None;
                    },
                };
                let last = match self.expr(end, Some(Ty::I64)) {
                    Some(x) => x,
                    None => {
                        return None;
                    },
                };
                let id = match self.claim(SymKind::LoopVar, &iv.name, None) {
                    Some(id) => id,
                    None => {
                        return None;
                    },
                };
                self.push_scope();
                self.bind_local(&iv.name, id);
                let b = match self.block(body) {
                    Some(b) => b,
                    None => {
                        return None;
                    },
                };
                self.pop_scope();
                Some(
                    EStmt::For {
                        iv: id,
                        start: Box::new(first),
                        end: Box::new(last),
                        body: b,
                        span: iv.span,
                    },
                )
            },
            _ => None,
        }
    }

    /// The tree of a block.
    fn block(&mut self, b: &Block) -> (r: Option<EBlock>)
        requires
            old(self).fits(),
        ensures
            final(self).cx() == old(self).cx(),
            final(self).fits(),
            match after_block(old(self).cx(), old(self)@, *b) {
                Some(h) => r matches Some(out) && block_is(old(self).cx(), old(self)@, *b, out)
                    && final(self)@ == h,
                None => r is None,
            },
        decreases b, 0nat,
    {
        let ghost cx = self.cx();
        let ghost inside = self@.push();
        self.push_scope();
        let mut stmts: Vec<EStmt> = Vec::new();
        let mut k: usize = 0;
        while k < b.stmts.len()
            invariant
                cx == old(self).cx(),
                inside == old(self)@.push(),
                self.cx() == cx,
                self.fits(),
                k <= b.stmts@.len(),
                stmts@.len() == k,
                after_stmts(cx, inside, b.stmts@, k as nat) == Some(self@),
                stmts_are(cx, inside, b.stmts@, stmts@, k as nat),
            decreases b.stmts@.len() - k,
        {
            match self.stmt(&b.stmts[k]) {
                Some(x) => {
                    let ghost before = stmts@;
                    stmts.push(x);
                    proof {
                        lemma_stmts_are(cx, inside, b.stmts@, before, stmts@, k as nat);
                    }
                },
                None => {
                    proof {
                        lemma_stmts_fit(cx, inside, b.stmts@, (k + 1) as nat, b.stmts@.len());
                    }
                    return None;
                },
            }
            k = k + 1;
        }
        self.pop_scope();
        Some(EBlock { stmts })
    }
}

/// A statement without effect.
fn inert(span: Span) -> (r: EExpr)
    ensures
        r.ty == Ty::Unit,
        r.span == span,
        r.kind == EExprKind::BoolLit(false),
{
    EExpr { ty: Ty::Unit, span, kind: EExprKind::BoolLit(false) }
}

/// What was found for the first statements stays.
proof fn lemma_stmts_are(
    cx: Cx,
    h: Here,
    list: Seq<Stmt>,
    a: Seq<EStmt>,
    b: Seq<EStmt>,
    k: nat,
)
    requires
        stmts_are(cx, h, list, a, k),
        k <= a.len() <= b.len(),
        forall|i: int| 0 <= i < k ==> a[i] == b[i],
    ensures
        stmts_are(cx, h, list, b, k),
    decreases k,
{
    if 0 < k <= list.len() {
        lemma_stmts_are(cx, h, list, a, b, (k - 1) as nat);
    }
}

/// A statement that does not fit spoils the list.
proof fn lemma_stmts_fit(cx: Cx, h: Here, list: Seq<Stmt>, k: nat, n: nat)
    requires
        k <= n <= list.len(),
        after_stmts(cx, h, list, k) is None,
    ensures
        after_stmts(cx, h, list, n) is None,
    decreases n,
{
    if k < n {
        lemma_stmts_fit(cx, h, list, k, (n - 1) as nat);
    }
}

// ---------------------------------------------------------------------------
// Programs
// ---------------------------------------------------------------------------

/// Positions of the functions among the first `k` items.
pub open spec fn fn_positions(items: Seq<Item>, k: nat) -> Seq<int>
    decreases k,
{
    if k == 0 {
        seq![]
    } else {
        let before = fn_positions(items, (k - 1) as nat);
        if items[k - 1] is Fn {
            before.push(k - 1)
        } else {
            before
        }
    }
}

/// What the first `k` symbols declare at the outermost level: the constants.
pub open spec fn with_consts(f: TypedFnDef, k: nat) -> Here
    decreases k,
{
    if k == 0 {
        Here { scopes: seq![seq![]], next: 0 }
    } else {
        let h = with_consts(f, (k - 1) as nat);
        let s = f.symbols@[k - 1];
        if s.kind == SymKind::Const {
            h.bind(s.name@, SymId((k - 1) as u32))
        } else {
            h
        }
    }
}

/// The first `k` parameters declared besides.
pub open spec fn with_params(f: TypedFnDef, k: nat) -> Here
    decreases k,
{
    if k == 0 {
        with_consts(f, f.symbols@.len())
    } else {
        let h = with_params(f, (k - 1) as nat);
        let id = f.params@[k - 1].0;
        if (id.0 as int) < f.symbols@.len() {
            h.bind(f.symbols@[id.0 as int].name@, id)
        } else if h.next > id.0 {
            h
        } else {
            Here { next: (id.0 + 1) as u32, ..h }
        }
    }
}

/// What is declared where a function starts.
pub open spec fn at_entry(f: TypedFnDef) -> Here {
    with_params(f, f.params@.len())
}

/// The function at a position of the program.
pub open spec fn fn_at(ast: Program, k: int) -> FnDef {
    ast.items@[fn_positions(ast.items@, ast.items@.len())[k]]->Fn_0
}

/// What surrounds function `k`.
pub open spec fn cx_at(tp: TypedProgram, k: int) -> Cx {
    Cx { cur: tp.funcs@[k], funcs: tp.funcs@ }
}

/// Function `k` belongs to its declarations.
pub open spec fn fn_adapts(ast: Program, tp: TypedProgram, k: int) -> bool {
    tp.funcs@[k].name@ == fn_at(ast, k).name.name@ && after_block(
        cx_at(tp, k),
        at_entry(tp.funcs@[k]),
        fn_at(ast, k).body,
    ) is Some
}

/// The program belongs to its declarations.
pub open spec fn adapts(ast: Program, tp: TypedProgram) -> bool {
    &&& fn_positions(ast.items@, ast.items@.len()).len() == tp.funcs@.len()
    &&& forall|k: int| 0 <= k < tp.funcs@.len() ==> #[trigger] fn_adapts(ast, tp, k)
}

/// The same symbols.
pub open spec fn same_symbols(a: Seq<Symbol>, b: Seq<Symbol>) -> bool {
    &&& a.len() == b.len()
    &&& forall|k: int|
        #![trigger a[k]]
        0 <= k < a.len() ==> a[k].name@ == b[k].name@ && a[k].kind == b[k].kind && a[k].ty
            == b[k].ty
}

/// The same constants.
pub open spec fn same_consts(a: Seq<TypedConstDef>, b: Seq<TypedConstDef>) -> bool {
    &&& a.len() == b.len()
    &&& forall|k: int|
        #![trigger a[k]]
        0 <= k < a.len() ==> a[k].sym == b[k].sym && a[k].name@ == b[k].name@ && a[k].ty
            == b[k].ty && a[k].value == b[k].value
}

/// `out` is function `k`, ready to run.
pub open spec fn fn_is(ast: Program, tp: TypedProgram, k: int, out: AdaptedFn) -> bool {
    &&& out.idx == k
    &&& out.name@ == tp.funcs@[k].name@
    &&& out.params@ == tp.funcs@[k].params@
    &&& out.ret == tp.funcs@[k].ret
    &&& same_symbols(out.symbols@, tp.funcs@[k].symbols@)
    &&& block_is(cx_at(tp, k), at_entry(tp.funcs@[k]), fn_at(ast, k).body, out.body)
}

/// `out` is the program, ready to run.
pub open spec fn program_is(ast: Program, tp: TypedProgram, out: AdaptedProgram) -> bool {
    &&& out.funcs@.len() == tp.funcs@.len()
    &&& forall|k: int|
        0 <= k < tp.funcs@.len() ==> fn_is(ast, tp, k, #[trigger] out.funcs@[k])
    &&& same_consts(out.consts@, tp.consts@)
}

/// Numbers of symbols and functions fit.
pub open spec fn program_fits(tp: TypedProgram) -> bool {
    &&& tp.funcs@.len() <= u32::MAX
    &&& forall|k: int| 0 <= k < tp.funcs@.len() ==> fn_fits(#[trigger] tp.funcs@[k])
}

/// A copy of symbols.
fn copy_symbols(list: &Vec<Symbol>) -> (r: Vec<Symbol>)
    ensures
        same_symbols(r@, list@),
{
    let mut out: Vec<Symbol> = Vec::new();
    let mut k: usize = 0;
    while k < list.len()
        invariant
            k <= list@.len(),
            out@.len() == k,
            forall|i: int|
                #![trigger out@[i]]
                0 <= i < k ==> out@[i].name@ == list@[i].name@ && out@[i].kind == list@[i].kind
                    && out@[i].ty == list@[i].ty,
        decreases list@.len() - k,
    {
        let s = &list[k];
        out.push(Symbol { name: s.name.as_str().to_owned(), kind: s.kind, ty: s.ty });
        k = k + 1;
    }
    out
}

/// A copy of constants.
fn copy_consts(list: &Vec<TypedConstDef>) -> (r: Vec<TypedConstDef>)
    ensures
        same_consts(r@, list@),
{
    let mut out: Vec<TypedConstDef> = Vec::new();
    let mut k: usize = 0;
    while k < list.len()
        invariant
            k <= list@.len(),
            out@.len() == k,
            forall|i: int|
                #![trigger out@[i]]
                0 <= i < k ==> out@[i].sym == list@[i].sym && out@[i].name@ == list@[i].name@
                    && out@[i].ty == list@[i].ty && out@[i].value == list@[i].value,
        decreases list@.len() - k,
    {
        let c = &list[k];
        out.push(
            TypedConstDef {
                sym: c.sym,
                name: c.name.as_str().to_owned(),
                ty: c.ty,
                value: c.value,
            },
        );
        k = k + 1;
    }
    out
}

/// A copy of parameters.
fn copy_params(list: &Vec<(SymId, Ty)>) -> (r: Vec<(SymId, Ty)>)
    ensures
        r@ == list@,
{
    let mut out: Vec<(SymId, Ty)> = Vec::new();
    let mut k: usize = 0;
    while k < list.len()
        invariant
            k <= list@.len(),
            out@ =~= list@.take(k as int),
        decreases list@.len() - k,
    {
        out.push(list[k]);
        k = k + 1;
    }
    out
}

impl<'p> Adapter<'p> {
    /// Starts a function.
    fn new(cur: &'p TypedFnDef, funcs: &'p Vec<TypedFnDef>) -> (r: Self)
        requires
            fn_fits(*cur),
            funcs@.len() <= u32::MAX,
        ensures
            r@ == at_entry(*cur),
            r.cx() == (Cx { cur: *cur, funcs: funcs@ }),
            r.fits(),
    {
        let mut r = Adapter { cur, funcs, scopes: Vec::new(), next: 0 };
        r.push_scope();
        proof {
            assert(r@ =~= with_consts(*cur, 0));
        }
        let mut i: usize = 0;
        while i < cur.symbols.len()
            invariant
                fn_fits(*cur),
                i <= cur.symbols@.len(),
                r@ == with_consts(*cur, i as nat),
                r.cx() == (Cx { cur: *cur, funcs: funcs@ }),
                r.fits(),
            decreases cur.symbols@.len() - i,
        {
            if let SymKind::Const = cur.symbols[i].kind {
                r.bind_local(&cur.symbols[i].name, SymId(i as u32));
            }
            i = i + 1;
        }
        let mut k: usize = 0;
        while k < cur.params.len()
            invariant
                fn_fits(*cur),
                k <= cur.params@.len(),
                r@ == with_params(*cur, k as nat),
                r.cx() == (Cx { cur: *cur, funcs: funcs@ }),
                r.fits(),
            decreases cur.params@.len() - k,
        {
            let id = cur.params[k].0;
            if (id.0 as usize) < cur.symbols.len() {
                r.bind_local(&cur.symbols[id.0 as usize].name, id);
            } else if r.next <= id.0 {
                r.next = id.0 + 1;
            }
            k = k + 1;
        }
        r
    }
}

/// Joins a program as it is written with what the checker found out about it. There is
/// no tree where the two do not belong together.
#[verifier::rlimit(40)]
pub fn adapt_program(ast: &Program, tp: &TypedProgram) -> (r: Option<AdaptedProgram>)
    requires
        program_fits(*tp),
    ensures
        r is Some <==> adapts(*ast, *tp),
        r matches Some(out) ==> program_is(*ast, *tp, out),
{
    let ghost all = fn_positions(ast.items@, ast.items@.len());
    let mut fns: Vec<usize> = Vec::new();
    let mut i: usize = 0;
    while i < ast.items.len()
        invariant
            i <= ast.items@.len(),
            fns@.map_values(|v: usize| v as int) =~= fn_positions(ast.items@, i as nat),
            forall|j: int|
                0 <= j < fns@.len() ==> (#[trigger] fns@[j]) < ast.items@.len()
                    && ast.items@[fns@[j] as int] is Fn,
        decreases ast.items@.len() - i,
    {
        if let Item::Fn(_) = ast.items[i] {
            fns.push(i);
        }
        i = i + 1;
    }
    assert(all == fns@.map_values(|v: usize| v as int));
    assert(all.len() == fns@.len());
    if fns.len() != tp.funcs.len() {
        return None;
    }
    let mut funcs: Vec<AdaptedFn> = Vec::new();
    let mut k: usize = 0;
    while k < tp.funcs.len()
        invariant
            program_fits(*tp),
            all == fn_positions(ast.items@, ast.items@.len()),
            all == fns@.map_values(|v: usize| v as int),
            fns@.len() == tp.funcs@.len(),
            forall|j: int|
                0 <= j < fns@.len() ==> (#[trigger] fns@[j]) < ast.items@.len()
                    && ast.items@[fns@[j] as int] is Fn,
            k <= tp.funcs@.len(),
            funcs@.len() == k,
            forall|j: int| 0 <= j < k ==> #[trigger] fn_adapts(*ast, *tp, j),
            forall|j: int| 0 <= j < k ==> fn_is(*ast, *tp, j, #[trigger] funcs@[j]),
        decreases tp.funcs@.len() - k,
    {
        let tf = &tp.funcs[k];
        assert(all[k as int] == fns@[k as int]);
        if let Item::Fn(af) = &ast.items[fns[k]] {
            proof {
                assert(*af == fn_at(*ast, k as int));
            }
            if tf.name != af.name.name {
                assert(!fn_adapts(*ast, *tp, k as int));
                return None;
            }
            let mut ad = Adapter::new(tf, &tp.funcs);
            proof {
                assert(ad.cx() == cx_at(*tp, k as int));
            }
            match ad.block(&af.body) {
                Some(body) => {
                    let one = AdaptedFn {
                        idx: k as u32,
                        name: tf.name.as_str().to_owned(),
                        params: copy_params(&tf.params),
                        ret: tf.ret,
                        body,
                        symbols: copy_symbols(&tf.symbols),
                    };
                    assert(fn_is(*ast, *tp, k as int, one));
                    assert(fn_adapts(*ast, *tp, k as int));
                    funcs.push(one);
                },
                None => {
                    assert(!fn_adapts(*ast, *tp, k as int));
                    return None;
                },
            }
        } else {
            return None;
        }
        k = k + 1;
    }
    Some(AdaptedProgram { funcs, consts: copy_consts(&tp.consts) })
}

// ---------------------------------------------------------------------------
// Laws
// ---------------------------------------------------------------------------

/// What a statement leaves of what was declared before it: only the innermost scope can
/// have grown, and symbols stay claimed.
pub open spec fn kept(h: Here, after: Here) -> bool {
    &&& after.scopes.len() == h.scopes.len()
    &&& after.scopes.drop_last() == h.scopes.drop_last()
    &&& after.next >= h.next
}

/// A claimed symbol is one that nothing had claimed, of the kind and the name that were
/// asked for.
pub proof fn law_claims_are_new(cx: Cx, i: nat, kind: SymKind, name: Seq<char>, ty: Option<Ty>)
    requires
        cx.cur.symbols@.len() <= u32::MAX,
        cx.claim(i, kind, name, ty) is Some,
    ensures
        i <= (cx.claim(i, kind, name, ty)->0).0 < cx.cur.symbols@.len(),
        cx.cur.symbols@[(cx.claim(i, kind, name, ty)->0).0 as int].kind == kind,
        cx.cur.symbols@[(cx.claim(i, kind, name, ty)->0).0 as int].name@ == name,
        ty is Some ==> cx.ty_of(cx.claim(i, kind, name, ty)->0) == ty,
    decreases cx.cur.symbols@.len() - i,
{
    let s = cx.cur.symbols@[i as int];
    if !(s.kind == kind && s.name@ == name && (ty is None || ty == Some(s.ty))) {
        law_claims_are_new(cx, i + 1, kind, name, ty);
    }
}

/// A declared name means its symbol from then on, whatever it meant before.
pub proof fn law_declarations_hide(h: Here, name: Seq<char>, id: SymId)
    requires
        h.scopes.len() > 0,
    ensures
        h.bind(name, id).resolve(name) == Some(id),
{
    let b = h.bind(name, id);
    let k = h.scopes.len() - 1;
    assert(b.scopes[k].last() == (name, id));
}

/// Other names keep their meaning.
pub proof fn law_declarations_hide_nothing_else(h: Here, name: Seq<char>, id: SymId, other: Seq<char>)
    requires
        h.scopes.len() > 0,
        other != name,
    ensures
        h.bind(name, id).resolve(other) == h.resolve(other),
{
    let b = h.bind(name, id);
    let k = h.scopes.len() - 1;
    assert(b.scopes[k].drop_last() =~= h.scopes[k]);
    lemma_in_scope(b.scopes[k], h.scopes[k], other, h.scopes[k].len());
    lemma_resolved(b.scopes, h.scopes, other, k as nat);
}

/// A name means the same in scopes that start alike.
proof fn lemma_in_scope(a: ScopeV, b: ScopeV, name: Seq<char>, k: nat)
    requires
        k <= a.len(),
        k <= b.len(),
        forall|i: int| 0 <= i < k ==> a[i] == b[i],
    ensures
        in_scope(a, name, k) == in_scope(b, name, k),
    decreases k,
{
    if k > 0 {
        lemma_in_scope(a, b, name, (k - 1) as nat);
    }
}

/// A name means the same in stacks that start alike.
proof fn lemma_resolved(a: Seq<ScopeV>, b: Seq<ScopeV>, name: Seq<char>, k: nat)
    requires
        k <= a.len(),
        k <= b.len(),
        forall|i: int| 0 <= i < k ==> a[i] == b[i],
    ensures
        resolved(a, name, k) == resolved(b, name, k),
    decreases k,
{
    if k > 0 {
        lemma_resolved(a, b, name, (k - 1) as nat);
    }
}

/// A block leaves names as they were; what it claimed stays claimed.
pub proof fn law_blocks_restore_names(cx: Cx, h: Here, b: Block)
    requires
        cx.cur.symbols@.len() < u32::MAX,
        after_block(cx, h, b) is Some,
    ensures
        (after_block(cx, h, b)->0).scopes == h.scopes,
        (after_block(cx, h, b)->0).next >= h.next,
    decreases b, 0nat,
{
    let inside = h.push();
    lemma_stmts_keep(cx, inside, b.stmts@, b.stmts@.len());
    let end = after_stmts(cx, inside, b.stmts@, b.stmts@.len())->0;
    assert(inside.scopes.drop_last() =~= h.scopes);
    assert(end.pop().scopes == h.scopes);
}

/// A statement declares names in the innermost scope only.
pub proof fn law_statements_keep_outer_names(cx: Cx, h: Here, s: Stmt)
    requires
        cx.cur.symbols@.len() < u32::MAX,
        h.scopes.len() > 0,
        after_stmt(cx, h, s) is Some,
    ensures
        kept(h, after_stmt(cx, h, s)->0),
    decreases s, 0nat,
{
    match s {
        Stmt::Let { name, ty, init } => {
            law_claims_are_new(cx, h.next as nat, SymKind::Local, name.name@, annotation(ty));
            let id = cx.claim(h.next as nat, SymKind::Local, name.name@, annotation(ty))->0;
            assert(h.bind(name.name@, id).scopes.drop_last() =~= h.scopes.drop_last());
        },
        Stmt::If { cond, then_blk, else_part } => {
            law_blocks_restore_names(cx, h, then_blk);
            let h1 = after_block(cx, h, then_blk)->0;
            match else_part {
                Some(p) => match *p {
                    ElsePart::If(inner) => {
                        law_statements_keep_outer_names(cx, h1, *inner);
                    },
                    ElsePart::Block(b) => {
                        law_blocks_restore_names(cx, h1, b);
                    },
                },
                None => {},
            }
        },
        Stmt::For { iv, start, end, body } => {
            law_claims_are_new(cx, h.next as nat, SymKind::LoopVar, iv.name@, None);
            let id = cx.claim(h.next as nat, SymKind::LoopVar, iv.name@, None)->0;
            let inside = h.push().bind(iv.name@, id);
            law_blocks_restore_names(cx, inside, body);
            assert(inside.scopes.drop_last() =~= h.scopes);
        },
        Stmt::Block(b) => {
            law_blocks_restore_names(cx, h, b);
        },
        _ => {},
    }
}

/// Statements declare names in the innermost scope only.
proof fn lemma_stmts_keep(cx: Cx, h: Here, list: Seq<Stmt>, k: nat)
    requires
        cx.cur.symbols@.len() < u32::MAX,
        h.scopes.len() > 0,
        k <= list.len(),
        after_stmts(cx, h, list, k) is Some,
    ensures
        kept(h, after_stmts(cx, h, list, k)->0),
    decreases list, k,
{
    if k > 0 {
        lemma_stmts_keep(cx, h, list, (k - 1) as nat);
        let h1 = after_stmts(cx, h, list, (k - 1) as nat)->0;
        law_statements_keep_outer_names(cx, h1, list[k - 1]);
    }
}

} // verus!
