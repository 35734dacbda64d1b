//! What expressions and calls evaluate to, and what single statements change.
use vstd::prelude::*;

use crate::error::{KindV, Span};
use crate::interp::{
    bind_consts, bind_params, binary_value, block, cast_value, eval_args, expr, fn_named,
    root_scope, run_main, scope_of, stmt, stmts, unary_value, Flow, St, World,
};
use crate::interp_laws::{law_assignments_are_read_back, law_expressions_change_no_variable};
use crate::ir::{BinOp, Ty, UnOp};
use crate::search::{lemma_first_where_is, lemma_first_where_none};
use crate::tree::{Builtin, EExpr, EExprKind, EStmt, ETarget, SymId, TypedConstDef};
use crate::value::{ConstLit, Value};

verus! {

/// Both sides of an operator are evaluated, the left one first, and the operator is applied
/// to what they gave. Where the left side stops, the right one is not evaluated.
pub proof fn law_operands_come_from_left_to_right(
    w: World,
    left: nat,
    e: EExpr,
    op: BinOp,
    l: Box<EExpr>,
    r: Box<EExpr>,
    s: St,
)
    requires
        e.kind == EExprKind::Bin(op, l, r),
        op != BinOp::And && op != BinOp::Or,
    ensures
        expr(w, left, *l, s).1 is Fail ==> expr(w, left, e, s) == expr(w, left, *l, s),
        expr(w, left, *l, s).1 matches Flow::Done(x) ==> {
            let s1 = expr(w, left, *l, s).0;
            let (s2, g) = expr(w, left, *r, s1);
            &&& g is Fail ==> expr(w, left, e, s) == (s2, g)
            &&& g matches Flow::Done(y) ==> expr(w, left, e, s) == (
                s2,
                binary_value(w.floats, op, x, y, e.span),
            )
        },
{
}

/// The operand of an operator or a conversion is evaluated, and the operator is applied to
/// what it gave; an index is evaluated, and the element there is read.
pub proof fn law_operands_are_evaluated_first(
    w: World,
    left: nat,
    e: EExpr,
    o: Box<EExpr>,
    op: UnOp,
    to: Ty,
    base: SymId,
    s: St,
    v: Value,
)
    requires
        expr(w, left, *o, s).1 == Flow::Done(v),
    ensures
        e.kind == EExprKind::Unary(op, o) ==> expr(w, left, e, s) == (
            expr(w, left, *o, s).0,
            unary_value(w.floats, op, v),
        ),
        e.kind == EExprKind::Cast(o, to) ==> expr(w, left, e, s) == (
            expr(w, left, *o, s).0,
            Flow::Done(cast_value(w.floats, v, to)),
        ),
        e.kind == EExprKind::Index(base, o) ==> forall|i: i64|
            v == Value::I64(i) ==> #[trigger] expr(w, left, *o, s).0.load(base, i, o.span) == expr(
                w,
                left,
                e,
                s,
            ).1 && expr(w, left, e, s).0 == expr(w, left, *o, s).0,
{
}

/// Arguments are evaluated one after another: each gives its value in the state that those
/// before it left.
pub proof fn law_arguments_come_in_order(
    w: World,
    left: nat,
    args: Seq<EExpr>,
    k: nat,
    s: St,
    j: nat,
)
    requires
        j < k <= args.len(),
        eval_args(w, left, args, k, s).1 is Done,
    ensures
        eval_args(w, left, args, 0, s).0 == s,
        eval_args(w, left, args, k, s).1->Done_0.len() == k,
        eval_args(w, left, args, j, s).1 is Done,
        expr(w, left, args[j as int], eval_args(w, left, args, j, s).0) == (
            eval_args(w, left, args, j + 1, s).0,
            Flow::Done(eval_args(w, left, args, k, s).1->Done_0[j as int]),
        ),
    decreases k,
{
    if k > 1 {
        let before = (k - 1) as nat;
        assert(eval_args(w, left, args, before, s).1 is Done);
        if j < before {
            law_arguments_come_in_order(w, left, args, before, s, j);
        } else {
            law_arguments_come_in_order(w, left, args, before, s, 0);
        }
    }
}

/// The parameters that are bound.
proof fn lemma_params(params: Seq<(SymId, Ty)>, vals: Seq<Value>, k: nat)
    requires
        k <= params.len(),
        forall|i: int, j: int|
            0 <= i < j < params.len() ==> (#[trigger] params[i]).0 != (#[trigger] params[j]).0,
    ensures
        forall|j: int|
            0 <= j < k ==> bind_params(params, vals, k).dom().contains(
                ((#[trigger] params[j]).0).0,
            ) && bind_params(params, vals, k)[(params[j].0).0] == vals[j],
    decreases k,
{
    if k > 0 {
        lemma_params(params, vals, (k - 1) as nat);
        assert forall|j: int| 0 <= j < k implies bind_params(params, vals, k).dom().contains(
            ((#[trigger] params[j]).0).0,
        ) && bind_params(params, vals, k)[(params[j].0).0] == vals[j] by {
            if j < k - 1 {
                assert(params[j].0 != params[k - 1].0);
            }
        }
    }
}

/// The constants that are bound.
proof fn lemma_consts(w: World, root: Map<u32, Value>, consts: Seq<TypedConstDef>, k: nat, id: u32)
    requires
        k <= consts.len(),
        forall|i: int, j: int|
            0 <= i < j < consts.len() ==> (#[trigger] consts[i]).sym != (#[trigger] consts[j]).sym,
    ensures
        forall|j: int|
            0 <= j < k ==> bind_consts(w.floats, root, consts, k).dom().contains(
                (#[trigger] consts[j]).sym.0,
            ) && bind_consts(w.floats, root, consts, k)[consts[j].sym.0] == Value::const_value(
                w.floats,
                consts[j].value,
                consts[j].ty,
            ),
        (forall|j: int| 0 <= j < k ==> (#[trigger] consts[j]).sym.0 != id) ==> {
            &&& bind_consts(w.floats, root, consts, k).dom().contains(id) == root.dom().contains(id)
            &&& bind_consts(w.floats, root, consts, k)[id] == root[id]
        },
    decreases k,
{
    if k > 0 {
        lemma_consts(w, root, consts, (k - 1) as nat, id);
        let all = bind_consts(w.floats, root, consts, k);
        assert forall|j: int| 0 <= j < k implies all.dom().contains((#[trigger] consts[j]).sym.0)
            && all[consts[j].sym.0] == Value::const_value(
            w.floats,
            consts[j].value,
            consts[j].ty,
        ) by {
            if j < k - 1 {
                assert(consts[j].sym != consts[k - 1].sym);
            }
        }
    }
}

/// A function begins with each of its parameters bound to the argument at its place, and with
/// each constant of the program bound to its value.
pub proof fn law_functions_begin_with_their_arguments(
    w: World,
    idx: int,
    vals: Seq<Value>,
    p: int,
    c: int,
)
    requires
        0 <= idx < w.program.funcs@.len(),
        forall|i: int, j: int|
            0 <= i < j < w.program.funcs@[idx].params@.len() ==> (
            #[trigger] w.program.funcs@[idx].params@[i]).0 != (
            #[trigger] w.program.funcs@[idx].params@[j]).0,
        forall|i: int, j: int|
            0 <= i < j < w.program.consts@.len() ==> (#[trigger] w.program.consts@[i]).sym != (
            #[trigger] w.program.consts@[j]).sym,
        forall|i: int, j: int|
            0 <= i < w.program.funcs@[idx].params@.len() && 0 <= j < w.program.consts@.len() ==> (
            #[trigger] w.program.funcs@[idx].params@[i]).0 != (
            #[trigger] w.program.consts@[j]).sym,
    ensures
        0 <= p < w.program.funcs@[idx].params@.len() ==> {
            let root = root_scope(w, w.program.funcs@[idx], vals);
            let id = (w.program.funcs@[idx].params@[p].0).0;
            root.dom().contains(id) && root[id] == vals[p]
        },
        0 <= c < w.program.consts@.len() ==> {
            let root = root_scope(w, w.program.funcs@[idx], vals);
            let k = w.program.consts@[c];
            &&& root.dom().contains(k.sym.0)
            &&& k.value matches ConstLit::Int(v) ==> k.ty == Ty::I64 ==> root[k.sym.0]
                == Value::I64(v)
            &&& k.value matches ConstLit::Int(v) ==> k.ty == Ty::I32 && i32::MIN <= v <= i32::MAX
                ==> root[k.sym.0] == Value::I32(v as i32)
            &&& k.value matches ConstLit::Bool(b) ==> root[k.sym.0] == Value::Bool(b)
        },
{
    let f = w.program.funcs@[idx];
    let params = f.params@;
    let consts = w.program.consts@;
    lemma_params(params, vals, params.len());
    let root = bind_params(params, vals, params.len());
    if 0 <= p < params.len() {
        let id = (params[p].0).0;
        assert forall|j: int| 0 <= j < consts.len() implies (#[trigger] consts[j]).sym.0 != id by {
            assert(w.program.funcs@[idx].params@[p].0 != w.program.consts@[j].sym);
        }
        lemma_consts(w, root, consts, consts.len(), id);
    }
    lemma_consts(w, root, consts, consts.len(), 0);
}

/// A call evaluates its arguments and runs its function on them: what the function returns is
/// its value, and a function that ends without a `return` has none. Errors come through. Of
/// the caller no variable changes; what was printed and what stands in arrays is what the
/// function left.
pub proof fn law_calls_run_their_function(
    w: World,
    left: nat,
    e: EExpr,
    idx: u32,
    args: Vec<EExpr>,
    s: St,
    vals: Seq<Value>,
)
    requires
        e.kind == EExprKind::Call(ETarget::User { idx, args }),
        idx < w.program.funcs@.len(),
        eval_args(w, left, args@, args@.len(), s).1 == Flow::Done(vals),
        vals.len() == w.program.funcs@[idx as int].params@.len(),
        left > 0,
    ensures
        ({
            let s1 = eval_args(w, left, args@, args@.len(), s).0;
            let f = w.program.funcs@[idx as int];
            let (s2, g) = block(
                w,
                (left - 1) as nat,
                f.body,
                St { scopes: seq![root_scope(w, f, vals)], ..s1 },
            );
            let (t, r) = expr(w, left, e, s);
            &&& t.scopes == s.scopes
            &&& t.heap == s2.heap && t.printed == s2.printed && t.checksum == s2.checksum
            &&& g matches Flow::Return(v) ==> r == Flow::Done(v)
            &&& g is Done ==> r == Flow::Done(Value::Unit)
            &&& g matches Flow::Fail(k, at) ==> r == Flow::<Value>::Fail(k, at)
        }),
{
    law_expressions_change_no_variable(w, left, e, s);
}

/// A call that would nest too deeply ends with that error, at the call.
pub proof fn law_calls_nest_only_so_deep(
    w: World,
    e: EExpr,
    idx: u32,
    args: Vec<EExpr>,
    s: St,
    vals: Seq<Value>,
)
    requires
        e.kind == EExprKind::Call(ETarget::User { idx, args }),
        idx < w.program.funcs@.len(),
        eval_args(w, 0, args@, args@.len(), s).1 == Flow::Done(vals),
        vals.len() == w.program.funcs@[idx as int].params@.len(),
    ensures
        expr(w, 0, e, s).1 == Flow::<Value>::Fail(KindV::StackExhausted, e.span),
{
}

/// What is printed is one line more, that of the value, and nothing else changes but the
/// checksum.
pub proof fn law_print_adds_a_line(
    w: World,
    left: nat,
    e: EExpr,
    args: Vec<EExpr>,
    s: St,
    v: Value,
)
    requires
        e.kind == EExprKind::Call(ETarget::Builtin(Builtin::Print, args)),
        args@.len() == 1,
        expr(w, left, args@[0], s).1 == Flow::Done(v),
    ensures
        ({
            let s1 = expr(w, left, args@[0], s).0;
            let (t, r) = expr(w, left, e, s);
            &&& r == Flow::Done(Value::Unit)
            &&& t.printed == s1.printed.push(v.printed(w.floats))
            &&& t.heap == s1.heap
            &&& t.scopes == s.scopes
        }),
{
    law_expressions_change_no_variable(w, left, args@[0], s);
    reveal_with_fuel(eval_args, 2);
    assert(eval_args(w, left, args@, 0, s) == (s, Flow::Done(Seq::<Value>::empty())));
    assert(eval_args(w, left, args@, 1, s).1 == Flow::Done(Seq::<Value>::empty().push(v)));
}

/// The innermost scope does not bind the symbol: others decide.
proof fn lemma_other_binding(s: St, id: SymId, v: Value, other: SymId)
    requires
        s.scopes.len() > 0,
        other != id,
    ensures
        s.bind(id, v).lookup(other) == s.lookup(other),
{
    let t = s.bind(id, v);
    let n = s.scopes.len();
    lemma_same_scope(s.scopes, t.scopes, other.0, n);
}

/// Scopes that bind the same symbols are searched alike.
proof fn lemma_same_scope(a: Seq<Map<u32, Value>>, b: Seq<Map<u32, Value>>, id: u32, k: nat)
    requires
        k <= a.len() == b.len(),
        forall|j: int| 0 <= j < k ==> (#[trigger] a[j]).dom().contains(id) == b[j].dom().contains(id),
    ensures
        scope_of(a, id, k) == scope_of(b, id, k),
        scope_of(a, id, k) matches Some(j) ==> 0 <= j < k && a[j].dom().contains(id),
    decreases k,
{
    if k > 0 {
        assert(a[k - 1].dom().contains(id) == b[k - 1].dom().contains(id));
        lemma_same_scope(a, b, id, (k - 1) as nat);
    }
}

/// A `let` evaluates its right side and binds the variable to it; other variables stay.
pub proof fn law_lets_bind_their_variable(
    w: World,
    left: nat,
    sym: SymId,
    init: EExpr,
    s: St,
    other: SymId,
)
    requires
        s.scopes.len() > 0,
        other != sym,
    ensures
        ({
            let (s1, f) = expr(w, left, init, s);
            let (t, r) = stmt(w, left, EStmt::Let { sym, init }, s);
            &&& f matches Flow::Done(v) ==> r is Done && t.lookup(sym) == Flow::Done(v)
                && t.lookup(other) == s.lookup(other) && t.heap == s1.heap && t.printed
                == s1.printed
            &&& f matches Flow::Fail(k, at) ==> t == s1 && r == Flow::<()>::Fail(k, at)
        }),
{
    law_expressions_change_no_variable(w, left, init, s);
    let (s1, f) = expr(w, left, init, s);
    match f {
        Flow::Done(v) => {
            lemma_other_binding(s1, sym, v, other);
            crate::evaluation::law_bindings_end_with_their_scope(s1, sym, v);
        },
        _ => {},
    }
}

/// An assignment evaluates its right side and gives it to the variable where it is bound;
/// other variables stay.
pub proof fn law_assignments_reach_their_variable(
    w: World,
    left: nat,
    base: SymId,
    value: EExpr,
    span: Span,
    s: St,
    other: SymId,
)
    requires
        s.lookup(base) is Done,
        other != base,
    ensures
        ({
            let (s1, f) = expr(w, left, value, s);
            let (t, r) = stmt(w, left, EStmt::Assign { base, index: None, value, span }, s);
            &&& f matches Flow::Done(v) ==> r is Done && t.lookup(base) == Flow::Done(v)
                && t.lookup(other) == s.lookup(other) && t.heap == s1.heap && t.printed
                == s1.printed
            &&& f matches Flow::Fail(k, at) ==> t == s1 && r == Flow::<()>::Fail(k, at)
        }),
{
    law_expressions_change_no_variable(w, left, value, s);
    let (s1, f) = expr(w, left, value, s);
    assert(s1.lookup(base) == s.lookup(base));
    assert(s1.lookup(other) == s.lookup(other));
    match f {
        Flow::Done(v) => {
            law_assignments_are_read_back(s1, base, v, other);
        },
        _ => {},
    }
}

/// An element is assigned after its index and then its value were evaluated.
pub proof fn law_element_assignments_evaluate_the_index_first(
    w: World,
    left: nat,
    base: SymId,
    idx: Box<EExpr>,
    value: EExpr,
    span: Span,
    s: St,
    i: i64,
    v: Value,
)
    requires
        expr(w, left, *idx, s).1 == Flow::Done(Value::I64(i)),
        expr(w, left, value, expr(w, left, *idx, s).0).1 == Flow::Done(v),
    ensures
        stmt(w, left, EStmt::Assign { base, index: Some(idx), value, span }, s) == expr(
            w,
            left,
            value,
            expr(w, left, *idx, s).0,
        ).0.store(base, i, v, idx.span),
{
}

/// A `return` evaluates its value and leaves with it; an expression that stands alone is
/// evaluated for what it does.
pub proof fn law_returns_leave_with_their_value(
    w: World,
    left: nat,
    e: EExpr,
    span: Span,
    s: St,
    v: Value,
)
    requires
        expr(w, left, e, s).1 == Flow::Done(v),
    ensures
        stmt(w, left, EStmt::Return { value: Some(e), span }, s) == (
            expr(w, left, e, s).0,
            Flow::<()>::Return(v),
        ),
        stmt(w, left, EStmt::Return { value: None, span }, s) == (
            s,
            Flow::<()>::Return(Value::Unit),
        ),
        stmt(w, left, EStmt::Effect(e), s) == (expr(w, left, e, s).0, Flow::Done(())),
{
}

/// A program runs the statements of its first function called `main`, with nothing printed
/// and no array made before, and prints what they print; calls may
/// nest two thousand deep. It fails exactly where they fail, and
/// where there is no such function.
pub proof fn law_programs_run_their_main(w: World, m: int)
    ensures
        (forall|j: int|
            0 <= j < w.program.funcs@.len() ==> (#[trigger] w.program.funcs@[j]).name@ != "main"@)
            ==> run_main(w).end is Err,
        0 <= m < w.program.funcs@.len() && w.program.funcs@[m].name@ == "main"@ && (forall|j: int|
            0 <= j < m ==> (#[trigger] w.program.funcs@[j]).name@ != "main"@) ==> {
            let body = w.program.funcs@[m].body.stmts@;
            let start = St {
                scopes: seq![
                    bind_consts(
                        w.floats,
                        Map::empty(),
                        w.program.consts@,
                        w.program.consts@.len(),
                    ),
                ],
                heap: seq![],
                printed: seq![],
                checksum: 0xcbf2_9ce4_8422_2325,
            };
            let (t, f) = stmts(w, 2000, body, body.len(), start);
            &&& run_main(w).printed == t.printed
            &&& f matches Flow::Fail(k, at) ==> run_main(w).end == Err::<u64, (KindV, Span)>((k, at))
            &&& !(f is Fail) ==> run_main(w).end is Ok
        },
{
    let p = fn_named("main"@);
    let fs = w.program.funcs@;
    if forall|j: int| 0 <= j < fs.len() ==> (#[trigger] fs[j]).name@ != "main"@ {
        assert forall|j: int| 0 <= j < fs.len() implies !p(#[trigger] fs[j]) by {}
        lemma_first_where_none(fs, p);
    }
    if 0 <= m < fs.len() && fs[m].name@ == "main"@ && (forall|j: int|
        0 <= j < m ==> (#[trigger] fs[j]).name@ != "main"@) {
        assert forall|j: int| 0 <= j < m implies !p(#[trigger] fs[j]) by {}
        assert(p(fs[m]));
        lemma_first_where_is(fs, p, m);
    }
}

} // verus!
