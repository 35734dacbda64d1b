//! Laws of evaluation.
use vstd::prelude::*;

use crate::error::Span;
use crate::interp::{
    block, builtin_value, eval_args, expr, for_from, if_chain, scope_of, stmt,
    stmts, Flow, St, World,
};
use crate::ir::{BinOp, Ty};
use crate::tree::{
    Builtin, EBlock, EElse, EExpr, EExprKind, EIf, EStmt, ETarget, SymId,
};
use crate::value::{fnv, Value};

verus! {

/// What every step keeps: lines stay printed, arrays stay where they are with their
/// length, and as many scopes are open as before.
pub open spec fn continues(a: St, b: St) -> bool {
    &&& a.printed.len() <= b.printed.len()
    &&& b.printed.take(a.printed.len() as int) == a.printed
    &&& a.heap.len() <= b.heap.len()
    &&& forall|h: int| 0 <= h < a.heap.len() ==> (#[trigger] b.heap[h]).len() == a.heap[h].len()
    &&& a.scopes.len() == b.scopes.len()
}

/// Continuing twice is continuing.
proof fn lemma_continues_trans(a: St, b: St, c: St)
    requires
        continues(a, b),
        continues(b, c),
    ensures
        continues(a, c),
{
    assert(c.printed.take(a.printed.len() as int) =~= a.printed) by {
        assert forall|i: int| 0 <= i < a.printed.len() implies c.printed[i] == a.printed[i] by {
            assert(b.printed.take(a.printed.len() as int)[i] == b.printed[i]);
            assert(c.printed.take(b.printed.len() as int)[i] == c.printed[i]);
        }
    }
    assert forall|h: int| 0 <= h < a.heap.len() implies (#[trigger] c.heap[h]).len()
        == a.heap[h].len() by {
        assert(b.heap[h].len() == a.heap[h].len());
    }
}

/// Standing still is continuing.
proof fn lemma_continues_same(a: St)
    ensures
        continues(a, a),
{
    assert(a.printed.take(a.printed.len() as int) =~= a.printed);
}

/// Work in a scope of its own leaves as many scopes as before.
proof fn lemma_scoped(s: St, inner: St)
    requires
        continues(s.push(), inner),
    ensures
        continues(s, inner.pop()),
{
}

/// What a function that is always there keeps.
proof fn lemma_builtin(w: World, b: Builtin, vals: Seq<Value>, ty: Ty, span: Span, s: St)
    ensures
        continues(s, builtin_value(w, b, vals, ty, span, s).0),
        builtin_value(w, b, vals, ty, span, s).0.scopes == s.scopes,
{
    lemma_continues_same(s);
    let t = builtin_value(w, b, vals, ty, span, s).0;
    assert(t.printed.take(s.printed.len() as int) =~= s.printed);
}

/// What an expression keeps.
proof fn lemma_expr(w: World, left: nat, e: EExpr, s: St)
    ensures
        continues(s, expr(w, left, e, s).0),
        expr(w, left, e, s).0.scopes == s.scopes,
    decreases left, 0nat, e, 0nat,
{
    lemma_continues_same(s);
    match e.kind {
        EExprKind::Unary(_, o) => {
            lemma_expr(w, left, *o, s);
        },
        EExprKind::Bin(_, l, r) => {
            lemma_expr(w, left, *l, s);
            let s1 = expr(w, left, *l, s).0;
            lemma_expr(w, left, *r, s1);
            lemma_continues_trans(s, s1, expr(w, left, *r, s1).0);
        },
        EExprKind::Index(_, idx) => {
            lemma_expr(w, left, *idx, s);
        },
        EExprKind::Cast(o, _) => {
            lemma_expr(w, left, *o, s);
        },
        EExprKind::Call(ETarget::Builtin(b, args)) => {
            if args@.len() >= crate::interp::arity(b) {
                lemma_args(w, left, args@, crate::interp::arity(b), s);
                let (s1, f) = eval_args(w, left, args@, crate::interp::arity(b), s);
                if let Flow::Done(vals) = f {
                    lemma_builtin(w, b, vals, e.ty, e.span, s1);
                    lemma_continues_trans(
                        s,
                        s1,
                        builtin_value(w, b, vals, e.ty, e.span, s1).0,
                    );
                }
            }
        },
        EExprKind::Call(ETarget::User { idx, args }) => {
            lemma_args(w, left, args@, args@.len(), s);
            let (s1, f) = eval_args(w, left, args@, args@.len(), s);
            if let Flow::Done(vals) = f {
                if left > 0 && idx < w.program.funcs@.len() {
                    let callee = w.program.funcs@[idx as int];
                    let inner = St {
                        scopes: seq![crate::interp::root_scope(w, callee, vals)],
                        ..s1
                    };
                    lemma_block(w, (left - 1) as nat, callee.body, inner);
                    let s2 = block(w, (left - 1) as nat, callee.body, inner).0;
                    let out = St { scopes: s1.scopes, ..s2 };
                    assert(continues(s1, out));
                    lemma_continues_trans(s, s1, out);
                }
            }
        },
        _ => {},
    }
}

/// What the evaluation of arguments keeps.
proof fn lemma_args(w: World, left: nat, args: Seq<EExpr>, k: nat, s: St)
    ensures
        continues(s, eval_args(w, left, args, k, s).0),
        eval_args(w, left, args, k, s).0.scopes == s.scopes,
    decreases left, 0nat, args, k,
{
    lemma_continues_same(s);
    if 0 < k <= args.len() {
        lemma_args(w, left, args, (k - 1) as nat, s);
        let (s1, f) = eval_args(w, left, args, (k - 1) as nat, s);
        if f is Done {
            lemma_expr(w, left, args[k - 1], s1);
            lemma_continues_trans(s, s1, expr(w, left, args[k - 1], s1).0);
        }
    }
}

/// What a block keeps.
proof fn lemma_block(w: World, left: nat, b: EBlock, s: St)
    ensures
        continues(s, block(w, left, b, s).0),
    decreases left, 1nat, b, 0nat,
{
    lemma_stmts(w, left, b.stmts@, b.stmts@.len(), s.push());
    lemma_scoped(s, stmts(w, left, b.stmts@, b.stmts@.len(), s.push()).0);
}

/// What statements keep.
proof fn lemma_stmts(w: World, left: nat, list: Seq<EStmt>, k: nat, s: St)
    ensures
        continues(s, stmts(w, left, list, k, s).0),
    decreases left, 1nat, list, k,
{
    lemma_continues_same(s);
    if 0 < k <= list.len() {
        lemma_stmts(w, left, list, (k - 1) as nat, s);
        let (s1, f) = stmts(w, left, list, (k - 1) as nat, s);
        if f is Done {
            lemma_stmt(w, left, list[k - 1], s1);
            lemma_continues_trans(s, s1, stmt(w, left, list[k - 1], s1).0);
        }
    }
}

/// What binding a variable keeps.
proof fn lemma_bind(s: St, id: SymId, v: Value)
    ensures
        continues(s, s.bind(id, v)),
{
    lemma_continues_same(s);
}

/// What a statement keeps.
proof fn lemma_stmt(w: World, left: nat, t: EStmt, s: St)
    ensures
        continues(s, stmt(w, left, t, s).0),
    decreases left, 1nat, t, 0nat,
{
    lemma_continues_same(s);
    match t {
        EStmt::Let { sym, init } => {
            lemma_expr(w, left, init, s);
            let (s1, f) = expr(w, left, init, s);
            if let Flow::Done(v) = f {
                lemma_bind(s1, sym, v);
                lemma_continues_trans(s, s1, s1.bind(sym, v));
            }
        },
        EStmt::Assign { base, index, value, .. } => match index {
            None => {
                lemma_expr(w, left, value, s);
                let (s1, f) = expr(w, left, value, s);
                if let Flow::Done(v) = f {
                    lemma_continues_same(s1);
                    lemma_scope_of(s1.scopes, base.0, s1.scopes.len());
                    assert(continues(s1, s1.assign(base, v).0));
                    lemma_continues_trans(s, s1, s1.assign(base, v).0);
                }
            },
            Some(idx) => {
                lemma_expr(w, left, *idx, s);
                let s1 = expr(w, left, *idx, s).0;
                lemma_expr(w, left, value, s1);
                let (s2, g) = expr(w, left, value, s1);
                lemma_continues_trans(s, s1, s2);
                let f = crate::interp::integer_of(
                    expr(w, left, *idx, s).1,
                    "array index evaluated to a non-integer"@,
                );
                if let (Flow::Done(i), Flow::Done(v)) = (f, g) {
                    lemma_continues_same(s2);
                    let s3 = s2.store(base, i, v, idx.span).0;
                    assert(continues(s2, s3));
                    lemma_continues_trans(s, s2, s3);
                }
            },
        },
        EStmt::If { cond, then_blk, else_arm } => {
            lemma_expr(w, left, cond, s);
            let s1 = expr(w, left, cond, s).0;
            lemma_block(w, left, then_blk, s1);
            lemma_continues_trans(s, s1, block(w, left, then_blk, s1).0);
            match else_arm {
                None => {},
                Some(EElse::If(inner)) => {
                    lemma_if_chain(w, left, *inner, s1);
                    lemma_continues_trans(s, s1, if_chain(w, left, *inner, s1).0);
                },
                Some(EElse::Block(b2)) => {
                    lemma_block(w, left, b2, s1);
                    lemma_continues_trans(s, s1, block(w, left, b2, s1).0);
                },
            }
        },
        EStmt::For { iv, start, end, body, .. } => {
            lemma_expr(w, left, *start, s);
            let (s1, f) = expr(w, left, *start, s);
            lemma_expr(w, left, *end, s1);
            let (s2, g) = expr(w, left, *end, s1);
            lemma_continues_trans(s, s1, s2);
            let lo = crate::interp::integer_of(f, "range bound evaluated to a non-integer"@);
            let hi = crate::interp::integer_of(g, "range bound evaluated to a non-integer"@);
            if let (Flow::Done(lo), Flow::Done(hi)) = (lo, hi) {
                lemma_for(w, left, iv, body, lo as int, hi as int, s2.push());
                let s3 = for_from(w, left, iv, body, lo as int, hi as int, s2.push()).0;
                lemma_scoped(s2, s3);
                lemma_continues_trans(s, s2, s3.pop());
            }
        },
        EStmt::Return { value, .. } => {
            if let Some(e) = value {
                lemma_expr(w, left, e, s);
            }
        },
        EStmt::Effect(e) => {
            lemma_expr(w, left, e, s);
        },
        EStmt::Nested(b) => {
            lemma_block(w, left, b, s);
        },
    }
}

/// What a loop keeps.
proof fn lemma_for(w: World, left: nat, iv: SymId, body: EBlock, i: int, hi: int, s: St)
    ensures
        continues(s, for_from(w, left, iv, body, i, hi, s).0),
    decreases left, 1nat, body, if i < hi {
        (hi - i) as nat
    } else {
        0nat
    },
{
    lemma_continues_same(s);
    if i < hi {
        let s0 = s.bind(iv, Value::I64(i as i64));
        lemma_bind(s, iv, Value::I64(i as i64));
        lemma_block(w, left, body, s0);
        let (s1, f) = block(w, left, body, s0);
        lemma_continues_trans(s, s0, s1);
        if f is Done {
            lemma_for(w, left, iv, body, i + 1, hi, s1);
            lemma_continues_trans(s, s1, for_from(w, left, iv, body, i + 1, hi, s1).0);
        }
    }
}

/// What an else-if chain keeps.
proof fn lemma_if_chain(w: World, left: nat, c: EIf, s: St)
    ensures
        continues(s, if_chain(w, left, c, s).0),
    decreases left, 1nat, c, 0nat,
{
    lemma_continues_same(s);
    lemma_expr(w, left, c.cond, s);
    let s1 = expr(w, left, c.cond, s).0;
    lemma_block(w, left, c.then_blk, s1);
    lemma_continues_trans(s, s1, block(w, left, c.then_blk, s1).0);
    match c.else_arm {
        None => {},
        Some(EElse::If(inner)) => {
            lemma_if_chain(w, left, *inner, s1);
            lemma_continues_trans(s, s1, if_chain(w, left, *inner, s1).0);
        },
        Some(EElse::Block(b2)) => {
            lemma_block(w, left, b2, s1);
            lemma_continues_trans(s, s1, block(w, left, b2, s1).0);
        },
    }
}

/// Evaluating an expression changes no variable, whatever it calls: callees work in
/// scopes of their own, and only arrays are shared.
pub proof fn law_expressions_change_no_variable(w: World, left: nat, e: EExpr, s: St)
    ensures
        expr(w, left, e, s).0.scopes == s.scopes,
{
    lemma_expr(w, left, e, s);
}

/// Statements never take back a line, never move or resize an array, and leave as many
/// scopes open as before, whether they finish, return or fail.
pub proof fn law_statements_continue(w: World, left: nat, list: Seq<EStmt>, k: nat, s: St)
    ensures
        continues(s, stmts(w, left, list, k, s).0),
{
    lemma_stmts(w, left, list, k, s);
}

/// Where the left side decides, the right side of `&&` and `||` is not evaluated: it can
/// be anything.
pub proof fn law_logical_operators_cut_short(
    w: World,
    left: nat,
    e: EExpr,
    f: EExpr,
    l: Box<EExpr>,
    or: bool,
    s: St,
)
    requires
        e.kind matches EExprKind::Bin(op, x, _) && x == l && op == (if or {
            BinOp::Or
        } else {
            BinOp::And
        }),
        f.kind matches EExprKind::Bin(op, x, _) && x == l && op == (if or {
            BinOp::Or
        } else {
            BinOp::And
        }),
        expr(w, left, *l, s).1 == Flow::Done(Value::Bool(or)),
    ensures
        expr(w, left, e, s) == expr(w, left, f, s),
        expr(w, left, e, s) == (expr(w, left, *l, s).0, Flow::Done(Value::Bool(or))),
{
}

/// Assignment reaches the innermost scope that binds the variable, which is where it is
/// read: it is read back, and other variables keep their values.
pub proof fn law_assignments_are_read_back(s: St, id: SymId, v: Value, other: SymId)
    requires
        s.lookup(id) is Done,
        other != id,
    ensures
        s.assign(id, v).0.lookup(id) == Flow::Done(v),
        s.assign(id, v).0.lookup(other) == s.lookup(other),
{
    let k = scope_of(s.scopes, id.0, s.scopes.len())->0;
    lemma_scope_of(s.scopes, id.0, s.scopes.len());
    let t = s.assign(id, v).0;
    lemma_scope_same(s.scopes, t.scopes, id.0, s.scopes.len());
    lemma_scope_same(s.scopes, t.scopes, other.0, s.scopes.len());
    if let Some(j) = scope_of(s.scopes, other.0, s.scopes.len()) {
        lemma_scope_of(s.scopes, other.0, s.scopes.len());
    }
}

/// The scope that is found binds the symbol.
proof fn lemma_scope_of(scopes: Seq<Map<u32, Value>>, id: u32, k: nat)
    requires
        k <= scopes.len(),
    ensures
        scope_of(scopes, id, k) matches Some(j) ==> 0 <= j < k && scopes[j].dom().contains(id),
    decreases k,
{
    if k > 0 {
        lemma_scope_of(scopes, id, (k - 1) as nat);
    }
}

/// Only what is bound decides which scope is found.
proof fn lemma_scope_same(a: Seq<Map<u32, Value>>, b: Seq<Map<u32, Value>>, id: u32, k: nat)
    requires
        k <= a.len() == b.len(),
        forall|j: int| 0 <= j < k ==> a[j].dom().contains(id) == b[j].dom().contains(id),
    ensures
        scope_of(a, id, k) == scope_of(b, id, k),
    decreases k,
{
    if k > 0 {
        lemma_scope_same(a, b, id, (k - 1) as nat);
    }
}

// ---------------------------------------------------------------------------
// The checksum
// ---------------------------------------------------------------------------

/// The bytes of lines, each with its newline.
pub open spec fn stream(lines: Seq<Seq<u8>>) -> Seq<u8>
    decreases lines.len(),
{
    if lines.len() == 0 {
        seq![]
    } else {
        stream(lines.drop_last()) + lines.last() + seq![10u8]
    }
}

/// The checksum takes bytes one after another.
proof fn lemma_fnv_append(h: u64, a: Seq<u8>, b: Seq<u8>)
    ensures
        fnv(h, a + b) == fnv(fnv(h, a), b),
    decreases a.len(),
{
    if a.len() == 0 {
        assert(a + b =~= b);
    } else {
        assert((a + b)[0] == a[0]);
        assert((a + b).skip(1) =~= a.skip(1) + b);
        lemma_fnv_append(crate::value::fnv_step(h, a[0]), a.skip(1), b);
    }
}

/// A printed line enters the checksum as its bytes and a newline.
pub proof fn law_lines_enter_the_checksum(s: St, lines: Seq<Seq<u8>>, line: Seq<char>, start: u64)
    requires
        s.checksum == fnv(start, stream(lines)),
    ensures
        s.print(line).checksum == fnv(
            start,
            stream(lines.push(vstd::utf8::encode_utf8(line))),
        ),
{
    let b = vstd::utf8::encode_utf8(line);
    assert(lines.push(b).drop_last() =~= lines);
    lemma_fnv_append(start, stream(lines) + b, seq![10u8]);
    lemma_fnv_append(start, stream(lines), b);
}

/// Where lines end is part of what the checksum is taken of: lines without newlines
/// inside that give the same bytes are the same lines.
pub proof fn law_line_ends_count(a: Seq<Seq<u8>>, b: Seq<Seq<u8>>)
    requires
        forall|i: int, k: int|
            0 <= i < a.len() && 0 <= k < a[i].len() ==> #[trigger] a[i][k] != 10,
        forall|i: int, k: int|
            0 <= i < b.len() && 0 <= k < b[i].len() ==> #[trigger] b[i][k] != 10,
        stream(a) == stream(b),
    ensures
        a == b,
    decreases a.len(),
{
    if a.len() == 0 {
        if b.len() > 0 {
            assert(stream(b).len() > 0);
        }
        assert(a =~= b);
    } else if b.len() == 0 {
        assert(stream(a).len() > 0);
    } else {
        let sa = stream(a.drop_last());
        let sb = stream(b.drop_last());
        let x = a.last();
        let y = b.last();
        let all = stream(a);
        assert(all == sa + x + seq![10u8]);
        assert(all == sb + y + seq![10u8]);
        lemma_stream_end(a.drop_last());
        lemma_stream_end(b.drop_last());
        if sa.len() < sb.len() {
            let k = sb.len() - 1;
            assert(all[k] == sb[k]);
            assert(all[k] == x[k - sa.len()]);
            assert(a[a.len() - 1][k - sa.len()] != 10);
        } else if sb.len() < sa.len() {
            let k = sa.len() - 1;
            assert(all[k] == sa[k]);
            assert(all[k] == y[k - sb.len()]);
            assert(b[b.len() - 1][k - sb.len()] != 10);
        }
        assert(sa.len() == sb.len());
        assert(sa =~= all.take(sa.len() as int));
        assert(sb =~= all.take(sa.len() as int));
        assert(x =~= all.subrange(sa.len() as int, all.len() - 1));
        assert(y =~= all.subrange(sa.len() as int, all.len() - 1));
        assert forall|i: int, k: int|
            0 <= i < a.drop_last().len() && 0 <= k < a.drop_last()[i].len() implies #[trigger] a.drop_last()[i][k]
            != 10 by {
            assert(a[i][k] != 10);
        }
        assert forall|i: int, k: int|
            0 <= i < b.drop_last().len() && 0 <= k < b.drop_last()[i].len() implies #[trigger] b.drop_last()[i][k]
            != 10 by {
            assert(b[i][k] != 10);
        }
        law_line_ends_count(a.drop_last(), b.drop_last());
        assert(a =~= a.drop_last().push(x));
        assert(b =~= b.drop_last().push(y));
    }
}

/// Bytes of lines end in a newline.
proof fn lemma_stream_end(lines: Seq<Seq<u8>>)
    ensures
        stream(lines).len() > 0 ==> stream(lines).last() == 10,
{
}

} // verus!
