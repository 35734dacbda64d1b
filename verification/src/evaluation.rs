//! What programs do when they are evaluated: loops run through their range, elements are read
//! back as they were written, and statements follow one another.
use vstd::prelude::*;

use crate::error::{KindV, Span};
use crate::interp::{block, expr, for_from, stmt, stmts, Flow, St, World};
use crate::ir::{ElemTy, Ty};
use crate::tree::{EBlock, EElse, EStmt, SymId};
use crate::value::Value;

verus! {

/// A loop runs through the first part of its range and then, where that ends without a
/// return or an error, through the rest.
pub proof fn law_loops_run_part_by_part(
    w: World,
    left: nat,
    iv: SymId,
    body: EBlock,
    lo: int,
    mid: int,
    hi: int,
    s: St,
)
    requires
        lo <= mid <= hi,
    ensures
        ({
            let (s1, f) = for_from(w, left, iv, body, lo, mid, s);
            match f {
                Flow::Done(_) => for_from(w, left, iv, body, lo, hi, s) == for_from(
                    w,
                    left,
                    iv,
                    body,
                    mid,
                    hi,
                    s1,
                ),
                _ => for_from(w, left, iv, body, lo, hi, s) == (s1, f),
            }
        }),
    decreases mid - lo,
{
    if lo < mid {
        let (s1, f) = block(w, left, body, s.bind(iv, Value::I64(lo as i64)));
        if f is Done {
            law_loops_run_part_by_part(w, left, iv, body, lo + 1, mid, hi, s1);
        }
    }
}

/// A loop over one number runs its body once, with the number bound to its variable; a loop
/// whose range is empty runs nothing.
pub proof fn law_loops_run_their_body(
    w: World,
    left: nat,
    iv: SymId,
    body: EBlock,
    i: int,
    hi: int,
    s: St,
)
    ensures
        for_from(w, left, iv, body, i, i + 1, s) == block(
            w,
            left,
            body,
            s.bind(iv, Value::I64(i as i64)),
        ),
        hi <= i ==> for_from(w, left, iv, body, i, hi, s) == (s, Flow::<()>::Done(())),
{
    let (s1, f) = block(w, left, body, s.bind(iv, Value::I64(i as i64)));
    assert(for_from(w, left, iv, body, i + 1, i + 1, s1) == (s1, Flow::<()>::Done(())));
    if let Flow::Done(u) = f {
        assert(u == ());
        assert(f == Flow::<()>::Done(()));
    }
}

/// A `for` statement evaluates its bounds, the start first, and runs through the numbers from
/// the start up to before the end, at full width, in a scope of its own.
pub proof fn law_for_statements_run_their_range(
    w: World,
    left: nat,
    t: EStmt,
    s: St,
    lo: i64,
    hi: i64,
)
    requires
        t is For,
        expr(w, left, *t->For_start, s).1 matches Flow::Done(v) && (v == Value::I64(lo) || (v
            matches Value::I32(x) && x == lo)),
        expr(w, left, *t->For_end, expr(w, left, *t->For_start, s).0).1 matches Flow::Done(v) && (v
            == Value::I64(hi) || (v matches Value::I32(x) && x == hi)),
    ensures
        ({
            let s2 = expr(w, left, *t->For_end, expr(w, left, *t->For_start, s).0).0;
            let (s3, f) = for_from(
                w,
                left,
                t->For_iv,
                t->For_body,
                lo as int,
                hi as int,
                s2.push(),
            );
            stmt(w, left, t, s) == (s3.pop(), f)
        }),
{
}

/// Statements follow one another: the first `j` of them run, and then, where they end without
/// a return or an error, the others do.
pub proof fn law_statements_follow_one_another(
    w: World,
    left: nat,
    list: Seq<EStmt>,
    k: nat,
    s: St,
)
    requires
        k < list.len(),
    ensures
        stmts(w, left, list, 0, s) == (s, Flow::<()>::Done(())),
        stmts(w, left, list, k, s).1 is Done ==> stmts(w, left, list, k + 1, s) == stmt(
            w,
            left,
            list[k as int],
            stmts(w, left, list, k, s).0,
        ),
        !(stmts(w, left, list, k, s).1 is Done) ==> stmts(w, left, list, k + 1, s) == stmts(
            w,
            left,
            list,
            k,
            s,
        ),
{
}

/// A condition chooses one of two blocks, and the other is not run.
pub proof fn law_conditions_choose(w: World, left: nat, t: EStmt, s: St, b: bool)
    requires
        t is If,
        expr(w, left, t->If_cond, s).1 == Flow::Done(Value::Bool(b)),
    ensures
        b ==> stmt(w, left, t, s) == block(w, left, t->then_blk, expr(w, left, t->If_cond, s).0),
        !b && t->else_arm is None ==> stmt(w, left, t, s) == (
            expr(w, left, t->If_cond, s).0,
            Flow::<()>::Done(()),
        ),
        !b ==> (t->else_arm matches Some(EElse::Block(c)) ==> stmt(w, left, t, s) == block(
            w,
            left,
            c,
            expr(w, left, t->If_cond, s).0,
        )),
{
}

/// An element that is written is read back; every other element of every array stays as it
/// is, and so do all variables and all that was printed. Outside the array nothing is
/// written, and both reading and writing end with the error that names the length and the
/// index.
pub proof fn law_elements_are_read_back(
    s: St,
    base: SymId,
    i: i64,
    x: Value,
    span: Span,
    h: usize,
)
    requires
        s.lookup(base) == Flow::Done(Value::Array(h)),
        h < s.heap.len(),
        s.heap[h as int].len() <= usize::MAX,
    ensures
        ({
            let (t, f) = s.store(base, i, x, span);
            let n = s.heap[h as int].len();
            if 0 <= i < n {
                &&& f is Done
                &&& t.load(base, i, span) == Flow::Done(x)
                &&& forall|j: i64|
                    0 <= j < n && j != i ==> #[trigger] t.load(base, j, span) == s.load(
                        base,
                        j,
                        span,
                    )
                &&& forall|g: int|
                    0 <= g < s.heap.len() && g != h ==> #[trigger] t.heap[g] == s.heap[g]
                &&& t.heap.len() == s.heap.len()
                &&& t.scopes == s.scopes && t.printed == s.printed && t.checksum == s.checksum
            } else {
                &&& t == s
                &&& f == Flow::<()>::Fail(KindV::Bounds { len: n as usize, idx: i }, span)
                &&& s.load(base, i, span) == Flow::<Value>::Fail(
                    KindV::Bounds { len: n as usize, idx: i },
                    span,
                )
            }
        }),
{
    let (t, f) = s.store(base, i, x, span);
    assert(t.lookup(base) == s.lookup(base));
}

/// `zeros` makes an array that was not there, of the length that is asked for, in which every
/// element is zero, and leaves all others; of a negative length it makes none, and that is
/// the error. `len` is the length of an array.
pub proof fn law_arrays_begin_as_zeros(s: St, n: i64, e: ElemTy, span: Span)
    requires
        s.heap.len() <= usize::MAX,
    ensures
        n < 0 ==> s.zeros(n, Ty::Array(e), span) == (
            s,
            Flow::<Value>::Fail(KindV::NegativeZeros { n }, span),
        ),
        0 <= n <= usize::MAX ==> {
            let (t, f) = s.zeros(n, Ty::Array(e), span);
            let h = s.heap.len();
            &&& f == Flow::Done(Value::Array(h as usize))
            &&& t.heap.len() == h + 1
            &&& t.heap[h as int].len() == n
            &&& forall|i: int|
                0 <= i < n ==> #[trigger] t.heap[h as int][i] == (match e {
                    ElemTy::I32 => Value::I32(0),
                    ElemTy::I64 => Value::I64(0),
                    ElemTy::F32 => Value::F32(0),
                    ElemTy::F64 => Value::F64(0),
                    ElemTy::Bool => Value::Bool(false),
                })
            &&& forall|g: int| 0 <= g < h ==> #[trigger] t.heap[g] == s.heap[g]
            &&& t.scopes == s.scopes && t.printed == s.printed
            &&& h <= usize::MAX - 1 ==> t.length(Value::Array(h as usize)) == Flow::Done(
                Value::I64(n),
            )
        },
{
}

/// A symbol that is bound in the innermost scope is read back until the scope is left, and
/// then what it was before.
pub proof fn law_bindings_end_with_their_scope(s: St, id: SymId, v: Value)
    requires
        s.scopes.len() > 0,
    ensures
        s.bind(id, v).lookup(id) == Flow::Done(v),
        s.push().bind(id, v).lookup(id) == Flow::Done(v),
        s.push().bind(id, v).pop() == s,
{
    let t = s.push().bind(id, v);
    assert(t.scopes.len() == s.scopes.len() + 1);
    assert(t.pop().scopes =~= s.scopes);
}

} // verus!
