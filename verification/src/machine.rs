//! What lowered code does: laws about guards, edges and parameters.
use vstd::prelude::*;

use crate::clif::{BinaryOp, ClifInstV, ClifTy, IntCond, OpV, Val};
use crate::ir::{BlockId, Ty};
use crate::lower::{blank, least_of, Low};
use crate::traps::{BOUNDS, DIV_BY_ZERO, DIV_OVERFLOW};

verus! {

/// The comparison holds.
pub open spec fn holds(c: IntCond, a: int, b: int) -> bool {
    match c {
        IntCond::Equal => a == b,
        IntCond::NotEqual => a != b,
        IntCond::LessThan => a < b,
        IntCond::GreaterThanOrEqual => a >= b,
        IntCond::GreaterThan => a > b,
        IntCond::LessThanOrEqual => a <= b,
    }
}

/// What an instruction of a guard computes, where `env` gives the value of every machine
/// value. Conjunction and disjunction are those of truth values.
pub open spec fn computed(op: OpV, env: Map<usize, int>) -> int {
    match op {
        OpV::Iconst(_, n) => n as int,
        OpV::IntCompare(c, x, y) => if holds(c, env[x.0], env[y.0]) {
            1
        } else {
            0
        },
        OpV::Binary(BinaryOp::Band, x, y) => if env[x.0] != 0 && env[y.0] != 0 {
            1
        } else {
            0
        },
        OpV::Binary(BinaryOp::Bor, x, y) => if env[x.0] != 0 || env[y.0] != 0 {
            1
        } else {
            0
        },
        OpV::Select(c, x, y) => if env[c.0] != 0 {
            env[x.0]
        } else {
            env[y.0]
        },
        _ => 0,
    }
}

/// The values after the first `k` instructions.
pub open spec fn after(env: Map<usize, int>, code: Seq<ClifInstV>, k: nat) -> Map<usize, int>
    decreases k,
{
    if k == 0 {
        env
    } else {
        let before = after(env, code, (k - 1) as nat);
        before.insert(code[k - 1].first, computed(code[k - 1].op, before))
    }
}

/// The instructions that block `b` got between two states.
pub open spec fn added(a: Low, b: Low, block: usize) -> Seq<ClifInstV> {
    b.blocks[block as int].insts.skip(a.blocks[block as int].insts.len() as int)
}

/// Numbers for the values and blocks of a few more instructions are left.
pub open spec fn roomy(l: Low) -> bool {
    l.tys.len() + 32 <= usize::MAX && l.blocks.len() + 32 <= usize::MAX
}

/// Appending leaves the code before it and adds one instruction.
proof fn lemma_put(l: Low, start: Low, op: OpV, t: ClifTy, code: Seq<ClifInstV>)
    requires
        l.wf(),
        l.cur == start.cur,
        (start.cur as int) < start.blocks.len(),
        l.blocks.len() == start.blocks.len(),
        start.blocks[start.cur as int].insts.len() <= l.blocks[start.cur as int].insts.len(),
        added(start, l, start.cur) == code,
    ensures
        ({
            let s = l.ins(op, t);
            &&& added(start, s, start.cur) == code.push(
                ClifInstV { op, first: l.tys.len() as usize, count: 1 },
            )
            &&& s.cur == l.cur
            &&& s.blocks.len() == l.blocks.len()
            &&& s.tys.len() == l.tys.len() + 1
            &&& s.blocks[start.cur as int].insts.len() == l.blocks[start.cur as int].insts.len() + 1
            &&& s.panic == l.panic
            &&& s.wf()
        }),
{
    let s = l.ins(op, t);
    let made = ClifInstV { op, first: l.tys.len() as usize, count: 1 };
    assert(s.blocks[start.cur as int].insts == l.blocks[start.cur as int].insts.push(made));
    assert(added(start, s, start.cur) =~= code.push(made));
}

/// A guard ends the current block with a branch and goes on in a new one.
proof fn lemma_guard(l: Low, start: Low, ok: Val, code: Val, a: Val, b: Val, made: Seq<ClifInstV>)
    requires
        l.wf(),
        l.cur == start.cur,
        (start.cur as int) < start.blocks.len(),
        l.blocks.len() == start.blocks.len(),
        start.blocks[start.cur as int].insts.len() <= l.blocks[start.cur as int].insts.len(),
        added(start, l, start.cur) == made,
        l.guard(ok, code, a, b) is Ok,
        l.blocks.len() + 4 <= usize::MAX,
    ensures
        ({
            let s = l.guard(ok, code, a, b)->Ok_0;
            &&& s.cur != start.cur
            &&& (s.cur as int) < s.blocks.len()
            &&& s.blocks[s.cur as int].insts.len() == 0
            &&& s.panic is Some
            &&& s.panic != Some(s.cur)
            &&& added(start, s, start.cur).len() == made.len() + 1
            &&& added(start, s, start.cur).take(made.len() as int) == made
            &&& added(start, s, start.cur).last().op == OpV::Brif(
                ok,
                s.cur,
                seq![],
                s.panic->0,
                seq![code, a, b],
            )
        }),
{
    let (p, pb) = l.panic_block()->Ok_0;
    let s = l.guard(ok, code, a, b)->Ok_0;
    let n = start.blocks[start.cur as int].insts.len() as int;
    assert(p.blocks[start.cur as int].insts == l.blocks[start.cur as int].insts);
    let last = s.blocks[start.cur as int].insts.last();
    assert(s.blocks[start.cur as int].insts == l.blocks[start.cur as int].insts.push(last));
    assert(added(start, s, start.cur) =~= made.push(last));
    assert(made.push(last).take(made.len() as int) =~= made);
}

/// The checks of a division decide as they should.
#[verifier::rlimit(40)]
proof fn lemma_division_checks(
    env: Map<usize, int>,
    c: Seq<ClifInstV>,
    n: usize,
    x: Val,
    y: Val,
    t: ClifTy,
    ty: Ty,
)
    requires
        n + 12 <= usize::MAX,
        x.0 < n,
        y.0 < n,
        c.len() >= 12,
        forall|k: int| 0 <= k < 12 ==> (#[trigger] c[k]).first == n + k,
        c[0].op == OpV::Iconst(t, 0),
        c[1].op == OpV::Iconst(t, (-1) as i64),
        c[2].op == OpV::Iconst(t, least_of(ty)),
        c[3].op == OpV::IntCompare(IntCond::NotEqual, y, Val(n)),
        c[4].op == OpV::IntCompare(IntCond::NotEqual, x, Val((n + 2) as usize)),
        c[5].op == OpV::IntCompare(IntCond::NotEqual, y, Val((n + 1) as usize)),
        c[6].op == OpV::Binary(BinaryOp::Bor, Val((n + 4) as usize), Val((n + 5) as usize)),
        c[7].op == OpV::Binary(BinaryOp::Band, Val((n + 3) as usize), Val((n + 6) as usize)),
        c[8].op == OpV::Iconst(ClifTy::I64, DIV_OVERFLOW),
        c[9].op == OpV::Iconst(ClifTy::I64, DIV_BY_ZERO),
        c[10].op == OpV::Select(
            Val((n + 3) as usize),
            Val((n + 8) as usize),
            Val((n + 9) as usize),
        ),
    ensures
        ({
            let end = after(env, c, 12);
            let overflows = env[x.0] == least_of(ty) && env[y.0] == -1;
            &&& end[(n + 7) as usize] != 0 <==> env[y.0] != 0 && !overflows
            &&& end[(n + 10) as usize] == (if env[y.0] == 0 {
                DIV_BY_ZERO
            } else {
                DIV_OVERFLOW
            })
        }),
{
    let e0 = after(env, c, 0);
    let e1 = after(env, c, 1);
    let e2 = after(env, c, 2);
    let e3 = after(env, c, 3);
    let e4 = after(env, c, 4);
    let e5 = after(env, c, 5);
    let e6 = after(env, c, 6);
    let e7 = after(env, c, 7);
    let e8 = after(env, c, 8);
    let e9 = after(env, c, 9);
    let e10 = after(env, c, 10);
    let e11 = after(env, c, 11);
    assert(e1 == env.insert(n, 0));
    assert(e2 == e1.insert((n + 1) as usize, -1));
    assert(e3 == e2.insert((n + 2) as usize, least_of(ty) as int));
    assert(e3[y.0] == env[y.0] && e3[x.0] == env[x.0] && e3[n] == 0);
    assert(e4 == e3.insert((n + 3) as usize, computed(c[3].op, e3)));
    assert(e4[x.0] == env[x.0] && e4[y.0] == env[y.0]);
    assert(e5 == e4.insert((n + 4) as usize, computed(c[4].op, e4)));
    assert(e5[y.0] == env[y.0] && e5[(n + 1) as usize] == -1);
    assert(e6 == e5.insert((n + 5) as usize, computed(c[5].op, e5)));
    assert(e7 == e6.insert((n + 6) as usize, computed(c[6].op, e6)));
    assert(e7[(n + 3) as usize] == e4[(n + 3) as usize]);
    assert(e8 == e7.insert((n + 7) as usize, computed(c[7].op, e7)));
    assert(e9 == e8.insert((n + 8) as usize, DIV_OVERFLOW as int));
    assert(e10 == e9.insert((n + 9) as usize, DIV_BY_ZERO as int));
    assert(e10[(n + 3) as usize] == e4[(n + 3) as usize]);
    assert(e11 == e10.insert((n + 10) as usize, computed(c[10].op, e10)));
}

/// A division reaches its instruction exactly where the divisor is not zero and the
/// least integer is not divided by -1; otherwise the host learns which of the two it
/// was. Left-out bounds checks change nothing of it.
#[verifier::rlimit(40)]
pub proof fn law_divisions_are_guarded(
    l: Low,
    x: Val,
    y: Val,
    ty: Ty,
    rem: bool,
    env: Map<usize, int>,
)
    requires
        l.wf(),
        l.has(x),
        l.has(y),
        roomy(l),
        l.divrem(x, y, ty, rem) is Ok,
    ensures
        ({
            let (s, q) = l.divrem(x, y, ty, rem)->Ok_0;
            let code = added(l, s, l.cur);
            let end = after(env, code, (code.len() - 1) as nat);
            let divisor = env[y.0];
            let overflows = env[x.0] == least_of(ty) && divisor == -1;
            &&& s.cur != l.cur
            &&& code.len() > 0
            &&& code.last().op matches OpV::Brif(ok, next, none, panic, details)
            &&& next == s.cur
            &&& s.panic == Some(panic)
            &&& details.len() == 3
            &&& (end[ok.0] != 0 <==> divisor != 0 && !overflows)
            &&& (divisor == 0 ==> end[details[0].0] == DIV_BY_ZERO)
            &&& (divisor != 0 && overflows ==> end[details[0].0] == DIV_OVERFLOW)
            &&& s.blocks[s.cur as int].insts.last().op == OpV::Binary(
                if rem {
                    BinaryOp::Srem
                } else {
                    BinaryOp::Sdiv
                },
                x,
                y,
            )
        }),
{
    let t = l.ty_of(x);
    let n = l.tys.len() as int;
    let i8t = ClifTy::I8;
    let i64t = ClifTy::I64;
    let c0 = added(l, l, l.cur);
    assert(c0 =~= seq![]);
    let zero = l.next();
    let o1 = OpV::Iconst(t, 0);
    lemma_put(l, l, o1, t, c0);
    let s1 = l.ins(o1, t);
    let c1 = added(l, s1, l.cur);
    let minus_one = s1.next();
    let o2 = OpV::Iconst(t, (-1) as i64);
    lemma_put(s1, l, o2, t, c1);
    let s2 = s1.ins(o2, t);
    let c2 = added(l, s2, l.cur);
    let least = s2.next();
    let o3 = OpV::Iconst(t, least_of(ty));
    lemma_put(s2, l, o3, t, c2);
    let s3 = s2.ins(o3, t);
    let c3 = added(l, s3, l.cur);
    let nonzero = s3.next();
    let o4 = OpV::IntCompare(IntCond::NotEqual, y, zero);
    lemma_put(s3, l, o4, i8t, c3);
    let s4 = s3.ins(o4, i8t);
    let c4 = added(l, s4, l.cur);
    let not_least = s4.next();
    let o5 = OpV::IntCompare(IntCond::NotEqual, x, least);
    lemma_put(s4, l, o5, i8t, c4);
    let s5 = s4.ins(o5, i8t);
    let c5 = added(l, s5, l.cur);
    let not_minus_one = s5.next();
    let o6 = OpV::IntCompare(IntCond::NotEqual, y, minus_one);
    lemma_put(s5, l, o6, i8t, c5);
    let s6 = s5.ins(o6, i8t);
    let c6 = added(l, s6, l.cur);
    let fits = s6.next();
    let o7 = OpV::Binary(BinaryOp::Bor, not_least, not_minus_one);
    lemma_put(s6, l, o7, i8t, c6);
    let s7 = s6.ins(o7, i8t);
    let c7 = added(l, s7, l.cur);
    let ok = s7.next();
    let o8 = OpV::Binary(BinaryOp::Band, nonzero, fits);
    lemma_put(s7, l, o8, i8t, c7);
    let s8 = s7.ins(o8, i8t);
    let c8 = added(l, s8, l.cur);
    let overflow = s8.next();
    let o9 = OpV::Iconst(i64t, DIV_OVERFLOW);
    lemma_put(s8, l, o9, i64t, c8);
    let s9 = s8.ins(o9, i64t);
    let c9 = added(l, s9, l.cur);
    let by_zero = s9.next();
    let o10 = OpV::Iconst(i64t, DIV_BY_ZERO);
    lemma_put(s9, l, o10, i64t, c9);
    let s10 = s9.ins(o10, i64t);
    let c10 = added(l, s10, l.cur);
    let code = s10.next();
    let o11 = OpV::Select(nonzero, overflow, by_zero);
    lemma_put(s10, l, o11, i64t, c10);
    let s11 = s10.ins(o11, i64t);
    let c11 = added(l, s11, l.cur);
    let none = s11.next();
    let o12 = OpV::Iconst(i64t, 0);
    lemma_put(s11, l, o12, i64t, c11);
    let s12 = s11.ins(o12, i64t);
    let c12 = added(l, s12, l.cur);
    assert(s12.guard(ok, code, none, none) is Ok);
    lemma_guard(s12, l, ok, code, none, none, c12);
    let g = s12.guard(ok, code, none, none)->Ok_0;
    let (s, q) = l.divrem(x, y, ty, rem)->Ok_0;
    assert(added(l, s, l.cur) =~= added(l, g, l.cur));
    let all = added(l, s, l.cur);
    assert(c12.len() == 12);
    assert(all.len() == 13);
    assert forall|k: int| 0 <= k < 12 implies all[k] == c12[k] by {
        assert(all.take(12)[k] == c12[k]);
    }
    assert forall|k: int| 0 <= k < 12 implies (#[trigger] all[k]).first == n + k by {}
    lemma_division_checks(env, all, l.tys.len() as usize, x, y, t, ty);
}

/// A checked access goes on exactly where the index is inside the array; otherwise the
/// host learns the index and the length.
#[verifier::rlimit(40)]
pub proof fn law_accesses_are_checked(l: Low, idx: Val, len: Val, env: Map<usize, int>)
    requires
        l.wf(),
        l.has(idx),
        l.has(len),
        roomy(l),
        !l.unchecked,
        l.bounds_guard(idx, len) is Ok,
    ensures
        ({
            let s = l.bounds_guard(idx, len)->Ok_0;
            let code = added(l, s, l.cur);
            let end = after(env, code, (code.len() - 1) as nat);
            &&& s.cur != l.cur
            &&& s.blocks[s.cur as int].insts.len() == 0
            &&& code.len() > 0
            &&& code.last().op matches OpV::Brif(ok, next, none, panic, details)
            &&& next == s.cur
            &&& s.panic == Some(panic)
            &&& (end[ok.0] != 0 <==> 0 <= env[idx.0] < env[len.0])
            &&& details.len() == 3
            &&& end[details[0].0] == BOUNDS
            &&& details[1] == idx
            &&& details[2] == len
        }),
{
    let n = l.tys.len() as int;
    let i8t = ClifTy::I8;
    let i64t = ClifTy::I64;
    let c0 = added(l, l, l.cur);
    assert(c0 =~= seq![]);
    let below = l.next();
    let o1 = OpV::IntCompare(IntCond::LessThan, idx, len);
    lemma_put(l, l, o1, i8t, c0);
    let s1 = l.ins(o1, i8t);
    let c1 = added(l, s1, l.cur);
    let zero = s1.next();
    let o2 = OpV::Iconst(i64t, 0);
    lemma_put(s1, l, o2, i64t, c1);
    let s2 = s1.ins(o2, i64t);
    let c2 = added(l, s2, l.cur);
    let above = s2.next();
    let o3 = OpV::IntCompare(IntCond::GreaterThanOrEqual, idx, zero);
    lemma_put(s2, l, o3, i8t, c2);
    let s3 = s2.ins(o3, i8t);
    let c3 = added(l, s3, l.cur);
    let ok = s3.next();
    let o4 = OpV::Binary(BinaryOp::Band, below, above);
    lemma_put(s3, l, o4, i8t, c3);
    let s4 = s3.ins(o4, i8t);
    let c4 = added(l, s4, l.cur);
    let code = s4.next();
    let o5 = OpV::Iconst(i64t, BOUNDS);
    lemma_put(s4, l, o5, i64t, c4);
    let s5 = s4.ins(o5, i64t);
    let c5 = added(l, s5, l.cur);
    lemma_guard(s5, l, ok, code, idx, len, c5);
    let s = l.bounds_guard(idx, len)->Ok_0;
    let all = added(l, s, l.cur);
    assert forall|k: int| 0 <= k < 5 implies all[k] == c5[k] by {
        assert(all.take(5)[k] == c5[k]);
    }
    let e1 = after(env, all, 1);
    let e2 = after(env, all, 2);
    let e3 = after(env, all, 3);
    let e4 = after(env, all, 4);
    let e5 = after(env, all, 5);
    assert(after(env, all, 0) == env);
    assert(e1 == env.insert(below.0, computed(o1, env)));
    assert(e2 == e1.insert(zero.0, 0));
    assert(e2[idx.0] == env[idx.0]);
    assert(e3 == e2.insert(above.0, computed(o3, e2)));
    assert(e3[below.0] == e1[below.0]);
    assert(e4 == e3.insert(ok.0, computed(o4, e3)));
    assert(e5 == e4.insert(code.0, BOUNDS as int));
}

/// Where checks are left out, an access adds no check.
pub proof fn law_unchecked_accesses_are_not_checked(l: Low, idx: Val, len: Val)
    requires
        l.unchecked,
    ensures
        l.bounds_guard(idx, len) == Ok::<Low, Seq<char>>(l),
{
}

/// Every edge supplies exactly one argument per phi of its target.
pub proof fn law_edges_supply_every_phi(l: Low, a: BlockId, b: BlockId)
    ensures
        l.whole_edge(a, b).1.len() == l.ir.at(b).phis@.len(),
{
    lemma_edge_len(l, a, b, l.ir.at(b).phis@.len());
}

/// One argument per phi.
proof fn lemma_edge_len(l: Low, a: BlockId, b: BlockId, k: nat)
    ensures
        l.edge(a, b, k).1.len() == k,
    decreases k,
{
    if k > 0 {
        lemma_edge_len(l, a, b, (k - 1) as nat);
    }
}

/// Every block but the entry has exactly one parameter per phi when the blocks are
/// opened.
pub proof fn law_blocks_take_every_phi(l: Low, b: int)
    requires
        l == blank(l.ir, l.unchecked, l.callees, l.prebind),
        0 <= b < l.ir.blocks@.len() <= u32::MAX,
        l.ir.entry.0 != b,
    ensures
        l.all_phi_params(l.ir.blocks@.len()).blocks[b].params.len() == l.ir.blocks@[b].phis@.len(),
{
    lemma_all_phi_params(l, l.ir.blocks@.len(), b);
}

/// Blocks that were opened have their parameters, the others none.
proof fn lemma_all_phi_params(l: Low, n: nat, b: int)
    requires
        l == blank(l.ir, l.unchecked, l.callees, l.prebind),
        0 <= b < l.ir.blocks@.len() <= u32::MAX,
        n <= l.ir.blocks@.len(),
        l.ir.entry.0 != b,
    ensures
        l.all_phi_params(n).ir == l.ir,
        l.all_phi_params(n).blocks.len() == l.blocks.len(),
        l.all_phi_params(n).blocks[b].params.len() == (if b < n {
            l.ir.blocks@[b].phis@.len()
        } else {
            0
        }),
    decreases n,
{
    if n > 0 {
        lemma_all_phi_params(l, (n - 1) as nat, b);
        if l.ir.entry.0 != n - 1 {
            lemma_phi_params(
                l.all_phi_params((n - 1) as nat),
                (n - 1) as usize,
                l.ir.blocks@[n - 1].phis@.len(),
                b,
            );
        }
    }
}

/// Opening one block appends its parameters and leaves the other blocks.
proof fn lemma_phi_params(l: Low, c: usize, k: nat, b: int)
    requires
        0 <= b < l.blocks.len(),
        (c as int) < l.blocks.len(),
    ensures
        l.phi_params(c, k).ir == l.ir,
        l.phi_params(c, k).blocks.len() == l.blocks.len(),
        l.phi_params(c, k).blocks[b].params.len() == l.blocks[b].params.len() + (if b == c {
            k
        } else {
            0
        }),
    decreases k,
{
    if k > 0 {
        lemma_phi_params(l, c, (k - 1) as nat, b);
    }
}

} // verus!
