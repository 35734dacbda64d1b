//! What lowering adds: code behind code, blocks behind blocks, and new names; what is there
//! stays.
use vstd::prelude::*;

use crate::clif::{
    element_bytes, element_ty, BinaryOp, ClifBlockV, ClifInstV, ClifTy, ConvertOp, FloatCond,
    IntCond, OpV, UnaryOp, Val,
};
use crate::ir::{BinOp, Call, Inst, Load, LocalId, Ty, UnOp, ValueId};
use crate::lower::{const_op, conversion, is_float, is_local, least_of, named, print_symbol, Low};
use crate::search::{first_where, lemma_first_where};
use crate::traps::{BOUNDS, DIV_BY_ZERO, DIV_OVERFLOW};

verus! {

/// All that one lowering holds, the other holds, in the same places.
pub open spec fn grows(l: Low, s: Low) -> bool {
    &&& s.ir == l.ir
    &&& s.unchecked == l.unchecked
    &&& s.callees == l.callees
    &&& s.prebind == l.prebind
    &&& s.repairs == l.repairs
    &&& l.tys.len() <= s.tys.len()
    &&& forall|k: int| 0 <= k < l.tys.len() ==> #[trigger] s.tys[k] == l.tys[k]
    &&& l.blocks.len() <= s.blocks.len()
    &&& forall|b: int|
        0 <= b < l.blocks.len() ==> (#[trigger] s.blocks[b]).params == l.blocks[b].params
            && l.blocks[b].insts.len() <= s.blocks[b].insts.len()
    &&& forall|b: int, k: int|
        0 <= b < l.blocks.len() && 0 <= k < l.blocks[b].insts.len()
            ==> #[trigger] s.blocks[b].insts[k] == l.blocks[b].insts[k]
    &&& l.imports.len() <= s.imports.len()
    &&& forall|k: int| 0 <= k < l.imports.len() ==> #[trigger] s.imports[k] == l.imports[k]
    &&& l.panic is Some ==> s.panic == l.panic
}

/// A lowering can go on, and its block that reports errors is not begun.
pub open spec fn sound(l: Low) -> bool {
    &&& l.wf()
    &&& l.repairs == Map::<u32, Val>::empty()
    &&& l.ir.blocks@.len() <= l.blocks.len()
    &&& l.callees.len() <= usize::MAX
    &&& l.panic matches Some(p) ==> {
        let params = l.blocks[p as int].params;
        &&& p != l.cur
        &&& p >= l.ir.blocks@.len()
        &&& l.blocks[p as int].insts.len() == 0
        &&& params.len() == 3
        &&& params[0] != params[1] && params[0] != params[2] && params[1] != params[2]
    }
}

/// Lowering went on: only the current block got code, and new blocks.
pub open spec fn lays(l: Low, s: Low) -> bool {
    &&& grows(l, s)
    &&& sound(s)
    &&& s.cur == l.cur || l.blocks.len() <= s.cur
    &&& forall|b: int|
        0 <= b < l.blocks.len() && b != l.cur ==> #[trigger] s.blocks[b] == l.blocks[b]
}

/// Numbers for this many values, blocks and imports more are left.
pub open spec fn room(l: Low, n: int) -> bool {
    &&& l.tys.len() + n <= usize::MAX
    &&& l.blocks.len() + n <= usize::MAX
    &&& l.imports.len() + n <= usize::MAX
}

/// No more than this was added.
pub open spec fn within(l: Low, s: Low, n: int) -> bool {
    &&& s.tys.len() <= l.tys.len() + n
    &&& s.blocks.len() <= l.blocks.len() + n
    &&& s.imports.len() <= l.imports.len() + n
}

/// None of these machine values has a name.
pub open spec fn unnamed(l: Low, bar: Set<Val>) -> bool {
    &&& forall|v: u32| #[trigger] l.vals.dom().contains(v) ==> !bar.contains(l.vals[v])
    &&& forall|a: u32| #[trigger]
        l.arrays.dom().contains(a) ==> !bar.contains(l.arrays[a].data) && !bar.contains(
            l.arrays[a].len,
        )
}

/// All of them have come into being.
pub open spec fn there(l: Low, bar: Set<Val>) -> bool {
    forall|q: Val| #[trigger] bar.contains(q) ==> l.has(q)
}

pub proof fn lemma_grows_on(l: Low, s: Low, t: Low)
    requires
        grows(l, s),
        grows(s, t),
    ensures
        grows(l, t),
{
    assert forall|k: int| 0 <= k < l.tys.len() implies #[trigger] t.tys[k] == l.tys[k] by {
        assert(s.tys[k] == l.tys[k]);
    }
    assert forall|b: int| 0 <= b < l.blocks.len() implies (#[trigger] t.blocks[b]).params
        == l.blocks[b].params && l.blocks[b].insts.len() <= t.blocks[b].insts.len() by {
        assert(s.blocks[b].params == l.blocks[b].params);
    }
    assert forall|b: int, k: int|
        0 <= b < l.blocks.len() && 0 <= k < l.blocks[b].insts.len() implies
        #[trigger] t.blocks[b].insts[k] == l.blocks[b].insts[k] by {
        assert(s.blocks[b].params == l.blocks[b].params);
        assert(s.blocks[b].insts[k] == l.blocks[b].insts[k]);
    }
    assert forall|k: int| 0 <= k < l.imports.len() implies #[trigger] t.imports[k]
        == l.imports[k] by {
        assert(s.imports[k] == l.imports[k]);
    }
}

pub proof fn lemma_lays_on(l: Low, s: Low, t: Low)
    requires
        lays(l, s),
        lays(s, t),
    ensures
        lays(l, t),
{
    lemma_grows_on(l, s, t);
    assert forall|b: int| 0 <= b < l.blocks.len() && b != l.cur implies #[trigger] t.blocks[b]
        == l.blocks[b] by {
        assert(s.blocks[b] == l.blocks[b]);
    }
}

pub proof fn lemma_grows_self(l: Low)
    ensures
        grows(l, l),
        sound(l) ==> lays(l, l),
{
}

/// An instruction more.
pub proof fn lemma_put(l: Low, op: OpV, results: Seq<ClifTy>)
    requires
        sound(l),
        results.len() <= 1,
        room(l, 4),
    ensures
        lays(l, l.put(op, results)),
        within(l, l.put(op, results), 1),
        l.put(op, results).tys.len() == l.tys.len() + results.len(),
        l.put(op, results).blocks.len() == l.blocks.len(),
        l.put(op, results).blocks[l.cur as int].insts == l.blocks[l.cur as int].insts.push(
            ClifInstV { op, first: l.tys.len() as usize, count: results.len() as usize },
        ),
{
    let s = l.put(op, results);
    assert forall|b: int, k: int|
        #![trigger s.blocks[b].params[k]]
        0 <= b < s.blocks.len() && 0 <= k < s.blocks[b].params.len() implies s.has(
        s.blocks[b].params[k],
    ) by {
        assert(s.blocks[b].params == l.blocks[b].params);
        assert(l.has(l.blocks[b].params[k]));
    }
}

/// An instruction more with one result.
pub proof fn lemma_ins(l: Low, op: OpV, t: ClifTy)
    requires
        sound(l),
        room(l, 4),
    ensures
        lays(l, l.ins(op, t)),
        within(l, l.ins(op, t), 1),
        l.ins(op, t).tys.len() == l.tys.len() + 1,
        l.ins(op, t).blocks.len() == l.blocks.len(),
        l.ins(op, t).blocks[l.cur as int].insts == l.blocks[l.cur as int].insts.push(
            ClifInstV { op, first: l.tys.len() as usize, count: 1 },
        ),
        l.ins(op, t).ty_of(l.next()) == t,
{
    lemma_put(l, op, seq![t]);
}

/// An import more.
pub proof fn lemma_import(l: Low, name: Seq<char>)
    requires
        sound(l),
        room(l, 4),
        l.import(name) is Ok,
    ensures
        ({
            let (s, f) = l.import(name)->Ok_0;
            &&& lays(l, s)
            &&& within(l, s, 1)
            &&& s == (Low { imports: s.imports, ..l })
            &&& (f as int) < s.imports.len()
            &&& first_where(l.callees, named(name)) is Some
            &&& s.callees[s.imports[f as int] as int] == l.callees[first_where(
                l.callees,
                named(name),
            )->0]
            &&& s.callees[s.imports[f as int] as int].name == name
        }),
{
    lemma_first_where(l.callees, named(name));
    let k = first_where(l.callees, named(name))->0;
    lemma_first_where(l.imports, crate::lower::imports_callee(k as usize));
}

/// The block that reports errors.
proof fn lemma_panic_block(l: Low)
    requires
        sound(l),
        room(l, 8),
        l.panic_block() is Ok,
    ensures
        ({
            let (s, p) = l.panic_block()->Ok_0;
            &&& grows(l, s)
            &&& sound(s)
            &&& s.cur == l.cur
            &&& within(l, s, 3)
            &&& s.blocks.len() <= l.blocks.len() + 1
            &&& s.panic == Some(p)
            &&& s.vals == l.vals
            &&& s.arrays == l.arrays
            &&& forall|b: int| 0 <= b < l.blocks.len() ==> #[trigger] s.blocks[b] == l.blocks[b]
        }),
{
    if l.panic is None {
        lemma_import(l, "helix_panic"@);
        let m = (l.import("helix_panic"@)->Ok_0).0;
        let b = m.blocks.len() as usize;
        let t = ClifTy::I64;
        let s1 = m.with_block();
        let s2 = s1.with_param(b, t);
        let s3 = s2.with_param(b, t);
        let s4 = s3.with_param(b, t);
        let (s, p) = l.panic_block()->Ok_0;
        assert(s.blocks[b as int].params =~= seq![s1.next(), s2.next(), s3.next()]);
        assert forall|c: int| 0 <= c < l.blocks.len() implies #[trigger] s.blocks[c]
            == l.blocks[c] by {}
        assert forall|c: int, k: int|
            #![trigger s.blocks[c].params[k]]
            0 <= c < s.blocks.len() && 0 <= k < s.blocks[c].params.len() implies s.has(
            s.blocks[c].params[k],
        ) by {
            if c < l.blocks.len() {
                assert(l.has(l.blocks[c].params[k]));
            }
        }
    }
}

/// A guard ends the current block with a branch and goes on in a new one.
pub proof fn lemma_guard(l: Low, ok: Val, code: Val, a: Val, b: Val)
    requires
        sound(l),
        room(l, 16),
        l.guard(ok, code, a, b) is Ok,
    ensures
        ({
            let s = l.guard(ok, code, a, b)->Ok_0;
            &&& lays(l, s)
            &&& within(l, s, 4)
            &&& s.vals == l.vals
            &&& s.arrays == l.arrays
            &&& s.cur != l.cur
            &&& s.blocks[s.cur as int] == (ClifBlockV { params: seq![], insts: seq![] })
            &&& s.panic is Some
            &&& s.blocks[l.cur as int].insts.len() == l.blocks[l.cur as int].insts.len() + 1
            &&& s.blocks[l.cur as int].insts.last().op == OpV::Brif(
                ok,
                s.cur,
                seq![],
                s.panic->0,
                seq![code, a, b],
            )
        }),
{
    lemma_panic_block(l);
    let (p, pb) = l.panic_block()->Ok_0;
    let cont = p.blocks.len() as usize;
    let q = p.with_block();
    let op = OpV::Brif(ok, cont, seq![], pb, seq![code, a, b]);
    let s = l.guard(ok, code, a, b)->Ok_0;
    assert(s.tys =~= p.tys);
    assert forall|c: int| 0 <= c < p.blocks.len() && c != l.cur implies #[trigger] s.blocks[c]
        == p.blocks[c] by {}
    let made = ClifInstV { op, first: q.tys.len() as usize, count: 0 };
    assert(s.blocks[l.cur as int].insts == p.blocks[l.cur as int].insts.push(made));
    assert(p.blocks[l.cur as int] == l.blocks[l.cur as int]);
    assert forall|c: int, k: int|
        #![trigger s.blocks[c].params[k]]
        0 <= c < s.blocks.len() && 0 <= k < s.blocks[c].params.len() implies s.has(
        s.blocks[c].params[k],
    ) by {
        if c < p.blocks.len() {
            assert(s.blocks[c].params == p.blocks[c].params);
            assert(p.has(p.blocks[c].params[k]));
        }
    }
    assert(grows(l, s)) by {
        assert forall|c: int| 0 <= c < l.blocks.len() implies (#[trigger] s.blocks[c]).params
            == l.blocks[c].params && l.blocks[c].insts.len() <= s.blocks[c].insts.len() by {
            assert(p.blocks[c] == l.blocks[c]);
        }
        assert forall|c: int, k: int|
            0 <= c < l.blocks.len() && 0 <= k < l.blocks[c].insts.len() implies
            #[trigger] s.blocks[c].insts[k] == l.blocks[c].insts[k] by {
            assert(p.blocks[c] == l.blocks[c]);
        }
    }
    assert(s.blocks[s.cur as int] == q.blocks[cont as int]);
}

// ---------------------------------------------------------------------------
// Instructions
// ---------------------------------------------------------------------------

/// Code was added, and no name.
pub open spec fn emits(l: Low, s: Low, n: int) -> bool {
    &&& lays(l, s)
    &&& within(l, s, n)
    &&& s.vals == l.vals
    &&& s.arrays == l.arrays
}

/// One instruction more with one result.
pub proof fn lemma_emit(l: Low, s: Low, n: int, op: OpV, t: ClifTy)
    requires
        emits(l, s, n),
        room(l, 64),
        n <= 56,
    ensures
        emits(l, s.ins(op, t), n + 1),
        s.ins(op, t).has(s.next()),
        s.ins(op, t).tys.len() == s.tys.len() + 1,
        s.next().0 == s.tys.len(),
        s.ins(op, t).cur == s.cur,
{
    lemma_ins(s, op, t);
    lemma_lays_on(l, s, s.ins(op, t));
}

/// A guard behind code.
pub proof fn lemma_emit_guard(l: Low, s: Low, n: int, ok: Val, code: Val, a: Val, b: Val)
    requires
        emits(l, s, n),
        room(l, 64),
        n <= 40,
        s.guard(ok, code, a, b) is Ok,
    ensures
        emits(l, s.guard(ok, code, a, b)->Ok_0, n + 4),
{
    lemma_guard(s, ok, code, a, b);
    lemma_lays_on(l, s, s.guard(ok, code, a, b)->Ok_0);
}

/// A call behind code.
pub proof fn lemma_emit_call(l: Low, s: Low, n: int, name: Seq<char>, args: Seq<Val>)
    requires
        emits(l, s, n),
        room(l, 64),
        n <= 40,
        s.import(name) is Ok,
        crate::acts::returns_of(l.callees, name).len() <= 1,
    ensures
        ({
            let (s1, f) = s.import(name)->Ok_0;
            &&& emits(l, s1, n + 1)
            &&& emits(l, s1.call(f, args), n + 2)
            &&& s1.import_sig(f).returns == crate::acts::returns_of(l.callees, name)
            &&& s1.call(f, args).tys.len() == s.tys.len() + crate::acts::returns_of(
                l.callees,
                name,
            ).len()
        }),
{
    lemma_import(s, name);
    let (s1, f) = s.import(name)->Ok_0;
    lemma_lays_on(l, s, s1);
    lemma_put(s1, OpV::Call(f, args), s1.import_sig(f).returns);
    lemma_lays_on(l, s1, s1.call(f, args));
}

/// What a division adds.
#[verifier::rlimit(60)]
pub proof fn lemma_divrem_emits(l: Low, x: Val, y: Val, ty: Ty, rem: bool)
    requires
        sound(l),
        room(l, 64),
        l.divrem(x, y, ty, rem) is Ok,
    ensures
        ({
            let (s, q) = l.divrem(x, y, ty, rem)->Ok_0;
            &&& emits(l, s, 20)
            &&& s.has(q)
            &&& q.0 >= l.tys.len()
        }),
{
    let t = l.ty_of(x);
    let i8t = ClifTy::I8;
    let i64t = ClifTy::I64;
    lemma_grows_self(l);
    let zero = l.next();
    lemma_emit(l, l, 0, OpV::Iconst(t, 0), t);
    let s1 = l.ins(OpV::Iconst(t, 0), t);
    let minus_one = s1.next();
    lemma_emit(l, s1, 1, OpV::Iconst(t, (-1) as i64), t);
    let s2 = s1.ins(OpV::Iconst(t, (-1) as i64), t);
    let least = s2.next();
    lemma_emit(l, s2, 2, OpV::Iconst(t, least_of(ty)), t);
    let s3 = s2.ins(OpV::Iconst(t, least_of(ty)), t);
    let nonzero = s3.next();
    let o4 = OpV::IntCompare(IntCond::NotEqual, y, zero);
    lemma_emit(l, s3, 3, o4, i8t);
    let s4 = s3.ins(o4, i8t);
    let not_least = s4.next();
    let o5 = OpV::IntCompare(IntCond::NotEqual, x, least);
    lemma_emit(l, s4, 4, o5, i8t);
    let s5 = s4.ins(o5, i8t);
    let not_minus_one = s5.next();
    let o6 = OpV::IntCompare(IntCond::NotEqual, y, minus_one);
    lemma_emit(l, s5, 5, o6, i8t);
    let s6 = s5.ins(o6, i8t);
    let fits = s6.next();
    let o7 = OpV::Binary(BinaryOp::Bor, not_least, not_minus_one);
    lemma_emit(l, s6, 6, o7, i8t);
    let s7 = s6.ins(o7, i8t);
    let ok = s7.next();
    let o8 = OpV::Binary(BinaryOp::Band, nonzero, fits);
    lemma_emit(l, s7, 7, o8, i8t);
    let s8 = s7.ins(o8, i8t);
    let overflow = s8.next();
    lemma_emit(l, s8, 8, OpV::Iconst(i64t, DIV_OVERFLOW), i64t);
    let s9 = s8.ins(OpV::Iconst(i64t, DIV_OVERFLOW), i64t);
    let by_zero = s9.next();
    lemma_emit(l, s9, 9, OpV::Iconst(i64t, DIV_BY_ZERO), i64t);
    let s10 = s9.ins(OpV::Iconst(i64t, DIV_BY_ZERO), i64t);
    let code = s10.next();
    let o11 = OpV::Select(nonzero, overflow, by_zero);
    lemma_emit(l, s10, 10, o11, i64t);
    let s11 = s10.ins(o11, i64t);
    let none = s11.next();
    lemma_emit(l, s11, 11, OpV::Iconst(i64t, 0), i64t);
    let s12 = s11.ins(OpV::Iconst(i64t, 0), i64t);
    assert(s12.guard(ok, code, none, none) is Ok);
    lemma_emit_guard(l, s12, 12, ok, code, none, none);
    let g = s12.guard(ok, code, none, none)->Ok_0;
    let op = OpV::Binary(
        if rem {
            BinaryOp::Srem
        } else {
            BinaryOp::Sdiv
        },
        x,
        y,
    );
    lemma_emit(l, g, 16, op, t);
}

/// What an operator adds.
pub proof fn lemma_bin_emits(l: Low, op: BinOp, ty: Ty, a: ValueId, b: ValueId)
    requires
        sound(l),
        room(l, 64),
        l.bin(op, ty, a, b) is Ok,
    ensures
        ({
            let (s, q) = l.bin(op, ty, a, b)->Ok_0;
            &&& emits(l, s, 20)
            &&& s.has(q)
            &&& q.0 >= l.tys.len()
        }),
{
    lemma_grows_self(l);
    assert forall|o: OpV, t: ClifTy| emits(l, #[trigger] l.ins(o, t), 1) && l.ins(o, t).has(
        l.next(),
    ) && l.next().0 == l.tys.len() by {
        lemma_emit(l, l, 0, o, t);
    }
    let x = l.lookup(a)->Ok_0;
    let y = l.lookup(b)->Ok_0;
    if l.divrem(x, y, ty, false) is Ok {
        lemma_divrem_emits(l, x, y, ty, false);
    }
    if l.divrem(x, y, ty, true) is Ok {
        lemma_divrem_emits(l, x, y, ty, true);
    }
}

/// What a negation adds.
pub proof fn lemma_unary_emits(l: Low, op: UnOp, ty: Ty, x: Val)
    requires
        sound(l),
        room(l, 64),
    ensures
        ({
            let (s, q) = l.unary(op, ty, x);
            &&& emits(l, s, 20)
            &&& s.has(q)
            &&& q.0 >= l.tys.len()
        }),
{
    lemma_grows_self(l);
    let t = l.ty_of(x);
    match op {
        UnOp::Neg => {
            let o = if is_float(ty) {
                UnaryOp::Fneg
            } else {
                UnaryOp::Ineg
            };
            lemma_emit(l, l, 0, OpV::Unary(o, x), t);
        },
        UnOp::Not => {
            lemma_emit(l, l, 0, OpV::Iconst(ClifTy::I8, 1), ClifTy::I8);
            let s = l.ins(OpV::Iconst(ClifTy::I8, 1), ClifTy::I8);
            lemma_emit(l, s, 1, OpV::Binary(BinaryOp::Bxor, x, l.next()), t);
        },
    }
}

/// What a subscript at full width adds.
pub proof fn lemma_widened_emits(l: Low, x: Val, from: Ty)
    requires
        sound(l),
        room(l, 64),
        l.has(x),
    ensures
        emits(l, l.widened(x, from).0, 1),
        l.widened(x, from).0.has(l.widened(x, from).1),
{
    lemma_grows_self(l);
    lemma_emit(l, l, 0, OpV::Convert(ConvertOp::Sextend, ClifTy::I64, x), ClifTy::I64);
}

/// What the guard of an access adds.
#[verifier::rlimit(40)]
pub proof fn lemma_bounds_emits(l: Low, s: Low, n: int, idx: Val, len: Val)
    requires
        emits(l, s, n),
        room(l, 64),
        n <= 20,
        s.bounds_guard(idx, len) is Ok,
    ensures
        emits(l, s.bounds_guard(idx, len)->Ok_0, n + 9),
{
    if !s.unchecked {
        let i8t = ClifTy::I8;
        let i64t = ClifTy::I64;
        let below = s.next();
        let o1 = OpV::IntCompare(IntCond::LessThan, idx, len);
        lemma_emit(l, s, n, o1, i8t);
        let s1 = s.ins(o1, i8t);
        let zero = s1.next();
        lemma_emit(l, s1, n + 1, OpV::Iconst(i64t, 0), i64t);
        let s2 = s1.ins(OpV::Iconst(i64t, 0), i64t);
        let above = s2.next();
        let o3 = OpV::IntCompare(IntCond::GreaterThanOrEqual, idx, zero);
        lemma_emit(l, s2, n + 2, o3, i8t);
        let s3 = s2.ins(o3, i8t);
        let o4 = OpV::Binary(BinaryOp::Band, below, above);
        lemma_emit(l, s3, n + 3, o4, i8t);
        let s4 = s3.ins(o4, i8t);
        let code = s4.next();
        lemma_emit(l, s4, n + 4, OpV::Iconst(i64t, BOUNDS), i64t);
        let s5 = s4.ins(OpV::Iconst(i64t, BOUNDS), i64t);
        lemma_emit_guard(l, s5, n + 5, s3.next(), code, idx, len);
    }
}

/// What the address of an element adds.
pub proof fn lemma_address_emits(l: Low, s: Low, n: int, base: Val, idx: Val, size: i64)
    requires
        emits(l, s, n),
        room(l, 64),
        n <= 40,
    ensures
        emits(l, s.address(base, idx, size).0, n + 3),
        s.address(base, idx, size).0.has(s.address(base, idx, size).1),
{
    let i64t = ClifTy::I64;
    lemma_emit(l, s, n, OpV::Iconst(i64t, size), i64t);
    let scale = s.next();
    let s1 = s.ins(OpV::Iconst(i64t, size), i64t);
    let off = s1.next();
    let o2 = OpV::Binary(BinaryOp::Imul, idx, scale);
    lemma_emit(l, s1, n + 1, o2, s1.ty_of(idx));
    let s2 = s1.ins(o2, s1.ty_of(idx));
    let o3 = OpV::Binary(BinaryOp::Iadd, base, off);
    lemma_emit(l, s2, n + 2, o3, s2.ty_of(base));
}

/// What `abs` adds.
pub proof fn lemma_abs_emits(l: Low, float: bool, x: Val)
    requires
        sound(l),
        room(l, 64),
    ensures
        ({
            let (s, q) = l.abs(float, x);
            &&& emits(l, s, 20)
            &&& s.has(q)
            &&& q.0 >= l.tys.len()
        }),
{
    lemma_grows_self(l);
    let t = l.ty_of(x);
    if float {
        lemma_emit(l, l, 0, OpV::Unary(UnaryOp::Fabs, x), t);
    } else {
        let neg = l.next();
        lemma_emit(l, l, 0, OpV::Unary(UnaryOp::Ineg, x), t);
        let s1 = l.ins(OpV::Unary(UnaryOp::Ineg, x), t);
        let zero = s1.next();
        lemma_emit(l, s1, 1, OpV::Iconst(t, 0), t);
        let s2 = s1.ins(OpV::Iconst(t, 0), t);
        let below = s2.next();
        let o3 = OpV::IntCompare(IntCond::LessThan, x, zero);
        lemma_emit(l, s2, 2, o3, ClifTy::I8);
        let s3 = s2.ins(o3, ClifTy::I8);
        lemma_emit(l, s3, 3, OpV::Select(below, neg, x), t);
    }
}

/// What `min` and `max` add.
pub proof fn lemma_minmax_emits(l: Low, min: bool, float: bool, x: Val, y: Val)
    requires
        sound(l),
        room(l, 64),
    ensures
        ({
            let (s, q) = l.minmax(min, float, x, y);
            &&& emits(l, s, 20)
            &&& s.has(q)
            &&& q.0 >= l.tys.len()
        }),
{
    lemma_grows_self(l);
    let i8t = ClifTy::I8;
    let tx = l.ty_of(x);
    let ty = l.ty_of(y);
    let wins = l.next();
    if float {
        let c = if min {
            FloatCond::LessThan
        } else {
            FloatCond::GreaterThan
        };
        lemma_emit(l, l, 0, OpV::FloatCompare(c, x, y), i8t);
        let s1 = l.ins(OpV::FloatCompare(c, x, y), i8t);
        let base = s1.next();
        lemma_emit(l, s1, 1, OpV::Select(wins, x, y), tx);
        let s2 = s1.ins(OpV::Select(wins, x, y), tx);
        let x_nan = s2.next();
        lemma_emit(l, s2, 2, OpV::FloatCompare(FloatCond::Unordered, x, x), i8t);
        let s3 = s2.ins(OpV::FloatCompare(FloatCond::Unordered, x, x), i8t);
        let y_nan = s3.next();
        lemma_emit(l, s3, 3, OpV::FloatCompare(FloatCond::Unordered, y, y), i8t);
        let s4 = s3.ins(OpV::FloatCompare(FloatCond::Unordered, y, y), i8t);
        let chosen = s4.next();
        lemma_emit(l, s4, 4, OpV::Select(x_nan, y, base), ty);
        let s5 = s4.ins(OpV::Select(x_nan, y, base), ty);
        lemma_emit(l, s5, 5, OpV::Select(y_nan, x, chosen), tx);
    } else {
        let c = if min {
            IntCond::LessThan
        } else {
            IntCond::GreaterThan
        };
        lemma_emit(l, l, 0, OpV::IntCompare(c, x, y), i8t);
        let s1 = l.ins(OpV::IntCompare(c, x, y), i8t);
        lemma_emit(l, s1, 1, OpV::Select(wins, x, y), tx);
    }
}

/// The array that an instruction makes.
pub open spec fn makes(i: Inst) -> Option<u32> {
    match i {
        Inst::Call(c) => if c.callee@ == "zeros"@ && c.arr_refs@.len() > 0 {
            Some(c.arr_refs@[0].0)
        } else {
            None
        },
        _ => None,
    }
}

/// What an instruction does to names: what it defines gets one, and the others stay.
pub open spec fn names(l: Low, s: Low, i: Inst) -> bool {
    &&& forall|v: u32|
        #![trigger s.vals.dom().contains(v)]
        #![trigger s.vals[v]]
        i.def() != Some(ValueId(v)) ==> s.vals.dom().contains(v) == l.vals.dom().contains(v)
            && s.vals[v] == l.vals[v]
    &&& forall|a: u32|
        #![trigger s.arrays.dom().contains(a)]
        #![trigger s.arrays[a]]
        makes(i) != Some(a) ==> s.arrays.dom().contains(a) == l.arrays.dom().contains(a)
            && s.arrays[a] == l.arrays[a]
}

/// The functions that are called give back one value at most.
pub open spec fn one_result(l: Low) -> bool {
    forall|k: int| 0 <= k < l.callees.len() ==> (#[trigger] l.callees[k]).sig.returns.len() <= 1
}

/// A function that is called gives back one value at most.
pub proof fn lemma_one_result(l: Low, name: Seq<char>)
    requires
        one_result(l),
    ensures
        crate::acts::returns_of(l.callees, name).len() <= 1,
{
    lemma_first_where(l.callees, named(name));
}

/// Arguments are machine values that are there, and have no forbidden number.
pub proof fn lemma_marshal(l: Low, args: Seq<ValueId>, k: nat, bar: Set<Val>)
    requires
        sound(l),
        k <= args.len(),
        unnamed(l, bar),
        l.marshal(args, k) is Ok,
    ensures
        forall|j: int|
            0 <= j < (l.marshal(args, k)->Ok_0).len() ==> l.has(
                #[trigger] (l.marshal(args, k)->Ok_0)[j],
            ) && !bar.contains((l.marshal(args, k)->Ok_0)[j]),
    decreases k,
{
    if k > 0 {
        lemma_marshal(l, args, (k - 1) as nat, bar);
        if l.source_ty(args[k - 1]) is Array {
            lemma_pair(l, LocalId(args[k - 1].0), bar);
        }
    }
}

/// The pair of an array is there, and has no forbidden number.
pub proof fn lemma_pair(l: Low, a: LocalId, bar: Set<Val>)
    requires
        sound(l),
        unnamed(l, bar),
        l.lookup_array(a) is Ok,
    ensures
        l.has((l.lookup_array(a)->Ok_0).data),
        l.has((l.lookup_array(a)->Ok_0).len),
        !bar.contains((l.lookup_array(a)->Ok_0).data),
        !bar.contains((l.lookup_array(a)->Ok_0).len),
{
    lemma_first_where(l.prebind, is_local(a));
}

/// What a call adds.
#[verifier::rlimit(60)]
pub proof fn lemma_call_lays(l: Low, c: Call, bar: Set<Val>)
    requires
        sound(l),
        room(l, 64),
        one_result(l),
        unnamed(l, bar),
        there(l, bar),
        l.call_inst(c) is Ok,
    ensures
        ({
            let s = l.call_inst(c)->Ok_0;
            &&& lays(l, s)
            &&& within(l, s, 24)
            &&& unnamed(s, bar)
            &&& names(l, s, Inst::Call(c))
        }),
{
    lemma_grows_self(l);
    let m = l.marshal(c.args@, c.args@.len())->Ok_0;
    lemma_marshal(l, c.args@, c.args@.len(), bar);
    if c.callee@ == "zeros"@ {
        let e = l.ir.types.element_type(c.arr_refs@[0])->0;
        lemma_import(l, "helix_zeros"@);
        let (s, f) = l.import("helix_zeros"@)->Ok_0;
        assert(emits(l, s, 1));
        let o = OpV::Iconst(ClifTy::I64, element_bytes(e));
        lemma_emit(l, s, 1, o, ClifTy::I64);
        let s1 = s.ins(o, ClifTy::I64);
        lemma_one_result(l, "helix_zeros"@);
        let args = seq![m[0], s.next()];
        lemma_put(s1, OpV::Call(f, args), s1.import_sig(f).returns);
        lemma_lays_on(l, s1, s1.call(f, args));
        assert(l.has(m[0]) && !bar.contains(m[0]));
    } else if c.callee@ == "len"@ {
        lemma_pair(l, LocalId(c.args@[0].0), bar);
    } else if c.callee@ == "print"@ {
        let ty = l.source_ty(c.args@[0]);
        lemma_emit(l, l, 0, OpV::Convert(ConvertOp::Sextend, ClifTy::I64, m[0]), ClifTy::I64);
        lemma_emit(l, l, 0, OpV::Convert(ConvertOp::Uextend, ClifTy::I64, m[0]), ClifTy::I64);
        let s = match ty {
            Ty::I32 => l.ins(OpV::Convert(ConvertOp::Sextend, ClifTy::I64, m[0]), ClifTy::I64),
            Ty::Bool => l.ins(OpV::Convert(ConvertOp::Uextend, ClifTy::I64, m[0]), ClifTy::I64),
            _ => l,
        };
        let arg = match ty {
            Ty::I32 => l.next(),
            Ty::Bool => l.next(),
            _ => m[0],
        };
        assert(emits(l, s, 1));
        lemma_one_result(l, print_symbol(ty));
        lemma_emit_call(l, s, 1, print_symbol(ty), seq![arg]);
    } else if c.callee@ == "sqrt"@ {
        lemma_emit(l, l, 0, OpV::Unary(UnaryOp::Sqrt, m[0]), l.ty_of(m[0]));
    } else if c.callee@ == "abs"@ {
        lemma_abs_emits(l, is_float(l.source_ty(c.args@[0])), m[0]);
    } else if c.callee@ == "min"@ || c.callee@ == "max"@ {
        lemma_minmax_emits(
            l,
            c.callee@ == "min"@,
            is_float(l.source_ty(c.args@[0])),
            m[0],
            m[1],
        );
    } else {
        lemma_one_result(l, c.callee@);
        lemma_emit_call(l, l, 0, c.callee@, m);
    }
}

/// A new name behind new code.
pub proof fn lemma_named(l: Low, s: Low, i: Inst, d: ValueId, q: Val, bar: Set<Val>)
    requires
        emits(l, s, 20),
        s.has(q),
        !bar.contains(q),
        unnamed(l, bar),
        i.def() == Some(d),
        makes(i) is None,
    ensures
        lays(l, s.bind(d, q)),
        within(l, s.bind(d, q), 24),
        unnamed(s.bind(d, q), bar),
        names(l, s.bind(d, q), i),
{
}

/// What a load adds.
pub proof fn lemma_load_emits(l: Low, load: Load)
    requires
        sound(l),
        room(l, 64),
        l.load(load) is Ok,
    ensures
        ({
            let p = l.lookup_array(load.arr)->Ok_0;
            let e = l.ir.types.element_type(load.arr)->0;
            let (s1, idx) = l.widened(l.lookup(load.idx)->Ok_0, l.source_ty(load.idx));
            let s2 = s1.bounds_guard(idx, p.len)->Ok_0;
            let (s3, addr) = s2.address(p.data, idx, element_bytes(e));
            let op = OpV::Load(element_ty(e), addr);
            let s4 = s3.ins(op, element_ty(e));
            &&& l.load(load) == Ok::<Low, Seq<char>>(s4.bind(load.dst, s3.next()))
            &&& emits(l, s1, 1)
            &&& emits(l, s2, 10)
            &&& emits(l, s3, 13)
            &&& emits(l, s4, 14)
            &&& s4.has(s3.next())
            &&& s3.next().0 >= l.tys.len()
        }),
{
    lemma_grows_self(l);
    let p = l.lookup_array(load.arr)->Ok_0;
    let e = l.ir.types.element_type(load.arr)->0;
    let x = l.lookup(load.idx)->Ok_0;
    let from = l.source_ty(load.idx);
    lemma_widened_emits(l, x, from);
    let (s1, idx) = l.widened(x, from);
    lemma_bounds_emits(l, s1, 1, idx, p.len);
    let s2 = s1.bounds_guard(idx, p.len)->Ok_0;
    lemma_address_emits(l, s2, 10, p.data, idx, element_bytes(e));
    let (s3, addr) = s2.address(p.data, idx, element_bytes(e));
    lemma_emit(l, s3, 13, OpV::Load(element_ty(e), addr), element_ty(e));
}

/// What a store adds.
pub proof fn lemma_store_emits(l: Low, arr: LocalId, idx_id: ValueId, val: ValueId)
    requires
        sound(l),
        room(l, 64),
        l.store(arr, idx_id, val) is Ok,
    ensures
        ({
            let p = l.lookup_array(arr)->Ok_0;
            let e = l.ir.types.element_type(arr)->0;
            let (s1, idx) = l.widened(l.lookup(idx_id)->Ok_0, l.source_ty(idx_id));
            let s2 = s1.bounds_guard(idx, p.len)->Ok_0;
            let (s3, addr) = s2.address(p.data, idx, element_bytes(e));
            let op = OpV::Store(l.lookup(val)->Ok_0, addr);
            &&& l.store(arr, idx_id, val) == Ok::<Low, Seq<char>>(s3.end(op))
            &&& l.lookup(val) is Ok
            &&& emits(l, s1, 1)
            &&& emits(l, s2, 10)
            &&& emits(l, s3, 13)
            &&& emits(l, s3.end(op), 14)
            &&& lays(s3, s3.end(op))
        }),
{
    lemma_grows_self(l);
    let p = l.lookup_array(arr)->Ok_0;
    let e = l.ir.types.element_type(arr)->0;
    let x = l.lookup(idx_id)->Ok_0;
    let from = l.source_ty(idx_id);
    lemma_widened_emits(l, x, from);
    let (s1, idx) = l.widened(x, from);
    lemma_bounds_emits(l, s1, 1, idx, p.len);
    let s2 = s1.bounds_guard(idx, p.len)->Ok_0;
    lemma_address_emits(l, s2, 10, p.data, idx, element_bytes(e));
    let (s3, addr) = s2.address(p.data, idx, element_bytes(e));
    assert(s1.lookup(val) == l.lookup(val));
    let op = OpV::Store(l.lookup(val)->Ok_0, addr);
    lemma_put(s3, op, seq![]);
    lemma_lays_on(l, s3, s3.end(op));
}

/// What an instruction adds.
#[verifier::rlimit(40)]
pub proof fn lemma_inst_lays(l: Low, i: Inst, bar: Set<Val>)
    requires
        sound(l),
        room(l, 64),
        one_result(l),
        unnamed(l, bar),
        there(l, bar),
        l.inst(i) is Ok,
    ensures
        ({
            let s = l.inst(i)->Ok_0;
            &&& lays(l, s)
            &&& within(l, s, 24)
            &&& unnamed(s, bar)
            &&& names(l, s, i)
        }),
{
    lemma_grows_self(l);
    match i {
        Inst::Const { dst, c } => {
            lemma_emit(l, l, 0, const_op(c).0, const_op(c).1);
            lemma_named(l, l.ins(const_op(c).0, const_op(c).1), i, dst, l.next(), bar);
        },
        Inst::Bin { op, dst, a, b } => {
            lemma_bin_emits(l, op, l.source_ty(dst), a, b);
            let (s, q) = l.bin(op, l.source_ty(dst), a, b)->Ok_0;
            lemma_named(l, s, i, dst, q, bar);
        },
        Inst::Unary { op, dst, a } => {
            let x = l.lookup(a)->Ok_0;
            lemma_unary_emits(l, op, l.source_ty(dst), x);
            let (s, q) = l.unary(op, l.source_ty(dst), x);
            lemma_named(l, s, i, dst, q, bar);
        },
        Inst::Cast { dst, val, to } => {
            let x = l.lookup(val)->Ok_0;
            if let Some((o, t)) = conversion(l.source_ty(val), to) {
                lemma_emit(l, l, 0, OpV::Convert(o, t, x), t);
            }
            let (s, q) = l.cast(l.source_ty(val), to, x);
            lemma_named(l, s, i, dst, q, bar);
        },
        Inst::Load(load) => {
            lemma_load_emits(l, load);
            let s = l.load(load)->Ok_0;
            let q = s.vals[load.dst.0];
            let t = Low { vals: l.vals, ..s };
            assert(s == t.bind(load.dst, q));
            lemma_named(l, t, i, load.dst, q, bar);
        },
        Inst::Store { arr, idx, val } => {
            lemma_store_emits(l, arr, idx, val);
        },
        Inst::Call(c) => {
            lemma_call_lays(l, c, bar);
        },
    }
}

} // verus!
