//! Loads and stores in machine code: they reach the element that the subscript selects, or
//! report the error that the interpreter reports.
use vstd::prelude::*;

use crate::clif::{element_bytes, element_ty, BinaryOp, ClifInstV, ClifTy, IntCond, OpV, Val};
use crate::floats::FloatWorld;
use crate::ir::{ElemTy, Load, LocalId, Ty, ValueId};
use crate::lower::Low;
use crate::machine::{added, after, law_accesses_are_checked, roomy};
use crate::operators::{machine_value, valued};
use crate::traps::BOUNDS;
use crate::value::Value;

verus! {

/// What an access starts from: the array is at an address and has a length, the subscript
/// has a value, and elements have 64-bit addresses. `ints` are the machine values that are
/// integers, as integers.
pub struct Reach {
    pub base: i64,
    pub len: i64,
    pub index: i64,
    pub ints: Map<usize, int>,
    pub values: Map<usize, Value>,
}

/// The machine values are those of the access.
pub open spec fn reaches(r: Reach, l: Low, arr: LocalId, idx: ValueId) -> bool {
    &&& l.lookup_array(arr) matches Ok(p) && l.has(p.data) && l.has(p.len) && r.values[p.data.0]
        == Value::I64(r.base) && r.ints[p.len.0] == r.len
    &&& l.ir.types.element_type(arr) is Some
    &&& l.lookup(idx) matches Ok(i) && l.has(i) && r.ints[i.0] == r.index && (r.values[i.0]
        == Value::I64(r.index) && l.source_ty(idx) != Ty::I32 || l.source_ty(idx) == Ty::I32
        && i32::MIN <= r.index <= i32::MAX && r.values[i.0] == Value::I32(r.index as i32))
}

/// The address of an element.
pub open spec fn address_of(r: Reach, e: ElemTy) -> int {
    r.base + r.index * element_bytes(e)
}

/// The machine values after the subscript was widened.
pub open spec fn widened_reach(r: Reach, l: Low, idx: ValueId) -> Reach {
    if l.source_ty(idx) == Ty::I32 {
        Reach {
            ints: r.ints.insert(l.next().0, r.index as int),
            values: r.values.insert(l.next().0, Value::I64(r.index)),
            ..r
        }
    } else {
        r
    }
}

/// Widening a subscript keeps it.
proof fn lemma_widened(w: FloatWorld, l: Low, arr: LocalId, idx: ValueId, r: Reach)
    requires
        l.wf(),
        roomy(l),
        reaches(r, l, arr, idx),
    ensures
        ({
            let (s, i) = l.widened(l.lookup(idx)->Ok_0, l.source_ty(idx));
            let q = widened_reach(r, l, idx);
            let p = l.lookup_array(arr)->Ok_0;
            &&& s.wf()
            &&& s.has(i)
            &&& s.has(p.len)
            &&& s.has(p.data)
            &&& s.cur == l.cur
            &&& s.unchecked == l.unchecked
            &&& s.tys.len() <= l.tys.len() + 1
            &&& s.blocks.len() == l.blocks.len()
            &&& q.values[i.0] == Value::I64(r.index)
            &&& q.ints[i.0] == r.index
            &&& q.values[p.data.0] == Value::I64(r.base)
            &&& q.ints[p.len.0] == r.len
            &&& valued(w, r.values, added(l, s, l.cur), added(l, s, l.cur).len()) == q.values
        }),
{
    let i = l.lookup(idx)->Ok_0;
    if l.source_ty(idx) == Ty::I32 {
        let op = OpV::Convert(crate::clif::ConvertOp::Sextend, ClifTy::I64, i);
        let s = l.ins(op, ClifTy::I64);
        let made = ClifInstV { op, first: l.tys.len() as usize, count: 1 };
        assert(s.blocks[l.cur as int].insts == l.blocks[l.cur as int].insts.push(made));
        assert(added(l, s, l.cur) =~= seq![made]);
        reveal_with_fuel(valued, 2);
    } else {
        assert(added(l, l, l.cur) =~= seq![]);
    }
}

/// The code that computes the address of an element.
proof fn lemma_address(w: FloatWorld, l: Low, base: Val, idx: Val, size: i64, r: Reach)
    requires
        l.wf(),
        l.tys.len() + 8 <= usize::MAX,
        l.has(base),
        l.has(idx),
        l.blocks[l.cur as int].insts.len() == 0,
        r.values[base.0] == Value::I64(r.base),
        r.values[idx.0] == Value::I64(r.index),
        i64::MIN <= r.index * size <= i64::MAX,
        i64::MIN <= r.base + r.index * size <= i64::MAX,
    ensures
        ({
            let (s, a) = l.address(base, idx, size);
            let code = s.blocks[l.cur as int].insts;
            &&& s.cur == l.cur
            &&& code.len() == 3
            &&& s.tys.len() == l.tys.len() + 3
            &&& s.wf()
            &&& valued(w, r.values, code, 3)[a.0] == Value::I64((r.base + r.index * size) as i64)
            &&& s.has(a)
        }),
{
    let o1 = OpV::Iconst(ClifTy::I64, size);
    let scale = l.next();
    let s1 = l.ins(o1, ClifTy::I64);
    let m1 = ClifInstV { op: o1, first: l.tys.len() as usize, count: 1 };
    let off = s1.next();
    let o2 = OpV::Binary(BinaryOp::Imul, idx, scale);
    let s2 = s1.ins(o2, s1.ty_of(idx));
    let m2 = ClifInstV { op: o2, first: s1.tys.len() as usize, count: 1 };
    let a = s2.next();
    let o3 = OpV::Binary(BinaryOp::Iadd, base, off);
    let s3 = s2.ins(o3, s2.ty_of(base));
    let m3 = ClifInstV { op: o3, first: s2.tys.len() as usize, count: 1 };
    assert(s1.blocks[l.cur as int].insts == l.blocks[l.cur as int].insts.push(m1));
    assert(s2.blocks[l.cur as int].insts == s1.blocks[l.cur as int].insts.push(m2));
    assert(s3.blocks[l.cur as int].insts == s2.blocks[l.cur as int].insts.push(m3));
    let code = s3.blocks[l.cur as int].insts;
    assert(code =~= seq![m1, m2, m3]);
    reveal_with_fuel(valued, 4);
    let e1 = r.values.insert(scale.0, Value::I64(size));
    assert(valued(w, r.values, code, 1) == e1);
    let e2 = e1.insert(off.0, machine_value(w, o2, e1));
    assert(valued(w, r.values, code, 2) == e2);
    assert(e1[idx.0] == Value::I64(r.index));
    assert(e2[off.0] == Value::I64((r.index * size) as i64));
    assert(e2[base.0] == Value::I64(r.base));
    let e3 = e2.insert(a.0, machine_value(w, o3, e2));
    assert(valued(w, r.values, code, 3) == e3);
}

/// A guard in front of an access goes on exactly where the subscript is inside the array;
/// elsewhere the host learns of the subscript and the length.
pub open spec fn guards_access(l: Low, s: Low, idx: Val, len: Val, r: Reach) -> bool {
    let code = added(l, s, l.cur);
    let end = after(r.ints, code, (code.len() - 1) as nat);
    &&& code.len() > 0
    &&& code.last().op matches OpV::Brif(ok, next, none, panic, details)
    &&& next == s.cur
    &&& s.panic == Some(panic)
    &&& (end[ok.0] != 0 <==> 0 <= r.index < r.len)
    &&& details.len() == 3
    &&& end[details[0].0] == BOUNDS
    &&& details[1] == idx
    &&& details[2] == len
    &&& r.ints[idx.0] == r.index
    &&& r.ints[len.0] == r.len
}

/// A checked load goes on exactly where the subscript is inside the array, and there it
/// loads from the address of the element; elsewhere the host learns of the subscript and
/// the length. What is loaded is known by the name of what the load defines.
#[verifier::rlimit(40)]
pub proof fn law_loads_reach_their_element(w: FloatWorld, l: Low, load: Load, r: Reach)
    requires
        l.wf(),
        l.tys.len() + 64 <= usize::MAX,
        l.blocks.len() + 64 <= usize::MAX,
        !l.unchecked,
        reaches(r, l, load.arr, load.idx),
        l.load(load) is Ok,
        ({
            let e = l.ir.types.element_type(load.arr)->0;
            0 <= r.index < r.len ==> i64::MIN <= r.index * element_bytes(e) <= i64::MAX
                && i64::MIN <= address_of(r, e) <= i64::MAX
        }),
    ensures
        ({
            let e = l.ir.types.element_type(load.arr)->0;
            let p = l.lookup_array(load.arr)->Ok_0;
            let (s1, idx) = l.widened(l.lookup(load.idx)->Ok_0, l.source_ty(load.idx));
            let q = widened_reach(r, l, load.idx);
            let s2 = s1.bounds_guard(idx, p.len)->Ok_0;
            let s = l.load(load)->Ok_0;
            let code = s.blocks[s.cur as int].insts;
            &&& guards_access(s1, s2, idx, p.len, q)
            &&& s.cur == s2.cur
            &&& code.len() == 4
            &&& code.last().op matches OpV::Load(t, a) && t == element_ty(e) && (0 <= r.index
                < r.len ==> valued(w, q.values, code, 3)[a.0] == Value::I64(
                address_of(r, e) as i64,
            ))
            &&& s.vals[load.dst.0] == Val(code.last().first)
        }),
{
    let e = l.ir.types.element_type(load.arr)->0;
    let p = l.lookup_array(load.arr)->Ok_0;
    let (s1, idx) = l.widened(l.lookup(load.idx)->Ok_0, l.source_ty(load.idx));
    let q = widened_reach(r, l, load.idx);
    lemma_widened(w, l, load.arr, load.idx, r);
    law_accesses_are_checked(s1, idx, p.len, q.ints);
    let s2 = s1.bounds_guard(idx, p.len)->Ok_0;
    lemma_guarded_wf(s1, idx, p.len);
    let (s3, a) = s2.address(p.data, idx, element_bytes(e));
    lemma_address_shape(s2, p.data, idx, element_bytes(e));
    if 0 <= r.index < r.len {
        lemma_address(w, s2, p.data, idx, element_bytes(e), q);
    }
    let op = OpV::Load(element_ty(e), a);
    let s4 = s3.ins(op, element_ty(e));
    let made = ClifInstV { op, first: s3.tys.len() as usize, count: 1 };
    assert(s4.blocks[s2.cur as int].insts == s3.blocks[s2.cur as int].insts.push(made));
    let code = s4.blocks[s2.cur as int].insts;
    if 0 <= r.index < r.len {
        crate::transfer::lemma_valued_prefix(
            w,
            q.values,
            code,
            s3.blocks[s2.cur as int].insts,
            3,
        );
    }
}

/// A checked store goes on exactly where the subscript is inside the array, and there it
/// stores its value at the address of the element; elsewhere the host learns of the
/// subscript and the length.
#[verifier::rlimit(40)]
pub proof fn law_stores_reach_their_element(
    w: FloatWorld,
    l: Low,
    arr: LocalId,
    idx_id: ValueId,
    val_id: ValueId,
    r: Reach,
)
    requires
        l.wf(),
        l.tys.len() + 64 <= usize::MAX,
        l.blocks.len() + 64 <= usize::MAX,
        !l.unchecked,
        reaches(r, l, arr, idx_id),
        l.store(arr, idx_id, val_id) is Ok,
        ({
            let e = l.ir.types.element_type(arr)->0;
            0 <= r.index < r.len ==> i64::MIN <= r.index * element_bytes(e) <= i64::MAX
                && i64::MIN <= address_of(r, e) <= i64::MAX
        }),
    ensures
        ({
            let e = l.ir.types.element_type(arr)->0;
            let p = l.lookup_array(arr)->Ok_0;
            let (s1, idx) = l.widened(l.lookup(idx_id)->Ok_0, l.source_ty(idx_id));
            let q = widened_reach(r, l, idx_id);
            let s2 = s1.bounds_guard(idx, p.len)->Ok_0;
            let s = l.store(arr, idx_id, val_id)->Ok_0;
            let code = s.blocks[s.cur as int].insts;
            &&& guards_access(s1, s2, idx, p.len, q)
            &&& s.cur == s2.cur
            &&& code.len() == 4
            &&& code.last().op matches OpV::Store(x, a) && l.lookup(val_id) == Ok::<Val, Seq<char>>(
                x,
            ) && (0 <= r.index < r.len ==> valued(w, q.values, code, 3)[a.0] == Value::I64(
                address_of(r, e) as i64,
            ))
        }),
{
    let e = l.ir.types.element_type(arr)->0;
    let p = l.lookup_array(arr)->Ok_0;
    let (s1, idx) = l.widened(l.lookup(idx_id)->Ok_0, l.source_ty(idx_id));
    let q = widened_reach(r, l, idx_id);
    lemma_widened(w, l, arr, idx_id, r);
    law_accesses_are_checked(s1, idx, p.len, q.ints);
    let s2 = s1.bounds_guard(idx, p.len)->Ok_0;
    lemma_guarded_wf(s1, idx, p.len);
    let (s3, a) = s2.address(p.data, idx, element_bytes(e));
    lemma_address_shape(s2, p.data, idx, element_bytes(e));
    if 0 <= r.index < r.len {
        lemma_address(w, s2, p.data, idx, element_bytes(e), q);
    }
    let x = s1.lookup(val_id)->Ok_0;
    let op = OpV::Store(x, a);
    let s4 = s3.end(op);
    let made = ClifInstV { op, first: s3.tys.len() as usize, count: 0 };
    assert(s4.blocks[s2.cur as int].insts == s3.blocks[s2.cur as int].insts.push(made));
    let code = s4.blocks[s2.cur as int].insts;
    if 0 <= r.index < r.len {
        crate::transfer::lemma_valued_prefix(
            w,
            q.values,
            code,
            s3.blocks[s2.cur as int].insts,
            3,
        );
    }
}

/// An instruction leaves a lowering that can go on.
pub proof fn lemma_ins_wf(l: Low, op: OpV, t: ClifTy)
    requires
        l.wf(),
    ensures
        l.ins(op, t).wf(),
        l.end(op).wf(),
        l.ins(op, t).tys.len() == l.tys.len() + 1,
        l.end(op).tys.len() == l.tys.len(),
        l.end(op).tys =~= l.tys,
        l.end(op).blocks.len() == l.blocks.len(),
        l.ins(op, t).blocks.len() == l.blocks.len(),
{
    let s = l.ins(op, t);
    let e = l.end(op);
    assert forall|b: int, k: int|
        #![trigger s.blocks[b].params[k]]
        0 <= b < s.blocks.len() && 0 <= k < s.blocks[b].params.len() implies s.has(
        s.blocks[b].params[k],
    ) by {
        assert(s.blocks[b].params == l.blocks[b].params);
        assert(l.has(l.blocks[b].params[k]));
    }
    assert forall|b: int, k: int|
        #![trigger e.blocks[b].params[k]]
        0 <= b < e.blocks.len() && 0 <= k < e.blocks[b].params.len() implies e.has(
        e.blocks[b].params[k],
    ) by {
        assert(e.blocks[b].params == l.blocks[b].params);
        assert(l.has(l.blocks[b].params[k]));
    }
    assert(e.tys =~= l.tys);
}

/// An empty block more leaves a lowering that can go on.
proof fn lemma_block_wf(l: Low)
    requires
        l.wf(),
    ensures
        l.with_block().wf(),
{
    let s = l.with_block();
    assert forall|b: int, k: int|
        #![trigger s.blocks[b].params[k]]
        0 <= b < s.blocks.len() && 0 <= k < s.blocks[b].params.len() implies s.has(
        s.blocks[b].params[k],
    ) by {
        assert(b < l.blocks.len());
        assert(s.blocks[b] == l.blocks[b]);
        assert(l.has(l.blocks[b].params[k]));
    }
}

/// A parameter more leaves a lowering that can go on.
pub proof fn lemma_param_wf(l: Low, c: usize, t: ClifTy)
    requires
        l.wf(),
        (c as int) < l.blocks.len(),
        l.tys.len() < usize::MAX,
    ensures
        l.with_param(c, t).wf(),
        l.with_param(c, t).blocks.len() == l.blocks.len(),
        l.with_param(c, t).blocks[c as int].params.len() == l.blocks[c as int].params.len() + 1,
        l.with_param(c, t).tys.len() == l.tys.len() + 1,
{
    let s = l.with_param(c, t);
    assert forall|b: int, k: int|
        #![trigger s.blocks[b].params[k]]
        0 <= b < s.blocks.len() && 0 <= k < s.blocks[b].params.len() implies s.has(
        s.blocks[b].params[k],
    ) by {
        if b != c || k < l.blocks[b].params.len() {
            assert(s.blocks[b].params[k] == l.blocks[b].params[k]);
            assert(l.has(l.blocks[b].params[k]));
        }
    }
}

/// An import more leaves a lowering that can go on.
pub proof fn lemma_import_wf(l: Low, name: Seq<char>)
    requires
        l.wf(),
        l.import(name) is Ok,
    ensures
        (l.import(name)->Ok_0).0.wf(),
        (l.import(name)->Ok_0).0 == (Low { imports: (l.import(name)->Ok_0).0.imports, ..l }),
{
    crate::search::lemma_first_where(l.callees, crate::lower::named(name));
}

/// A guard leaves a lowering that can go on.
proof fn lemma_guarded_wf(l: Low, idx: Val, len: Val)
    requires
        l.wf(),
        l.has(idx),
        l.has(len),
        roomy(l),
        !l.unchecked,
        l.bounds_guard(idx, len) is Ok,
    ensures
        ({
            let s = l.bounds_guard(idx, len)->Ok_0;
            &&& s.wf()
            &&& l.tys.len() <= s.tys.len() <= l.tys.len() + 16
            &&& s.vals == l.vals
            &&& s.repairs == l.repairs
        }),
{
    let i8t = ClifTy::I8;
    let i64t = ClifTy::I64;
    let below = l.next();
    let o1 = OpV::IntCompare(IntCond::LessThan, idx, len);
    lemma_ins_wf(l, o1, i8t);
    let s1 = l.ins(o1, i8t);
    let o2 = OpV::Iconst(i64t, 0);
    lemma_ins_wf(s1, o2, i64t);
    let s2 = s1.ins(o2, i64t);
    let o3 = OpV::IntCompare(IntCond::GreaterThanOrEqual, idx, s1.next());
    lemma_ins_wf(s2, o3, i8t);
    let s3 = s2.ins(o3, i8t);
    let o4 = OpV::Binary(BinaryOp::Band, below, s2.next());
    lemma_ins_wf(s3, o4, i8t);
    let s4 = s3.ins(o4, i8t);
    let o5 = OpV::Iconst(i64t, BOUNDS);
    lemma_ins_wf(s4, o5, i64t);
    let s5 = s4.ins(o5, i64t);
    if s5.panic is None {
        lemma_import_wf(s5, "helix_panic"@);
        let m = (s5.import("helix_panic"@)->Ok_0).0;
        let b = m.blocks.len() as usize;
        lemma_block_wf(m);
        lemma_param_wf(m.with_block(), b, i64t);
        lemma_param_wf(m.with_block().with_param(b, i64t), b, i64t);
        lemma_param_wf(m.with_block().with_param(b, i64t).with_param(b, i64t), b, i64t);
    }
    let (p, pb) = s5.panic_block()->Ok_0;
    assert(p.wf());
    lemma_block_wf(p);
    let cont = p.blocks.len() as usize;
    lemma_ins_wf(
        p.with_block(),
        OpV::Brif(s3.next(), cont, seq![], pb, seq![s4.next(), idx, len]),
        i8t,
    );
}

/// The shape of the code that computes an address.
proof fn lemma_address_shape(l: Low, base: Val, idx: Val, size: i64)
    requires
        l.wf(),
        l.tys.len() + 8 <= usize::MAX,
        l.blocks[l.cur as int].insts.len() == 0,
    ensures
        ({
            let (s, a) = l.address(base, idx, size);
            &&& s.cur == l.cur
            &&& s.blocks.len() == l.blocks.len()
            &&& s.blocks[l.cur as int].insts.len() == 3
            &&& s.tys.len() == l.tys.len() + 3
            &&& s.wf()
            &&& s.vals == l.vals
        }),
{
}

} // verus!
