//! What a loop that is taken out of its function takes along, said of what its blocks read.
use vstd::prelude::*;

use crate::ctx::{
    add_value, arg_values, arrays_of, blocks_read, capture_shape, captured, captures_of, condition,
    element_bytes, insts_read, phis_read, with_array, with_arrays,
};
use crate::ir::{BlockId, ElemTy, FuncIr, Inst, LocalId, Phi, Term, Ty, ValueId};

verus! {

/// A block reads a value: an instruction does, the branch at its end does, or a phi takes it.
pub open spec fn reads_in(ir: FuncIr, b: BlockId, v: ValueId) -> bool {
    ||| exists|k: int|
        0 <= k < ir.at(b).insts@.len() && (#[trigger] ir.at(b).insts@[k]).reads().contains(v)
    ||| (ir.at(b).term matches Term::Branch { cond, .. } && cond == v)
    ||| exists|k: int|
        0 <= k < ir.at(b).phis@.len() && takes(#[trigger] ir.at(b).phis@[k], v)
}

/// A phi takes a value on some edge.
pub open spec fn takes(phi: Phi, v: ValueId) -> bool {
    exists|a: int| 0 <= a < phi.args@.len() && (#[trigger] phi.args@[a]).1 == v
}

/// Some block of the list reads a value.
pub open spec fn read_by(ir: FuncIr, blocks: Seq<BlockId>, v: ValueId) -> bool {
    exists|i: int| 0 <= i < blocks.len() && reads_in(ir, #[trigger] blocks[i], v)
}

/// Lists joined hold what either holds.
proof fn lemma_joined<T>(a: Seq<T>, b: Seq<T>, x: T)
    ensures
        (a + b).contains(x) <==> a.contains(x) || b.contains(x),
{
    let s = a + b;
    if a.contains(x) {
        let i = choose|i: int| 0 <= i < a.len() && a[i] == x;
        assert(s[i] == x);
    }
    if b.contains(x) {
        let i = choose|i: int| 0 <= i < b.len() && b[i] == x;
        assert(s[a.len() + i] == x);
    }
    if s.contains(x) {
        let i = choose|i: int| 0 <= i < s.len() && s[i] == x;
        if i < a.len() {
            assert(a[i] == x);
        } else {
            assert(b[i - a.len()] == x);
        }
    }
}

/// What instructions read.
proof fn lemma_insts_read(insts: Seq<Inst>, k: nat, v: ValueId)
    requires
        k <= insts.len(),
    ensures
        insts_read(insts, k).contains(v) <==> exists|j: int|
            0 <= j < k && (#[trigger] insts[j]).reads().contains(v),
    decreases k,
{
    if k > 0 {
        lemma_insts_read(insts, (k - 1) as nat, v);
        lemma_joined(insts_read(insts, (k - 1) as nat), insts[k - 1].reads(), v);
    }
}

/// What phis take.
proof fn lemma_phis_read(phis: Seq<Phi>, k: nat, v: ValueId)
    requires
        k <= phis.len(),
    ensures
        phis_read(phis, k).contains(v) <==> exists|j: int| 0 <= j < k && takes(#[trigger] phis[j], v),
    decreases k,
{
    if k > 0 {
        lemma_phis_read(phis, (k - 1) as nat, v);
        let p = phis[k - 1];
        let vs = arg_values(p.args@);
        lemma_joined(phis_read(phis, (k - 1) as nat), vs, v);
        if vs.contains(v) {
            let a = choose|a: int| 0 <= a < vs.len() && vs[a] == v;
            assert(p.args@[a].1 == v);
        }
        if takes(p, v) {
            let a = choose|a: int| 0 <= a < p.args@.len() && (#[trigger] p.args@[a]).1 == v;
            assert(vs[a] == v);
        }
    }
}

/// What blocks read.
proof fn lemma_blocks_read(ir: FuncIr, blocks: Seq<BlockId>, n: nat, v: ValueId)
    requires
        n <= blocks.len(),
    ensures
        blocks_read(ir, blocks, n).contains(v) <==> exists|i: int|
            0 <= i < n && reads_in(ir, #[trigger] blocks[i], v),
    decreases n,
{
    if n > 0 {
        lemma_blocks_read(ir, blocks, (n - 1) as nat, v);
        let b = blocks[n - 1];
        let data = ir.at(b);
        let before = blocks_read(ir, blocks, (n - 1) as nat);
        let i = insts_read(data.insts@, data.insts@.len());
        let c = condition(data.term);
        let p = phis_read(data.phis@, data.phis@.len());
        lemma_insts_read(data.insts@, data.insts@.len(), v);
        lemma_phis_read(data.phis@, data.phis@.len(), v);
        lemma_joined(before, i, v);
        lemma_joined(before + i, c, v);
        lemma_joined(before + i + c, p, v);
        if c.contains(v) {
            assert(c[0] == v);
        }
        match data.term {
            Term::Branch { cond, .. } => {
                assert(c[0] == cond);
            },
            _ => {},
        }
        assert(reads_in(ir, b, v) <==> i.contains(v) || c.contains(v) || p.contains(v));
    }
}

/// A value that is added is there, and nothing else is new.
proof fn lemma_added(s: Seq<ValueId>, v: ValueId, x: ValueId)
    ensures
        add_value(s, v).contains(x) <==> s.contains(x) || x == v,
    decreases s.len(),
{
    let t = add_value(s, v);
    if s.len() == 0 {
        assert(t[0] == v);
    } else if s.last().0 < v.0 {
        lemma_joined(s, seq![v], x);
        assert(t =~= s + seq![v]);
        assert(seq![v][0] == v);
    } else if s.last() == v {
        assert(s[s.len() - 1] == v);
    } else {
        let d = s.drop_last();
        lemma_added(d, v, x);
        let last = seq![s.last()];
        assert(t =~= add_value(d, v) + last);
        assert(s =~= d + last);
        lemma_joined(add_value(d, v), last, x);
        lemma_joined(d, last, x);
    }
}

/// What is captured of a list.
proof fn lemma_captured(
    ir: FuncIr,
    blocks: Seq<BlockId>,
    iv: ValueId,
    acc: Option<ValueId>,
    uses: Seq<ValueId>,
    k: nat,
    v: ValueId,
)
    requires
        k <= uses.len(),
    ensures
        captured(ir, blocks, iv, acc, uses, k).contains(v) <==> v != iv && acc != Some(v)
            && !blocks.contains(ir.home(v)) && exists|j: int| 0 <= j < k && #[trigger] uses[j] == v,
    decreases k,
{
    if k > 0 {
        lemma_captured(ir, blocks, iv, acc, uses, (k - 1) as nat, v);
        let before = captured(ir, blocks, iv, acc, uses, (k - 1) as nat);
        lemma_added(before, uses[k - 1], v);
    }
}

/// What is taken along is what the blocks of the loop read and what is defined outside of
/// them, but for the induction value and the accumulator, which are supplied.
pub proof fn law_what_is_read_from_outside_is_captured(
    ir: FuncIr,
    blocks: Seq<BlockId>,
    iv: ValueId,
    acc: Option<ValueId>,
    v: ValueId,
)
    requires
        captures_of(ir, blocks, iv, acc) is Some,
    ensures
        captures_of(ir, blocks, iv, acc)->0.contains(v) <==> read_by(ir, blocks, v)
            && !blocks.contains(ir.home(v)) && v != iv && acc != Some(v),
{
    let uses = blocks_read(ir, blocks, blocks.len());
    lemma_blocks_read(ir, blocks, blocks.len(), v);
    lemma_captured(ir, blocks, iv, acc, uses, uses.len(), v);
    if uses.contains(v) {
        let j = choose|j: int| 0 <= j < uses.len() && uses[j] == v;
        assert(uses[j] == v);
    }
}

/// A loop can be taken out exactly where each value that it reads is supplied, or is defined
/// outside of it and no truth value, or is defined in it by an instruction.
pub proof fn law_captures_fail_only_for_a_reason(
    ir: FuncIr,
    blocks: Seq<BlockId>,
    iv: ValueId,
    acc: Option<ValueId>,
)
    ensures
        captures_of(ir, blocks, iv, acc) is Some <==> forall|v: ValueId| #[trigger]
            read_by(ir, blocks, v) && v != iv && acc != Some(v) ==> {
                &&& !blocks.contains(ir.home(v)) ==> ir.type_of(v) != Some(Ty::Bool)
                &&& blocks.contains(ir.home(v)) ==> forall|i: int, k: int|
                    0 <= i < blocks.len() && 0 <= k < ir.at(blocks[i]).phis@.len() ==> (
                    #[trigger] ir.at(#[trigger] blocks[i]).phis@[k]).dst != v
            },
{
    let uses = blocks_read(ir, blocks, blocks.len());
    assert forall|v: ValueId| uses.contains(v) <==> #[trigger] read_by(ir, blocks, v) by {
        lemma_blocks_read(ir, blocks, blocks.len(), v);
    }
    if captures_of(ir, blocks, iv, acc) is Some {
        assert forall|v: ValueId| #[trigger]
            read_by(ir, blocks, v) && v != iv && acc != Some(v) implies {
            &&& !blocks.contains(ir.home(v)) ==> ir.type_of(v) != Some(Ty::Bool)
            &&& blocks.contains(ir.home(v)) ==> forall|i: int, k: int|
                0 <= i < blocks.len() && 0 <= k < ir.at(blocks[i]).phis@.len() ==> (
                #[trigger] ir.at(#[trigger] blocks[i]).phis@[k]).dst != v
        } by {
            let j = choose|j: int| 0 <= j < uses.len() && uses[j] == v;
            assert(crate::ctx::can_have(ir, blocks, iv, acc, uses[j]));
        }
    } else {
        let j = choose|j: int|
            0 <= j < uses.len() && !crate::ctx::can_have(ir, blocks, iv, acc, #[trigger] uses[j]);
        assert(uses.contains(uses[j]));
        assert(read_by(ir, blocks, uses[j]));
    }
}

/// An instruction reads or writes elements of an array.
pub open spec fn touches(inst: Inst, a: LocalId) -> bool {
    ||| (inst matches Inst::Load(l) && l.arr == a)
    ||| (inst matches Inst::Store { arr, .. } && arr == a)
}

/// Arrays of instructions.
proof fn lemma_with_arrays(s: Seq<LocalId>, insts: Seq<Inst>, k: nat, a: LocalId)
    requires
        k <= insts.len(),
        s.no_duplicates(),
    ensures
        with_arrays(s, insts, k).no_duplicates(),
        with_arrays(s, insts, k).contains(a) <==> s.contains(a) || exists|j: int|
            0 <= j < k && touches(#[trigger] insts[j], a),
    decreases k,
{
    if k > 0 {
        lemma_with_arrays(s, insts, (k - 1) as nat, a);
        let before = with_arrays(s, insts, (k - 1) as nat);
        let after = with_array(before, insts[k - 1]);
        if after != before {
            let x = crate::ctx::array_of(insts[k - 1])->0;
            assert(after =~= before + seq![x]);
            lemma_joined(before, seq![x], a);
            assert(seq![x][0] == x);
            assert(touches(insts[k - 1], x));
        }
        if touches(insts[k - 1], a) {
            assert(crate::ctx::array_of(insts[k - 1]) == Some(a));
        }
    }
}

/// The arrays that are taken along are those that the blocks of the loop read or write, each
/// once.
pub proof fn law_touched_arrays_are_captured(
    ir: FuncIr,
    blocks: Seq<BlockId>,
    n: nat,
    a: LocalId,
)
    requires
        n <= blocks.len(),
    ensures
        arrays_of(ir, blocks, n).no_duplicates(),
        arrays_of(ir, blocks, n).contains(a) <==> exists|i: int, k: int|
            0 <= i < n && 0 <= k < ir.at(blocks[i]).insts@.len() && touches(
                #[trigger] ir.at(#[trigger] blocks[i]).insts@[k],
                a,
            ),
    decreases n,
{
    if n > 0 {
        law_touched_arrays_are_captured(ir, blocks, (n - 1) as nat, a);
        let insts = ir.at(blocks[n - 1]).insts@;
        lemma_with_arrays(arrays_of(ir, blocks, (n - 1) as nat), insts, insts.len(), a);
        if exists|j: int| 0 <= j < insts.len() && touches(#[trigger] insts[j], a) {
            let j = choose|j: int| 0 <= j < insts.len() && touches(#[trigger] insts[j], a);
            assert(touches(ir.at(blocks[n - 1]).insts@[j], a));
        }
    }
}

/// Values are kept at the width of their type, and so are elements; a truth value cannot be
/// kept, but takes a word as an element.
pub proof fn law_widths_are_those_of_types(e: ElemTy)
    ensures
        capture_shape(Some(Ty::I64)) == Some((8u64, false)),
        capture_shape(Some(Ty::I32)) == Some((4u64, false)),
        capture_shape(Some(Ty::F64)) == Some((8u64, true)),
        capture_shape(Some(Ty::F32)) == Some((4u64, true)),
        capture_shape(Some(Ty::Bool)) is None,
        capture_shape(Some(Ty::Array(e))) is None,
        element_bytes(ElemTy::I32) == 4 && element_bytes(ElemTy::F32) == 4,
        element_bytes(ElemTy::I64) == 8 && element_bytes(ElemTy::F64) == 8,
        element_bytes(ElemTy::Bool) == 8,
{
}

} // verus!
