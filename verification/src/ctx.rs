//! What a loop body needs from its function, and where it lies in the packed context.
//!
//! The context starts with two reserved words, the second of which receives the
//! result of a reduction. Two words per array follow, data and length, and then one
//! word per captured scalar.
use vstd::prelude::*;

use crate::ir::{
    BlockData, BlockId, Call, ElemTy, FuncIr, Inst, LocalId, Phi, Term, Ty, ValueId,
};
use crate::loops::has_member;
use crate::text::is_text;

verus! {

/// Byte offset of the word that receives the result of a reduction.
pub const CTX_ACC_OFF: i64 = 8;

/// Byte offset of the first array.
pub const CTX_ARRAY_BASE: i64 = 16;

/// Most arrays that one region may use.
pub const MAX_ARRAY_SLOTS: usize = 0x10_0000;

/// Byte layout of the packed context.
#[derive(Debug)]
pub struct CtxLayout {
    /// Array, size of its elements in bytes, and offset of its data word; the length
    /// is in the next word.
    pub arrays: Vec<(LocalId, i64, i64)>,
    /// Captured value, width in bytes, whether it is floating point, and offset.
    pub scalars: Vec<(u32, u64, bool, i64)>,
}

impl CtxLayout {
    /// Arrays and scalars lie one behind another, without gaps.
    pub open spec fn packed(self) -> bool {
        &&& self.arrays@.len() <= MAX_ARRAY_SLOTS
        &&& self.scalars@.len() <= 0x1_0000_0000
        &&& forall|k: int|
            0 <= k < self.arrays@.len() ==> (#[trigger] self.arrays@[k]).2 == CTX_ARRAY_BASE + 16
                * k
        &&& forall|k: int|
            0 <= k < self.scalars@.len() ==> (#[trigger] self.scalars@[k]).3 == CTX_ARRAY_BASE
                + 16 * self.arrays@.len() + 8 * k
    }

    /// Size of the context in bytes: the reserved words, two words per array and one
    /// word per scalar.
    pub fn len_bytes(&self) -> (r: i64)
        requires
            self.packed(),
        ensures
            r == CTX_ARRAY_BASE + 16 * self.arrays@.len() + 8 * self.scalars@.len(),
            r > 0,
            r % 8 == 0,
    {
        CTX_ARRAY_BASE + 16 * (self.arrays.len() as i64) + 8 * (self.scalars.len() as i64)
    }
}

// ---------------------------------------------------------------------------
// Uses
// ---------------------------------------------------------------------------

/// What the first `k` instructions read, in order.
pub open spec fn insts_read(insts: Seq<Inst>, k: nat) -> Seq<ValueId>
    decreases k,
{
    if k == 0 {
        seq![]
    } else {
        insts_read(insts, (k - 1) as nat) + insts[k - 1].reads()
    }
}

/// What the arguments of a phi are.
pub open spec fn arg_values(args: Seq<(BlockId, ValueId)>) -> Seq<ValueId> {
    args.map_values(|a: (BlockId, ValueId)| a.1)
}

/// What the first `k` phis take, in order.
pub open spec fn phis_read(phis: Seq<Phi>, k: nat) -> Seq<ValueId>
    decreases k,
{
    if k == 0 {
        seq![]
    } else {
        phis_read(phis, (k - 1) as nat) + arg_values(phis[k - 1].args@)
    }
}

/// The condition of a branch.
pub open spec fn condition(term: Term) -> Seq<ValueId> {
    match term {
        Term::Branch { cond, .. } => seq![cond],
        _ => seq![],
    }
}

/// What the first `n` blocks read, in order.
pub open spec fn blocks_read(ir: FuncIr, blocks: Seq<BlockId>, n: nat) -> Seq<ValueId>
    decreases n,
{
    if n == 0 {
        seq![]
    } else {
        let data = ir.at(blocks[n - 1]);
        blocks_read(ir, blocks, (n - 1) as nat) + insts_read(data.insts@, data.insts@.len())
            + condition(data.term) + phis_read(data.phis@, data.phis@.len())
    }
}

/// A phi of the loop defines `v`.
pub open spec fn phi_of_loop(ir: FuncIr, blocks: Seq<BlockId>, v: ValueId) -> bool {
    exists|i: int, k: int|
        0 <= i < blocks.len() && 0 <= k < ir.at(blocks[i]).phis@.len() && (
        #[trigger] ir.at(#[trigger] blocks[i]).phis@[k]).dst == v
}

/// `v` comes from outside the loop.
pub open spec fn from_without(ir: FuncIr, blocks: Seq<BlockId>, v: ValueId) -> bool {
    !blocks.contains(ir.home(v))
}

/// `v` is bound in the body by other means: it is the induction value or the
/// accumulator.
pub open spec fn bound_in_body(iv: ValueId, acc: Option<ValueId>, v: ValueId) -> bool {
    v == iv || acc == Some(v)
}

/// The body can have `v`: it is bound there, or it comes from outside and is no
/// `bool`, or an instruction of the loop defines it.
pub open spec fn can_have(
    ir: FuncIr,
    blocks: Seq<BlockId>,
    iv: ValueId,
    acc: Option<ValueId>,
    v: ValueId,
) -> bool {
    if bound_in_body(iv, acc, v) {
        true
    } else if from_without(ir, blocks, v) {
        ir.type_of(v) != Some(Ty::Bool)
    } else {
        !phi_of_loop(ir, blocks, v)
    }
}

/// Adds a value to a list in ascending order, unless it is there.
pub open spec fn add_value(s: Seq<ValueId>, v: ValueId) -> Seq<ValueId>
    decreases s.len(),
{
    if s.len() == 0 {
        seq![v]
    } else if s.last().0 < v.0 {
        s.push(v)
    } else if s.last() == v {
        s
    } else {
        add_value(s.drop_last(), v).push(s.last())
    }
}

/// The values among the first `k` that come from outside the loop, ascending.
pub open spec fn captured(
    ir: FuncIr,
    blocks: Seq<BlockId>,
    iv: ValueId,
    acc: Option<ValueId>,
    uses: Seq<ValueId>,
    k: nat,
) -> Seq<ValueId>
    decreases k,
{
    if k == 0 {
        seq![]
    } else {
        let before = captured(ir, blocks, iv, acc, uses, (k - 1) as nat);
        let v = uses[k - 1];
        if !bound_in_body(iv, acc, v) && from_without(ir, blocks, v) {
            add_value(before, v)
        } else {
            before
        }
    }
}

/// The values that the body captures, ascending; `None` where it cannot have one of
/// those that it reads.
pub open spec fn captures_of(
    ir: FuncIr,
    blocks: Seq<BlockId>,
    iv: ValueId,
    acc: Option<ValueId>,
) -> Option<Seq<ValueId>> {
    let uses = blocks_read(ir, blocks, blocks.len());
    if forall|i: int|
        0 <= i < uses.len() ==> can_have(ir, blocks, iv, acc, #[trigger] uses[i]) {
        Some(captured(ir, blocks, iv, acc, uses, uses.len()))
    } else {
        None
    }
}

/// Appends what a list of values holds.
fn append_values(out: &mut Vec<ValueId>, vs: &Vec<ValueId>)
    ensures
        final(out)@ == old(out)@ + vs@,
{
    let mut k: usize = 0;
    assert(vs@.take(0) =~= seq![]);
    while k < vs.len()
        invariant
            k <= vs@.len(),
            out@ == old(out)@ + vs@.take(k as int),
        decreases vs@.len() - k,
    {
        out.push(vs[k]);
        proof {
            assert(old(out)@ + vs@.take(k + 1) =~= (old(out)@ + vs@.take(k as int)).push(
                vs@[k as int],
            ));
        }
        k = k + 1;
    }
    assert(vs@.take(k as int) =~= vs@);
}

/// Appends what a block reads.
fn append_block_reads(out: &mut Vec<ValueId>, data: &BlockData)
    ensures
        final(out)@ == old(out)@ + insts_read(data.insts@, data.insts@.len()) + condition(data.term)
            + phis_read(data.phis@, data.phis@.len()),
{
    let ghost start = out@;
    let mut k: usize = 0;
    assert(start + insts_read(data.insts@, 0) =~= start);
    while k < data.insts.len()
        invariant
            k <= data.insts@.len(),
            out@ == start + insts_read(data.insts@, k as nat),
        decreases data.insts@.len() - k,
    {
        let uses = data.insts[k].uses();
        append_values(out, &uses);
        proof {
            assert(out@ =~= start + insts_read(data.insts@, (k + 1) as nat));
        }
        k = k + 1;
    }
    let ghost mid = out@;
    if let Term::Branch { cond, .. } = &data.term {
        out.push(*cond);
    }
    assert(out@ =~= mid + condition(data.term));
    let ghost late = out@;
    let mut j: usize = 0;
    assert(late + phis_read(data.phis@, 0) =~= late);
    while j < data.phis.len()
        invariant
            j <= data.phis@.len(),
            out@ == late + phis_read(data.phis@, j as nat),
        decreases data.phis@.len() - j,
    {
        let args = &data.phis[j].args;
        let ghost before = out@;
        let mut m: usize = 0;
        assert(before + arg_values(args@).take(0) =~= before);
        while m < args.len()
            invariant
                m <= args@.len(),
                out@ == before + arg_values(args@).take(m as int),
            decreases args@.len() - m,
        {
            out.push(args[m].1);
            proof {
                assert(arg_values(args@)[m as int] == args@[m as int].1);
                assert(before + arg_values(args@).take(m + 1) =~= (before + arg_values(
                    args@,
                ).take(m as int)).push(args@[m as int].1));
            }
            m = m + 1;
        }
        proof {
            assert(arg_values(args@).take(m as int) =~= arg_values(args@));
            assert(out@ =~= late + phis_read(data.phis@, (j + 1) as nat));
        }
        j = j + 1;
    }
}

/// What the blocks of a loop read, in order.
fn collect_reads(ir: &FuncIr, blocks: &Vec<BlockId>) -> (r: Vec<ValueId>)
    requires
        forall|i: int| 0 <= i < blocks@.len() ==> ir.has_block(#[trigger] blocks@[i]),
    ensures
        r@ == blocks_read(*ir, blocks@, blocks@.len()),
{
    let mut out: Vec<ValueId> = Vec::new();
    let mut n: usize = 0;
    while n < blocks.len()
        invariant
            forall|i: int| 0 <= i < blocks@.len() ==> ir.has_block(#[trigger] blocks@[i]),
            n <= blocks@.len(),
            out@ == blocks_read(*ir, blocks@, n as nat),
        decreases blocks@.len() - n,
    {
        append_block_reads(&mut out, ir.block(blocks[n]));
        n = n + 1;
    }
    out
}

/// Whether a phi of the loop defines `v`.
fn is_loop_phi(ir: &FuncIr, blocks: &Vec<BlockId>, v: ValueId) -> (r: bool)
    requires
        forall|i: int| 0 <= i < blocks@.len() ==> ir.has_block(#[trigger] blocks@[i]),
    ensures
        r == phi_of_loop(*ir, blocks@, v),
{
    let mut n: usize = 0;
    while n < blocks.len()
        invariant
            forall|i: int| 0 <= i < blocks@.len() ==> ir.has_block(#[trigger] blocks@[i]),
            n <= blocks@.len(),
            forall|i: int, k: int|
                0 <= i < n && 0 <= k < ir.at(blocks@[i]).phis@.len() ==> (
                #[trigger] ir.at(#[trigger] blocks@[i]).phis@[k]).dst != v,
        decreases blocks@.len() - n,
    {
        let phis = &ir.block(blocks[n]).phis;
        let mut k: usize = 0;
        while k < phis.len()
            invariant
                n < blocks@.len(),
                phis@ == ir.at(blocks@[n as int]).phis@,
                k <= phis@.len(),
                forall|j: int| 0 <= j < k ==> (#[trigger] phis@[j]).dst != v,
            decreases phis@.len() - k,
        {
            if phis[k].dst == v {
                assert(ir.at(blocks@[n as int]).phis@[k as int].dst == v);
                return true;
            }
            k = k + 1;
        }
        proof {
            assert forall|i: int, k: int|
                0 <= i < n + 1 && 0 <= k < ir.at(blocks@[i]).phis@.len() implies (
            #[trigger] ir.at(#[trigger] blocks@[i]).phis@[k]).dst != v by {
                if i == n {
                    assert(phis@[k].dst != v);
                }
            }
        }
        n = n + 1;
    }
    false
}

/// Adds a value to a list in ascending order, unless it is there.
fn insert_value(out: &mut Vec<ValueId>, v: ValueId)
    ensures
        final(out)@ == add_value(old(out)@, v),
{
    let ghost all = out@;
    let mut pos: usize = out.len();
    proof {
        assert(all.take(pos as int) =~= all);
        assert(add_value(all, v) =~= add_value(all.take(pos as int), v) + all.skip(pos as int));
    }
    while pos > 0 && out[pos - 1].0 > v.0
        invariant
            all == out@,
            pos <= out@.len(),
            add_value(all, v) == add_value(all.take(pos as int), v) + all.skip(pos as int),
        decreases pos,
    {
        proof {
            let now = all.take(pos as int);
            assert(now.last() == all[pos - 1]);
            assert(now.drop_last() =~= all.take(pos - 1));
            assert(add_value(all.take(pos - 1), v).push(all[pos - 1]) + all.skip(pos as int)
                =~= add_value(all.take(pos - 1), v) + all.skip(pos - 1));
        }
        pos = pos - 1;
    }
    if pos > 0 && out[pos - 1] == v {
        proof {
            assert(all.take(pos as int).last() == all[pos - 1]);
            assert(all.take(pos as int) + all.skip(pos as int) =~= all);
        }
        return;
    }
    out.insert(pos, v);
    proof {
        let now = all.take(pos as int);
        if pos > 0 {
            assert(now.last() == all[pos - 1]);
        }
        assert(add_value(now, v) =~= now.push(v));
        assert(out@ =~= now.push(v) + all.skip(pos as int));
    }
}

/// The values that the body captures, ascending; `None` where it cannot have one of
/// those that it reads.
pub fn find_captures(ir: &FuncIr, blocks: &Vec<BlockId>, iv: ValueId, acc: Option<ValueId>) -> (r:
    Option<Vec<ValueId>>)
    requires
        ir.wf(),
        forall|i: int| 0 <= i < blocks@.len() ==> ir.has_block(#[trigger] blocks@[i]),
    ensures
        r is Some <==> captures_of(*ir, blocks@, iv, acc) is Some,
        r matches Some(c) ==> captures_of(*ir, blocks@, iv, acc) == Some(c@),
{
    let uses = collect_reads(ir, blocks);
    let mut out: Vec<ValueId> = Vec::new();
    let mut k: usize = 0;
    while k < uses.len()
        invariant
            ir.wf(),
            forall|i: int| 0 <= i < blocks@.len() ==> ir.has_block(#[trigger] blocks@[i]),
            uses@ == blocks_read(*ir, blocks@, blocks@.len()),
            k <= uses@.len(),
            forall|i: int| 0 <= i < k ==> can_have(*ir, blocks@, iv, acc, #[trigger] uses@[i]),
            out@ == captured(*ir, blocks@, iv, acc, uses@, k as nat),
        decreases uses@.len() - k,
    {
        let v = uses[k];
        let is_acc = match acc {
            Some(a) => a == v,
            None => false,
        };
        if v != iv && !is_acc {
            if has_member(blocks, ir.def_block(v)) {
                if is_loop_phi(ir, blocks, v) {
                    assert(!can_have(*ir, blocks@, iv, acc, uses@[k as int]));
                    return None;
                }
            } else {
                let is_bool = match ir.val_ty(v) {
                    Some(Ty::Bool) => true,
                    _ => false,
                };
                if is_bool {
                    assert(!can_have(*ir, blocks@, iv, acc, uses@[k as int]));
                    return None;
                }
                insert_value(&mut out, v);
            }
        }
        k = k + 1;
    }
    Some(out)
}

// ---------------------------------------------------------------------------
// Arrays and calls
// ---------------------------------------------------------------------------

/// The body may make the call: it has no effect outside its result.
pub open spec fn may_call(c: Call) -> bool {
    ||| c.callee@ == "min"@
    ||| c.callee@ == "max"@
    ||| c.callee@ == "sqrt"@
    ||| c.callee@ == "abs"@
    ||| c.callee@ == "len"@
    ||| c.callee@ == "zeros"@ && c.arr_refs@.len() == 1 && c.dst is None
}

/// The array that the instruction reads or writes.
pub open spec fn array_of(inst: Inst) -> Option<LocalId> {
    match inst {
        Inst::Load(l) => Some(l.arr),
        Inst::Store { arr, .. } => Some(arr),
        _ => None,
    }
}

/// The arrays with that of the instruction added, unless it is there.
pub open spec fn with_array(s: Seq<LocalId>, inst: Inst) -> Seq<LocalId> {
    match array_of(inst) {
        Some(a) => if s.contains(a) {
            s
        } else {
            s.push(a)
        },
        None => s,
    }
}

/// The arrays with those of the first `k` instructions added.
pub open spec fn with_arrays(s: Seq<LocalId>, insts: Seq<Inst>, k: nat) -> Seq<LocalId>
    decreases k,
{
    if k == 0 {
        s
    } else {
        with_array(with_arrays(s, insts, (k - 1) as nat), insts[k - 1])
    }
}

/// The arrays of the first `n` blocks, in order of first appearance.
pub open spec fn arrays_of(ir: FuncIr, blocks: Seq<BlockId>, n: nat) -> Seq<LocalId>
    decreases n,
{
    if n == 0 {
        seq![]
    } else {
        let insts = ir.at(blocks[n - 1]).insts@;
        with_arrays(arrays_of(ir, blocks, (n - 1) as nat), insts, insts.len())
    }
}

/// The body may make every call of the loop.
pub open spec fn calls_allowed(ir: FuncIr, blocks: Seq<BlockId>) -> bool {
    forall|i: int, k: int|
        0 <= i < blocks.len() && 0 <= k < ir.at(blocks[i]).insts@.len() ==> match (
        #[trigger] ir.at(#[trigger] blocks[i]).insts@[k]) {
            Inst::Call(c) => may_call(c),
            _ => true,
        }
}

/// Whether the body may make the call.
fn is_allowed(c: &Call) -> (r: bool)
    ensures
        r == may_call(*c),
{
    is_text(&c.callee, "min") || is_text(&c.callee, "max") || is_text(&c.callee, "sqrt")
        || is_text(&c.callee, "abs") || is_text(&c.callee, "len") || (is_text(&c.callee, "zeros")
        && c.arr_refs.len() == 1 && c.dst.is_none())
}

/// Whether `l` is one of the locals.
fn has_local(s: &Vec<LocalId>, l: LocalId) -> (r: bool)
    ensures
        r == s@.contains(l),
{
    let mut k: usize = 0;
    while k < s.len()
        invariant
            k <= s@.len(),
            forall|i: int| 0 <= i < k ==> #[trigger] s@[i] != l,
        decreases s@.len() - k,
    {
        if s[k] == l {
            assert(s@[k as int] == l);
            return true;
        }
        k = k + 1;
    }
    false
}

/// The arrays of a loop, in order of first appearance; `None` where the body may not
/// make a call of the loop.
pub fn find_arrays(ir: &FuncIr, blocks: &Vec<BlockId>) -> (r: Option<Vec<LocalId>>)
    requires
        forall|i: int| 0 <= i < blocks@.len() ==> ir.has_block(#[trigger] blocks@[i]),
    ensures
        r is Some <==> calls_allowed(*ir, blocks@),
        r matches Some(a) ==> a@ == arrays_of(*ir, blocks@, blocks@.len()),
{
    let mut out: Vec<LocalId> = Vec::new();
    let mut n: usize = 0;
    while n < blocks.len()
        invariant
            forall|i: int| 0 <= i < blocks@.len() ==> ir.has_block(#[trigger] blocks@[i]),
            n <= blocks@.len(),
            calls_allowed(*ir, blocks@.take(n as int)),
            out@ == arrays_of(*ir, blocks@, n as nat),
        decreases blocks@.len() - n,
    {
        let insts = &ir.block(blocks[n]).insts;
        let ghost start = out@;
        let mut k: usize = 0;
        while k < insts.len()
            invariant
                n < blocks@.len(),
                insts@ == ir.at(blocks@[n as int]).insts@,
                k <= insts@.len(),
                forall|j: int|
                    0 <= j < k ==> match (#[trigger] insts@[j]) {
                        Inst::Call(c) => may_call(c),
                        _ => true,
                    },
                out@ == with_arrays(start, insts@, k as nat),
            decreases insts@.len() - k,
        {
            let touched: Option<LocalId> = match &insts[k] {
                Inst::Load(l) => Some(l.arr),
                Inst::Store { arr, .. } => Some(*arr),
                Inst::Call(c) => {
                    if !is_allowed(c) {
                        assert(ir.at(blocks@[n as int]).insts@[k as int] == insts@[k as int]);
                        return None;
                    }
                    None
                },
                _ => None,
            };
            if let Some(a) = touched {
                if !has_local(&out, a) {
                    out.push(a);
                }
            }
            k = k + 1;
        }
        proof {
            let now = blocks@.take(n + 1);
            assert forall|i: int, k: int|
                0 <= i < now.len() && 0 <= k < ir.at(now[i]).insts@.len() implies match (
            #[trigger] ir.at(#[trigger] now[i]).insts@[k]) {
                Inst::Call(c) => may_call(c),
                _ => true,
            } by {
                if i < n {
                    assert(blocks@.take(n as int)[i] == now[i]);
                } else {
                    assert(insts@[k] == ir.at(now[i]).insts@[k]);
                }
            }
        }
        n = n + 1;
    }
    proof {
        assert(blocks@.take(n as int) =~= blocks@);
    }
    Some(out)
}

// ---------------------------------------------------------------------------
// Layout
// ---------------------------------------------------------------------------

/// Bytes of one element of an array.
pub open spec fn element_bytes(e: ElemTy) -> i64 {
    match e {
        ElemTy::I32 | ElemTy::F32 => 4,
        _ => 8,
    }
}

/// Width in bytes of a captured value and whether it is floating point. In the context
/// every captured value takes a word, at full width or double precision.
pub open spec fn capture_shape(ty: Option<Ty>) -> Option<(u64, bool)> {
    match ty {
        Some(Ty::I64) => Some((8, false)),
        Some(Ty::I32) => Some((4, false)),
        Some(Ty::F64) => Some((8, true)),
        Some(Ty::F32) => Some((4, true)),
        _ => None,
    }
}

/// Every array has elements.
pub open spec fn arrays_typed(ir: FuncIr, arrays: Seq<LocalId>) -> bool {
    forall|k: int|
        0 <= k < arrays.len() ==> ir.types.element_type(#[trigger] arrays[k]) is Some
}

/// Every captured value has a type that the context can hold.
pub open spec fn captures_typed(ir: FuncIr, captures: Seq<ValueId>) -> bool {
    forall|k: int|
        0 <= k < captures.len() ==> capture_shape(ir.type_of(#[trigger] captures[k])) is Some
}

/// The entries of arrays.
pub open spec fn array_slots(ir: FuncIr, arrays: Seq<LocalId>) -> Seq<(LocalId, i64, i64)> {
    Seq::new(
        arrays.len(),
        |k: int|
            (
                arrays[k],
                element_bytes(ir.types.element_type(arrays[k])->0),
                (CTX_ARRAY_BASE + 16 * k) as i64,
            ),
    )
}

/// The entries of captured values, behind `n` arrays.
pub open spec fn scalar_slots(ir: FuncIr, captures: Seq<ValueId>, n: nat) -> Seq<
    (u32, u64, bool, i64),
> {
    Seq::new(
        captures.len(),
        |k: int|
            (
                captures[k].0,
                (capture_shape(ir.type_of(captures[k]))->0).0,
                (capture_shape(ir.type_of(captures[k]))->0).1,
                (CTX_ARRAY_BASE + 16 * n + 8 * k) as i64,
            ),
    )
}

/// Width in bytes of a captured value and whether it is floating point.
fn shape_of_capture(ty: Option<Ty>) -> (r: Option<(u64, bool)>)
    ensures
        r == capture_shape(ty),
{
    match ty {
        Some(Ty::I64) => Some((8, false)),
        Some(Ty::I32) => Some((4, false)),
        Some(Ty::F64) => Some((8, true)),
        Some(Ty::F32) => Some((4, true)),
        _ => None,
    }
}

/// Values in ascending order, each once.
pub open spec fn ascending(s: Seq<ValueId>) -> bool {
    forall|i: int, j: int| 0 <= i < j < s.len() ==> (#[trigger] s[i]).0 < (#[trigger] s[j]).0
}

/// Adding keeps the order, and what comes out was there or is new.
proof fn lemma_add_value(s: Seq<ValueId>, v: ValueId)
    requires
        ascending(s),
    ensures
        ascending(add_value(s, v)),
        forall|x: ValueId|
            #![trigger add_value(s, v).contains(x)]
            #![trigger s.contains(x)]
            add_value(s, v).contains(x) <==> s.contains(x) || x == v,
    decreases s.len(),
{
    let out = add_value(s, v);
    if s.len() == 0 {
        assert(out[0] == v);
    } else if s.last().0 < v.0 {
        assert forall|x: ValueId| out.contains(x) <==> s.contains(x) || x == v by {
            if s.contains(x) {
                let q = choose|q: int| 0 <= q < s.len() && s[q] == x;
                assert(out[q] == x);
            }
            assert(out[s.len() as int] == v);
        }
    } else if s.last() == v {
        assert(s[s.len() - 1] == v);
    } else {
        let d = s.drop_last();
        let inner = add_value(d, v);
        lemma_add_value(d, v);
        assert(out == inner.push(s.last()));
        assert forall|x: ValueId| out.contains(x) <==> s.contains(x) || x == v by {
            if out.contains(x) {
                let q = choose|q: int| 0 <= q < out.len() && out[q] == x;
                if q < inner.len() {
                    assert(inner[q] == x);
                    assert(inner.contains(x));
                    if d.contains(x) {
                        let w = choose|w: int| 0 <= w < d.len() && d[w] == x;
                        assert(s[w] == x);
                    }
                } else {
                    assert(s[s.len() - 1] == x);
                }
            }
            if s.contains(x) {
                let w = choose|w: int| 0 <= w < s.len() && s[w] == x;
                if w < d.len() {
                    assert(d[w] == x);
                    assert(d.contains(x));
                    assert(inner.contains(x));
                    let q = choose|q: int| 0 <= q < inner.len() && inner[q] == x;
                    assert(out[q] == x);
                } else {
                    assert(out[out.len() - 1] == x);
                }
            }
            if x == v {
                assert(inner.contains(x));
                let q = choose|q: int| 0 <= q < inner.len() && inner[q] == x;
                assert(out[q] == x);
            }
        }
        assert forall|i: int, j: int| 0 <= i < j < out.len() implies (#[trigger] out[i]).0 < (
        #[trigger] out[j]).0 by {
            if j < inner.len() {
                assert(inner[i].0 < inner[j].0);
            } else {
                assert(inner.contains(inner[i]));
                if inner[i] != v {
                    let w = choose|w: int| 0 <= w < d.len() && d[w] == inner[i];
                    assert(s[w].0 < s[s.len() - 1].0);
                }
            }
        }
    }
}

/// Captures are ascending, and hold exactly the outside values that the body reads.
pub proof fn lemma_captured(
    ir: FuncIr,
    blocks: Seq<BlockId>,
    iv: ValueId,
    acc: Option<ValueId>,
    uses: Seq<ValueId>,
    k: nat,
)
    requires
        k <= uses.len(),
    ensures
        ascending(captured(ir, blocks, iv, acc, uses, k)),
        forall|v: ValueId|
            #![trigger captured(ir, blocks, iv, acc, uses, k).contains(v)]
            #![trigger uses.take(k as int).contains(v)]
            captured(ir, blocks, iv, acc, uses, k).contains(v) <==> uses.take(k as int).contains(v)
                && !bound_in_body(iv, acc, v) && from_without(ir, blocks, v),
    decreases k,
{
    if k > 0 {
        let before = captured(ir, blocks, iv, acc, uses, (k - 1) as nat);
        let u = uses[k - 1];
        lemma_captured(ir, blocks, iv, acc, uses, (k - 1) as nat);
        lemma_add_value(before, u);
        assert forall|v: ValueId|
            #![trigger uses.take(k as int).contains(v)]
            #![trigger uses.take(k - 1).contains(v)]
            uses.take(k as int).contains(v) <==> uses.take(k - 1).contains(v) || v == u by {
            let now = uses.take(k as int);
            let prior = uses.take(k - 1);
            if prior.contains(v) {
                let q = choose|q: int| 0 <= q < prior.len() && prior[q] == v;
                assert(now[q] == v);
            }
            assert(now[k - 1] == u);
            if now.contains(v) {
                let q = choose|q: int| 0 <= q < now.len() && now[q] == v;
                if q < k - 1 {
                    assert(prior[q] == v);
                }
            }
        }
    }
}

/// Distinct numbers of 32 bits are not more than there are.
proof fn lemma_ascending_len(s: Seq<ValueId>, k: int)
    requires
        ascending(s),
        0 <= k < s.len(),
    ensures
        s[k].0 >= k,
    decreases k,
{
    if k > 0 {
        lemma_ascending_len(s, k - 1);
        assert(s[k - 1].0 < s[k].0);
    }
}

/// Lays out arrays and captured values; `None` where there are too many arrays, or
/// one of either has no type that the context can hold.
#[verifier::rlimit(40)]
pub fn lay_out(ir: &FuncIr, arrays: &Vec<LocalId>, captures: &Vec<ValueId>) -> (r: Option<
    CtxLayout,
>)
    requires
        ascending(captures@),
    ensures
        r is Some <==> arrays@.len() <= MAX_ARRAY_SLOTS && arrays_typed(*ir, arrays@)
            && captures_typed(*ir, captures@),
        r matches Some(l) ==> {
            &&& l.packed()
            &&& l.arrays@ == array_slots(*ir, arrays@)
            &&& l.scalars@ == scalar_slots(*ir, captures@, arrays@.len())
        },
{
    if arrays.len() > MAX_ARRAY_SLOTS {
        return None;
    }
    proof {
        if captures@.len() > 0 {
            lemma_ascending_len(captures@, captures@.len() - 1);
        }
    }
    let mut slots: Vec<(LocalId, i64, i64)> = Vec::new();
    let mut off: i64 = CTX_ARRAY_BASE;
    let mut k: usize = 0;
    while k < arrays.len()
        invariant
            arrays@.len() <= MAX_ARRAY_SLOTS,
            k <= arrays@.len(),
            off == CTX_ARRAY_BASE + 16 * k,
            arrays_typed(*ir, arrays@.take(k as int)),
            slots@ == array_slots(*ir, arrays@).take(k as int),
        decreases arrays@.len() - k,
    {
        let bytes: i64 = match ir.types.elem_ty(arrays[k]) {
            Some(ElemTy::I32) => 4,
            Some(ElemTy::F32) => 4,
            Some(_) => 8,
            None => {
                assert(ir.types.element_type(arrays@[k as int]) is None);
                return None;
            },
        };
        slots.push((arrays[k], bytes, off));
        proof {
            let now = arrays@.take(k + 1);
            assert forall|j: int| 0 <= j < now.len() implies ir.types.element_type(
                #[trigger] now[j],
            ) is Some by {
                if j < k {
                    assert(arrays@.take(k as int)[j] == now[j]);
                }
            }
            assert(slots@ =~= array_slots(*ir, arrays@).take(k + 1));
        }
        off = off + 16;
        k = k + 1;
    }
    proof {
        assert(arrays@.take(k as int) =~= arrays@);
        assert(array_slots(*ir, arrays@).take(k as int) =~= array_slots(*ir, arrays@));
    }
    let mut scalars: Vec<(u32, u64, bool, i64)> = Vec::new();
    let mut j: usize = 0;
    while j < captures.len()
        invariant
            arrays@.len() <= MAX_ARRAY_SLOTS,
            captures@.len() <= 0x1_0000_0000,
            j <= captures@.len(),
            off == CTX_ARRAY_BASE + 16 * arrays@.len() + 8 * j,
            captures_typed(*ir, captures@.take(j as int)),
            scalars@ == scalar_slots(*ir, captures@, arrays@.len()).take(j as int),
        decreases captures@.len() - j,
    {
        let (width, float): (u64, bool) = match shape_of_capture(ir.val_ty(captures[j])) {
            Some(s) => s,
            None => {
                assert(capture_shape(ir.type_of(captures@[j as int])) is None);
                return None;
            },
        };
        scalars.push((captures[j].0, width, float, off));
        proof {
            let now = captures@.take(j + 1);
            assert forall|i: int| 0 <= i < now.len() implies capture_shape(
                ir.type_of(#[trigger] now[i]),
            ) is Some by {
                if i < j {
                    assert(captures@.take(j as int)[i] == now[i]);
                }
            }
            assert(scalars@ =~= scalar_slots(*ir, captures@, arrays@.len()).take(j + 1));
        }
        off = off + 8;
        j = j + 1;
    }
    proof {
        assert(captures@.take(j as int) =~= captures@);
        assert(scalar_slots(*ir, captures@, arrays@.len()).take(j as int) =~= scalar_slots(
            *ir,
            captures@,
            arrays@.len(),
        ));
    }
    Some(CtxLayout { arrays: slots, scalars })
}

/// Slots do not overlap: every array and every scalar lies behind the one before it
/// and within the context, and none touches the reserved words.
pub proof fn law_slots_do_not_overlap(l: CtxLayout, i: int, j: int)
    requires
        l.packed(),
    ensures
        0 <= i < j < l.arrays@.len() ==> l.arrays@[i].2 + 16 <= l.arrays@[j].2,
        0 <= i < l.arrays@.len() && 0 <= j < l.scalars@.len() ==> l.arrays@[i].2 + 16
            <= l.scalars@[j].3,
        0 <= i < j < l.scalars@.len() ==> l.scalars@[i].3 + 8 <= l.scalars@[j].3,
        0 <= i < l.arrays@.len() ==> CTX_ARRAY_BASE <= l.arrays@[i].2,
        0 <= j < l.scalars@.len() ==> CTX_ARRAY_BASE <= l.scalars@[j].3 && l.scalars@[j].3 + 8
            <= CTX_ARRAY_BASE + 16 * l.arrays@.len() + 8 * l.scalars@.len(),
{
}

} // verus!
