//! The shape of a loop that can be taken out of its function: one header that
//! compares `iv < end`, one latch, and at most one accumulator besides the induction
//! value. Anything else is left to run sequentially.
use vstd::prelude::*;

use crate::canon::{latch_step, step_of};
use crate::graph::{
    is_header, lemma_loop_members, natural_loop, natural_loop_of, successors,
};
use crate::ir::{
    defines, BinOp, BlockData, BlockId, FuncIr, Inst, LocalId, Phi, Term, Ty, ValueId,
};
use crate::loops::has_member;
use crate::reduce::{chain_op, find_chain_op, has_stray, strays, Accumulator, ReductionOp};
use crate::search::{
    any_where, first_where, lemma_first_where, lemma_first_where_is, lemma_first_where_none,
};

verus! {

/// How an accumulator is combined and read back.
#[derive(Clone, Copy, Debug, PartialEq, Eq, Structural)]
pub struct RSpec {
    pub op: ReductionOp,
    /// Width of the accumulator in bytes.
    pub width: u64,
    pub float: bool,
}

/// How a region is executed.
#[derive(Clone, Copy, Debug, PartialEq, Eq, Structural)]
pub enum RKind {
    /// Results live in memory alone.
    DoAll,
    /// Partial results are combined after the join.
    Reduction(RSpec),
}

/// The blocks and the induction of a loop that can be taken out.
#[derive(Debug)]
pub struct Skeleton {
    pub header: BlockId,
    /// Where the header goes while the comparison holds.
    pub body: BlockId,
    /// Where the header goes when the comparison fails.
    pub exit: BlockId,
    /// The one block that goes back to the header.
    pub latch: BlockId,
    /// All blocks, ascending; the header is the first.
    pub blocks: Vec<BlockId>,
    pub iv_dst: ValueId,
    pub iv_var: LocalId,
    pub start: ValueId,
    pub end: ValueId,
}

/// A skeleton as mathematical values.
pub struct SkeletonV {
    pub header: BlockId,
    pub body: BlockId,
    pub exit: BlockId,
    pub latch: BlockId,
    pub blocks: Seq<BlockId>,
    pub iv_dst: ValueId,
    pub iv_var: LocalId,
    pub start: ValueId,
    pub end: ValueId,
}

impl View for Skeleton {
    type V = SkeletonV;

    open spec fn view(&self) -> SkeletonV {
        SkeletonV {
            header: self.header,
            body: self.body,
            exit: self.exit,
            latch: self.latch,
            blocks: self.blocks@,
            iv_dst: self.iv_dst,
            iv_var: self.iv_var,
            start: self.start,
            end: self.end,
        }
    }
}

/// The accumulator of a reduction.
#[derive(Clone, Copy, Debug, PartialEq, Eq, Structural)]
pub struct AccInfo {
    /// The phi of the header.
    pub dst: ValueId,
    pub var: LocalId,
    /// What enters from outside the loop.
    pub entry: ValueId,
    /// What comes back around the loop.
    pub back: ValueId,
    /// The chain stands in the latch.
    pub in_latch: bool,
    pub spec: RSpec,
}

/// The one position that satisfies `p`.
pub open spec fn only_where<T>(s: Seq<T>, p: spec_fn(T) -> bool) -> Option<int> {
    match first_where(s, p) {
        Some(k) => if exists|j: int| k < j < s.len() && p(#[trigger] s[j]) {
            None
        } else {
            Some(k)
        },
        None => None,
    }
}

/// The block goes back to the header from inside the loop.
pub open spec fn goes_back(header: BlockId, blocks: Seq<BlockId>) -> spec_fn(BlockId) -> bool {
    |b: BlockId| b != header && blocks.contains(b)
}

/// The phi defines `v` and merges two edges.
pub open spec fn merges_into(v: ValueId) -> spec_fn(Phi) -> bool {
    |p: Phi| p.dst == v && p.args@.len() == 2
}

/// The phi merges two edges into another value than `v`.
pub open spec fn merges_other(v: ValueId) -> spec_fn(Phi) -> bool {
    |p: Phi| p.dst != v && p.args@.len() == 2
}

/// The phi carries another value than `v`.
pub open spec fn carries_other(v: ValueId) -> spec_fn(Phi) -> bool {
    |p: Phi| p.dst != v && p.args@.len() >= 2
}

/// The edge comes from outside the loop.
pub open spec fn enters(header: BlockId, blocks: Seq<BlockId>) -> spec_fn(
    (BlockId, ValueId),
) -> bool {
    |a: (BlockId, ValueId)| a.0 != header && !blocks.contains(a.0)
}

/// The edge comes from inside the loop.
pub open spec fn returns_from(blocks: Seq<BlockId>) -> spec_fn((BlockId, ValueId)) -> bool {
    |a: (BlockId, ValueId)| blocks.contains(a.0)
}

/// No block of the loop returns.
pub open spec fn never_returns(ir: FuncIr, blocks: Seq<BlockId>) -> bool {
    forall|i: int| 0 <= i < blocks.len() ==> !(ir.at(#[trigger] blocks[i]).term is Return)
}

/// No block but the header goes out of the loop.
pub open spec fn stays_inside(ir: FuncIr, header: BlockId, blocks: Seq<BlockId>) -> bool {
    forall|i: int, k: int|
        0 <= i < blocks.len() && blocks[i] != header && 0 <= k < ir.at(
            blocks[i],
        ).term.targets().len() ==> blocks.contains(
            #[trigger] ir.at(#[trigger] blocks[i]).term.targets()[k],
        )
}

/// The edge comes from the block.
pub open spec fn from_block(b: BlockId) -> spec_fn((BlockId, ValueId)) -> bool {
    |a: (BlockId, ValueId)| a.0 == b
}

/// The latch jumps to the header, and no other block of the loop goes there.
pub open spec fn turns(
    ir: FuncIr,
    header: BlockId,
    blocks: Seq<BlockId>,
    latch: BlockId,
) -> bool {
    &&& ir.at(latch).term matches Term::Jump(t, _) && t == header
    &&& forall|i: int, k: int|
        0 <= i < blocks.len() && blocks[i] != latch && 0 <= k < ir.at(
            blocks[i],
        ).term.targets().len() ==> (#[trigger] ir.at(#[trigger] blocks[i]).term.targets()[k])
            != header
}

/// What comes back to the phi by the latch is computed in the loop, and is one more than
/// the phi.
pub open spec fn counts_up(ir: FuncIr, blocks: Seq<BlockId>, latch: BlockId, phi: Phi) -> bool {
    match first_where(phi.args@, from_block(latch)) {
        Some(r) => latch_step(ir, phi, phi.args@[r].1) == Some(1i64) && blocks.contains(
            ir.home(phi.args@[r].1),
        ),
        None => false,
    }
}

/// The instruction neither fails nor touches memory.
pub open spec fn quiet(inst: Inst) -> bool {
    match inst {
        Inst::Const { .. } | Inst::Unary { .. } | Inst::Cast { .. } => true,
        Inst::Bin { op, .. } => !(op is Div) && !(op is Rem),
        _ => false,
    }
}

/// The header does nothing but compute, and computes its condition itself.
pub open spec fn only_tests(data: BlockData, cond: ValueId) -> bool {
    &&& forall|k: int| 0 <= k < data.insts@.len() ==> quiet(#[trigger] data.insts@[k])
    &&& data.inst_defines(cond)
}

/// The value is the same in every iteration: a constant, or one that no block of the loop
/// defines.
pub open spec fn steady(ir: FuncIr, blocks: Seq<BlockId>, v: ValueId) -> bool {
    ir.literal(v) is Some || !blocks.contains(ir.home(v))
}

/// Every iteration is one round from the header to the header, the induction value counts
/// the rounds, and all that the header does is to compare it with the same bound.
pub open spec fn rounds(
    ir: FuncIr,
    header: BlockId,
    blocks: Seq<BlockId>,
    latch: BlockId,
    cond: ValueId,
    phi: Phi,
    end: ValueId,
) -> bool {
    &&& turns(ir, header, blocks, latch)
    &&& counts_up(ir, blocks, latch, phi)
    &&& only_tests(ir.at(header), cond)
    &&& steady(ir, blocks, end)
}

/// The skeleton of the loop with this header, if the loop can be taken out.
pub open spec fn skeleton_of(ir: FuncIr, header: BlockId) -> Option<SkeletonV> {
    let blocks = natural_loop(ir, header);
    let data = ir.at(header);
    if !is_header(ir, header) || blocks.len() == 0 || blocks[0] != header || !never_returns(
        ir,
        blocks,
    ) || !stays_inside(ir, header, blocks) {
        None
    } else {
        match (data.term, only_where(data.preds@, goes_back(header, blocks))) {
            (Term::Branch { cond, t, f }, Some(l)) => if !blocks.contains(t) || blocks.contains(f) {
                None
            } else {
                match ir.def_inst(cond) {
                    Some(Inst::Bin { op: BinOp::Lt, a, b, .. }) => match (
                        first_where(data.phis@, merges_into(a)),
                        first_where(data.phis@, merges_into(b)),
                    ) {
                        (Some(k), None) => {
                            let phi = data.phis@[k];
                            match first_where(phi.args@, enters(header, blocks)) {
                                Some(e) => if rounds(
                                    ir,
                                    header,
                                    blocks,
                                    data.preds@[l],
                                    cond,
                                    phi,
                                    b,
                                ) {
                                    Some(
                                        SkeletonV {
                                            header,
                                            body: t,
                                            exit: f,
                                            latch: data.preds@[l],
                                            blocks,
                                            iv_dst: phi.dst,
                                            iv_var: phi.var,
                                            start: phi.args@[e].1,
                                            end: b,
                                        },
                                    )
                                } else {
                                    None
                                },
                                None => None,
                            }
                        },
                        _ => None,
                    },
                    _ => None,
                }
            },
            _ => None,
        }
    }
}

/// The width of a scalar in bytes, and whether it is floating point.
pub open spec fn scalar_shape(ty: Option<Ty>) -> Option<(u64, bool)> {
    match ty {
        Some(Ty::I64) => Some((8, false)),
        Some(Ty::I32) => Some((4, false)),
        Some(Ty::F64) => Some((8, true)),
        Some(Ty::F32) => Some((4, true)),
        _ => None,
    }
}

/// What comes back by the latch is computed in the loop and accumulates with the operator,
/// and nothing else in the loop reads the accumulator.
pub open spec fn accumulates(
    ir: FuncIr,
    sk: SkeletonV,
    op: ReductionOp,
    from: BlockId,
    acc: Accumulator,
) -> bool {
    from == sk.latch && sk.blocks.contains(ir.home(acc.chain)) && chain_op(ir, acc) == Some(op)
        && !strays(ir, sk.blocks, acc)
}

/// The accumulator of a loop that reduces with `op`: the one other phi of the header
/// that merges two edges, with a chain of that operator.
pub open spec fn accumulator_of(ir: FuncIr, sk: SkeletonV, op: ReductionOp) -> Option<AccInfo> {
    let phis = ir.at(sk.header).phis@;
    match only_where(phis, merges_other(sk.iv_dst)) {
        Some(k) => {
            let phi = phis[k];
            match (
                first_where(phi.args@, enters(sk.header, sk.blocks)),
                first_where(phi.args@, returns_from(sk.blocks)),
                scalar_shape(ir.types.local_type(phi.var)),
            ) {
                (Some(e), Some(r), Some((width, float))) => {
                    let back = phi.args@[r].1;
                    let acc = Accumulator { phi: phi.dst, chain: back };
                    if accumulates(ir, sk, op, phi.args@[r].0, acc) {
                        Some(
                            AccInfo {
                                dst: phi.dst,
                                var: phi.var,
                                entry: phi.args@[e].1,
                                back,
                                in_latch: ir.at(sk.latch).inst_defines(back),
                                spec: RSpec { op, width, float },
                            },
                        )
                    } else {
                        None
                    }
                },
                _ => None,
            }
        },
        None => None,
    }
}

/// Nothing but the induction value is carried around the loop.
pub open spec fn carries_nothing(ir: FuncIr, sk: SkeletonV) -> bool {
    !any_where(ir.at(sk.header).phis@, carries_other(sk.iv_dst))
}

/// The position of the one block of the list that goes back to the header.
fn find_latch(preds: &Vec<BlockId>, header: BlockId, blocks: &Vec<BlockId>) -> (r: Option<
    BlockId,
>)
    ensures
        r == (match only_where(preds@, goes_back(header, blocks@)) {
            Some(k) => Some(preds@[k]),
            None => None,
        }),
{
    let ghost p = goes_back(header, blocks@);
    let mut found: Option<usize> = None;
    let mut k: usize = 0;
    while k < preds.len()
        invariant
            p == goes_back(header, blocks@),
            k <= preds@.len(),
            found is None ==> forall|j: int| 0 <= j < k ==> !p(#[trigger] preds@[j]),
            found matches Some(f) ==> f < k && p(preds@[f as int]) && (forall|j: int|
                0 <= j < f ==> !p(#[trigger] preds@[j])) && (forall|j: int|
                f < j < k ==> !p(#[trigger] preds@[j])),
        decreases preds@.len() - k,
    {
        if preds[k] != header && has_member(blocks, preds[k]) {
            assert(p(preds@[k as int]));
            if let Some(f) = found {
                proof {
                    lemma_first_where_is(preds@, p, f as int);
                }
                return None;
            }
            found = Some(k);
        }
        k = k + 1;
    }
    match found {
        Some(f) => {
            proof {
                lemma_first_where_is(preds@, p, f as int);
            }
            Some(preds[f])
        },
        None => {
            proof {
                lemma_first_where_none(preds@, p);
            }
            None
        },
    }
}

/// The position of the phi that merges two edges into `v`.
fn find_merge(phis: &Vec<Phi>, v: ValueId) -> (r: Option<usize>)
    ensures
        first_where(phis@, merges_into(v)) == (match r {
            Some(k) => Some(k as int),
            None => None,
        }),
        r matches Some(k) ==> k < phis@.len() && phis@[k as int].dst == v
            && phis@[k as int].args@.len() == 2,
{
    let ghost p = merges_into(v);
    let mut k: usize = 0;
    while k < phis.len()
        invariant
            p == merges_into(v),
            k <= phis@.len(),
            forall|j: int| 0 <= j < k ==> !p(#[trigger] phis@[j]),
        decreases phis@.len() - k,
    {
        if phis[k].dst == v && phis[k].args.len() == 2 {
            proof {
                lemma_first_where_is(phis@, p, k as int);
            }
            return Some(k);
        }
        k = k + 1;
    }
    proof {
        lemma_first_where_none(phis@, p);
    }
    None
}

/// What enters a phi from outside the loop.
fn find_entry(args: &Vec<(BlockId, ValueId)>, header: BlockId, blocks: &Vec<BlockId>) -> (r: Option<
    ValueId,
>)
    ensures
        r == (match first_where(args@, enters(header, blocks@)) {
            Some(k) => Some(args@[k].1),
            None => None,
        }),
{
    let ghost p = enters(header, blocks@);
    let mut k: usize = 0;
    while k < args.len()
        invariant
            p == enters(header, blocks@),
            k <= args@.len(),
            forall|j: int| 0 <= j < k ==> !p(#[trigger] args@[j]),
        decreases args@.len() - k,
    {
        let (from, v) = args[k];
        if from != header && !has_member(blocks, from) {
            proof {
                lemma_first_where_is(args@, p, k as int);
            }
            return Some(v);
        }
        k = k + 1;
    }
    proof {
        lemma_first_where_none(args@, p);
    }
    None
}

/// What comes back to a phi from inside the loop.
fn find_return(args: &Vec<(BlockId, ValueId)>, blocks: &Vec<BlockId>) -> (r: Option<
    (BlockId, ValueId),
>)
    ensures
        r == (match first_where(args@, returns_from(blocks@)) {
            Some(k) => Some(args@[k]),
            None => None,
        }),
{
    let ghost p = returns_from(blocks@);
    let mut k: usize = 0;
    while k < args.len()
        invariant
            p == returns_from(blocks@),
            k <= args@.len(),
            forall|j: int| 0 <= j < k ==> !p(#[trigger] args@[j]),
        decreases args@.len() - k,
    {
        let (from, v) = args[k];
        if has_member(blocks, from) {
            proof {
                lemma_first_where_is(args@, p, k as int);
            }
            return Some((from, v));
        }
        k = k + 1;
    }
    proof {
        lemma_first_where_none(args@, p);
    }
    None
}

/// Whether no block of the loop returns and none but the header goes out of it.
fn is_closed(ir: &FuncIr, header: BlockId, blocks: &Vec<BlockId>) -> (r: bool)
    requires
        forall|i: int| 0 <= i < blocks@.len() ==> ir.has_block(#[trigger] blocks@[i]),
    ensures
        r == (never_returns(*ir, blocks@) && stays_inside(*ir, header, blocks@)),
{
    let mut k: usize = 0;
    while k < blocks.len()
        invariant
            forall|i: int| 0 <= i < blocks@.len() ==> ir.has_block(#[trigger] blocks@[i]),
            k <= blocks@.len(),
            forall|i: int| 0 <= i < k ==> !(ir.at(#[trigger] blocks@[i]).term is Return),
            forall|i: int, j: int|
                0 <= i < k && blocks@[i] != header && 0 <= j < ir.at(
                    blocks@[i],
                ).term.targets().len() ==> blocks@.contains(
                    #[trigger] ir.at(#[trigger] blocks@[i]).term.targets()[j],
                ),
        decreases blocks@.len() - k,
    {
        let b = blocks[k];
        match &ir.block(b).term {
            Term::Return(_) => {
                assert(ir.at(blocks@[k as int]).term is Return);
                return false;
            },
            Term::Jump(t, _) => {
                if b != header && !has_member(blocks, *t) {
                    assert(ir.at(blocks@[k as int]).term.targets()[0] == *t);
                    return false;
                }
            },
            Term::Branch { t, f, .. } => {
                if b != header && !(has_member(blocks, *t) && has_member(blocks, *f)) {
                    assert(ir.at(blocks@[k as int]).term.targets()[0] == *t);
                    assert(ir.at(blocks@[k as int]).term.targets()[1] == *f);
                    return false;
                }
            },
        }
        k = k + 1;
    }
    true
}

/// Whether the latch jumps to the header and no other block of the loop goes there.
fn does_turn(ir: &FuncIr, header: BlockId, blocks: &Vec<BlockId>, latch: BlockId) -> (r: bool)
    requires
        ir.has_block(latch),
        forall|i: int| 0 <= i < blocks@.len() ==> ir.has_block(#[trigger] blocks@[i]),
    ensures
        r == turns(*ir, header, blocks@, latch),
{
    match &ir.block(latch).term {
        Term::Jump(t, _) => {
            if *t != header {
                return false;
            }
        },
        _ => {
            return false;
        },
    }
    let mut k: usize = 0;
    while k < blocks.len()
        invariant
            forall|i: int| 0 <= i < blocks@.len() ==> ir.has_block(#[trigger] blocks@[i]),
            k <= blocks@.len(),
            forall|i: int, j: int|
                0 <= i < k && blocks@[i] != latch && 0 <= j < ir.at(
                    blocks@[i],
                ).term.targets().len() ==> (#[trigger] ir.at(
                    #[trigger] blocks@[i],
                ).term.targets()[j]) != header,
        decreases blocks@.len() - k,
    {
        let b = blocks[k];
        if b != latch {
            let out = successors(&ir.block(b).term);
            if has_member(&out, header) {
                proof {
                    let j = choose|j: int| 0 <= j < out@.len() && out@[j] == header;
                    assert(ir.at(blocks@[k as int]).term.targets()[j] == header);
                }
                return false;
            }
        }
        k = k + 1;
    }
    true
}

/// Whether what comes back to the phi by the latch is one more than the phi.
fn does_count_up(ir: &FuncIr, blocks: &Vec<BlockId>, latch: BlockId, phi: &Phi) -> (r: bool)
    requires
        ir.wf(),
    ensures
        r == counts_up(*ir, blocks@, latch, *phi),
{
    let ghost p = from_block(latch);
    let mut k: usize = 0;
    while k < phi.args.len()
        invariant
            ir.wf(),
            p == from_block(latch),
            k <= phi.args@.len(),
            forall|j: int| 0 <= j < k ==> !p(#[trigger] phi.args@[j]),
        decreases phi.args@.len() - k,
    {
        let (from, v) = phi.args[k];
        if from == latch {
            proof {
                lemma_first_where_is(phi.args@, p, k as int);
            }
            return match step_of(ir, phi, v) {
                Some(c) => c == 1 && has_member(blocks, ir.def_block(v)),
                None => false,
            };
        }
        k = k + 1;
    }
    proof {
        lemma_first_where_none(phi.args@, p);
    }
    false
}

/// Whether an instruction of the block defines `v`.
fn block_defines(data: &BlockData, v: ValueId) -> (r: bool)
    ensures
        r == data.inst_defines(v),
{
    let ghost p = defines(v);
    let mut k: usize = 0;
    while k < data.insts.len()
        invariant
            p == defines(v),
            k <= data.insts@.len(),
            forall|j: int| 0 <= j < k ==> !p(#[trigger] data.insts@[j]),
        decreases data.insts@.len() - k,
    {
        if let Some(d) = data.insts[k].dst() {
            if d == v {
                assert(p(data.insts@[k as int]));
                return true;
            }
        }
        k = k + 1;
    }
    false
}

/// Whether the header does nothing but compute, and computes its condition itself.
fn does_only_test(data: &BlockData, cond: ValueId) -> (r: bool)
    ensures
        r == only_tests(*data, cond),
{
    let mut k: usize = 0;
    while k < data.insts.len()
        invariant
            k <= data.insts@.len(),
            forall|j: int| 0 <= j < k ==> quiet(#[trigger] data.insts@[j]),
        decreases data.insts@.len() - k,
    {
        let fine = match &data.insts[k] {
            Inst::Const { .. } | Inst::Unary { .. } | Inst::Cast { .. } => true,
            Inst::Bin { op, .. } => match op {
                BinOp::Div | BinOp::Rem => false,
                _ => true,
            },
            _ => false,
        };
        if !fine {
            assert(!quiet(data.insts@[k as int]));
            return false;
        }
        k = k + 1;
    }
    block_defines(data, cond)
}

/// Whether the value is the same in every iteration.
fn is_steady(ir: &FuncIr, blocks: &Vec<BlockId>, v: ValueId) -> (r: bool)
    requires
        ir.wf(),
    ensures
        r == steady(*ir, blocks@, v),
{
    ir.const_of(v).is_some() || !has_member(blocks, ir.def_block(v))
}

/// The skeleton of the loop with this header, if the loop can be taken out.
pub fn find_skeleton(ir: &FuncIr, header: BlockId) -> (r: Option<Skeleton>)
    requires
        ir.wf(),
        ir.has_block(header),
    ensures
        r is Some <==> skeleton_of(*ir, header) is Some,
        r matches Some(sk) ==> {
            &&& skeleton_of(*ir, header) == Some(sk@)
            &&& forall|i: int| 0 <= i < sk.blocks@.len() ==> ir.has_block(#[trigger] sk.blocks@[i])
            &&& sk.blocks@.len() <= ir.blocks@.len()
            &&& sk.blocks@.contains(sk.latch)
        },
{
    let blocks = match natural_loop_of(ir, header) {
        Some(b) => b,
        None => {
            return None;
        },
    };
    proof {
        lemma_loop_members(*ir, header, ir.blocks@.len());
        assert forall|i: int| 0 <= i < blocks@.len() implies ir.has_block(#[trigger] blocks@[i]) by {
            assert(blocks@.contains(blocks@[i]));
            assert(crate::graph::in_loop(*ir, header, blocks@[i]) && blocks@[i].0
                < ir.blocks@.len());
        }
    }
    if blocks.len() == 0 || blocks[0] != header {
        return None;
    }
    if !is_closed(ir, header, &blocks) {
        return None;
    }
    let data = ir.block(header);
    let (cond, t, f): (ValueId, BlockId, BlockId) = match &data.term {
        Term::Branch { cond, t, f } => (*cond, *t, *f),
        _ => {
            return None;
        },
    };
    let latch = match find_latch(&data.preds, header, &blocks) {
        Some(l) => l,
        None => {
            return None;
        },
    };
    proof {
        lemma_first_where(data.preds@, goes_back(header, blocks@));
        assert(blocks@.contains(latch));
    }
    if !has_member(&blocks, t) || has_member(&blocks, f) {
        return None;
    }
    let (a, b): (ValueId, ValueId) = match ir.inst_defining(cond) {
        Some(Inst::Bin { op: BinOp::Lt, a, b, .. }) => (*a, *b),
        _ => {
            return None;
        },
    };
    let k: usize = match find_merge(&data.phis, a) {
        Some(k) => k,
        None => {
            return None;
        },
    };
    if find_merge(&data.phis, b).is_some() {
        return None;
    }
    let phi = &data.phis[k];
    let start = match find_entry(&phi.args, header, &blocks) {
        Some(v) => v,
        None => {
            return None;
        },
    };
    if does_turn(ir, header, &blocks, latch) && does_count_up(ir, &blocks, latch, phi) && does_only_test(
        data,
        cond,
    ) && is_steady(ir, &blocks, b) {
        Some(
            Skeleton {
                header,
                body: t,
                exit: f,
                latch,
                blocks,
                iv_dst: phi.dst,
                iv_var: phi.var,
                start,
                end: b,
            },
        )
    } else {
        None
    }
}

/// The width of a scalar in bytes, and whether it is floating point.
pub fn shape_of(ty: Option<Ty>) -> (r: Option<(u64, bool)>)
    ensures
        r == scalar_shape(ty),
{
    match ty {
        Some(Ty::I64) => Some((8, false)),
        Some(Ty::I32) => Some((4, false)),
        Some(Ty::F64) => Some((8, true)),
        Some(Ty::F32) => Some((4, true)),
        _ => None,
    }
}

/// The position of the one phi that merges two edges into another value than `v`.
fn find_other_merge(phis: &Vec<Phi>, v: ValueId) -> (r: Option<usize>)
    ensures
        only_where(phis@, merges_other(v)) == (match r {
            Some(k) => Some(k as int),
            None => None,
        }),
        r matches Some(k) ==> k < phis@.len(),
{
    let ghost p = merges_other(v);
    let mut found: Option<usize> = None;
    let mut k: usize = 0;
    while k < phis.len()
        invariant
            p == merges_other(v),
            k <= phis@.len(),
            found is None ==> forall|j: int| 0 <= j < k ==> !p(#[trigger] phis@[j]),
            found matches Some(f) ==> f < k && p(phis@[f as int]) && (forall|j: int|
                0 <= j < f ==> !p(#[trigger] phis@[j])) && (forall|j: int|
                f < j < k ==> !p(#[trigger] phis@[j])),
        decreases phis@.len() - k,
    {
        if phis[k].dst != v && phis[k].args.len() == 2 {
            assert(p(phis@[k as int]));
            if let Some(f) = found {
                proof {
                    lemma_first_where_is(phis@, p, f as int);
                }
                return None;
            }
            found = Some(k);
        }
        k = k + 1;
    }
    proof {
        match found {
            Some(f) => {
                lemma_first_where_is(phis@, p, f as int);
            },
            None => {
                lemma_first_where_none(phis@, p);
            },
        }
    }
    found
}

/// The accumulator of a loop that reduces with `op`.
pub fn find_accumulator(ir: &FuncIr, sk: &Skeleton, op: ReductionOp) -> (r: Option<AccInfo>)
    requires
        ir.wf(),
        ir.has_block(sk.header),
        forall|i: int| 0 <= i < sk.blocks@.len() ==> ir.has_block(#[trigger] sk.blocks@[i]),
        sk.blocks@.contains(sk.latch),
    ensures
        r == accumulator_of(*ir, sk@, op),
{
    let phis = &ir.block(sk.header).phis;
    let k: usize = match find_other_merge(phis, sk.iv_dst) {
        Some(k) => k,
        None => {
            return None;
        },
    };
    let phi = &phis[k];
    let entry = match find_entry(&phi.args, sk.header, &sk.blocks) {
        Some(v) => v,
        None => {
            return None;
        },
    };
    let (from, back): (BlockId, ValueId) = match find_return(&phi.args, &sk.blocks) {
        Some(a) => a,
        None => {
            return None;
        },
    };
    let (width, float): (u64, bool) = match shape_of(ir.types.local_ty(phi.var)) {
        Some(s) => s,
        None => {
            return None;
        },
    };
    let acc = Accumulator { phi: phi.dst, chain: back };
    let fits = match find_chain_op(ir, acc) {
        Some(found) => found == op,
        None => false,
    };
    if from == sk.latch && has_member(&sk.blocks, ir.def_block(back)) && fits && !has_stray(
        ir,
        &sk.blocks,
        acc,
    ) {
        Some(
            AccInfo {
                dst: phi.dst,
                var: phi.var,
                entry,
                back,
                in_latch: block_defines(ir.block(sk.latch), back),
                spec: RSpec { op, width, float },
            },
        )
    } else {
        None
    }
}

/// Whether nothing but the induction value is carried around the loop.
pub fn carries_only_iv(ir: &FuncIr, sk: &Skeleton) -> (r: bool)
    requires
        ir.has_block(sk.header),
    ensures
        r == carries_nothing(*ir, sk@),
{
    let phis = &ir.block(sk.header).phis;
    let ghost p = carries_other(sk.iv_dst);
    let mut k: usize = 0;
    while k < phis.len()
        invariant
            p == carries_other(sk.iv_dst),
            phis@ == ir.at(sk.header).phis@,
            k <= phis@.len(),
            forall|j: int| 0 <= j < k ==> !p(#[trigger] phis@[j]),
        decreases phis@.len() - k,
    {
        if phis[k].dst != sk.iv_dst && phis[k].args.len() >= 2 {
            assert(p(phis@[k as int]));
            return false;
        }
        k = k + 1;
    }
    true
}

} // verus!
