//! The values that the body of a region binds.
//!
//! The body keeps the numbers of the values that it captures, of the induction value and
//! of the accumulator, and gives every other value of the loop a number that the function
//! does not use. So no two values get the same name.
use vstd::prelude::*;

use crate::body::{bound_names_distinct, distinct_names, lemma_names_are_distinct};
use crate::ctx::{
    arg_values, blocks_read, captures_of, condition, insts_read, lemma_captured, phis_read,
};
use crate::graph::{in_loop, lemma_loop_members, natural_loop};
use crate::ir::{
    above_all, above_args, above_blocks, above_insts, above_phis, BlockData, BlockId,
    FuncIr, Inst, Phi, Term, ValueId,
};
use crate::outline::{accumulator_of, merges_into, merges_other, skeleton_of};
use crate::parallel::{acc_phi, accumulator_for, region_parts};
use crate::plan::RegionKind;
use crate::search::lemma_first_where;

verus! {

/// All values are below the bound.
pub open spec fn all_below(vs: Seq<ValueId>, bound: nat) -> bool {
    forall|i: int| 0 <= i < vs.len() ==> (#[trigger] vs[i]).0 < bound
}

/// What a phi defines and takes is below the bound.
pub open spec fn phi_below(p: Phi, bound: nat) -> bool {
    p.dst.0 < bound && all_below(arg_values(p.args@), bound)
}

/// What an instruction reads and defines is below the bound.
pub open spec fn inst_below(i: Inst, bound: nat) -> bool {
    all_below(i.reads(), bound) && (i.def() matches Some(d) ==> d.0 < bound)
}

/// What a block reads and defines is below the bound.
pub open spec fn block_below(d: BlockData, bound: nat) -> bool {
    &&& forall|i: int| 0 <= i < d.phis@.len() ==> phi_below(#[trigger] d.phis@[i], bound)
    &&& forall|i: int| 0 <= i < d.insts@.len() ==> inst_below(#[trigger] d.insts@[i], bound)
    &&& all_below(condition(d.term), bound)
}

proof fn lemma_above_all(m: nat, vs: Seq<ValueId>, k: nat)
    requires
        k <= vs.len(),
    ensures
        m <= above_all(m, vs, k),
        forall|i: int| 0 <= i < k ==> (#[trigger] vs[i]).0 < above_all(m, vs, k),
    decreases k,
{
    if k > 0 {
        lemma_above_all(m, vs, (k - 1) as nat);
    }
}

proof fn lemma_above_args(m: nat, args: Seq<(BlockId, ValueId)>, k: nat)
    requires
        k <= args.len(),
    ensures
        m <= above_args(m, args, k),
        forall|i: int| 0 <= i < k ==> (#[trigger] args[i]).1.0 < above_args(m, args, k),
    decreases k,
{
    if k > 0 {
        lemma_above_args(m, args, (k - 1) as nat);
    }
}

proof fn lemma_above_insts(m: nat, insts: Seq<Inst>, k: nat)
    requires
        k <= insts.len(),
    ensures
        m <= above_insts(m, insts, k),
        forall|i: int|
            0 <= i < k ==> inst_below(#[trigger] insts[i], above_insts(m, insts, k)),
    decreases k,
{
    if k > 0 {
        lemma_above_insts(m, insts, (k - 1) as nat);
        let i = insts[k - 1];
        let before = above_insts(m, insts, (k - 1) as nat);
        let defined = match i.def() {
            Some(d) => crate::ir::above(before, d),
            None => before,
        };
        lemma_above_all(defined, i.reads(), i.reads().len());
    }
}

proof fn lemma_above_phis(m: nat, phis: Seq<Phi>, k: nat)
    requires
        k <= phis.len(),
    ensures
        m <= above_phis(m, phis, k),
        forall|i: int| 0 <= i < k ==> phi_below(#[trigger] phis[i], above_phis(m, phis, k)),
    decreases k,
{
    if k > 0 {
        lemma_above_phis(m, phis, (k - 1) as nat);
        let p = phis[k - 1];
        let start = crate::ir::above(above_phis(m, phis, (k - 1) as nat), p.dst);
        lemma_above_args(start, p.args@, p.args@.len());
        let bound = above_phis(m, phis, k);
        assert forall|i: int| 0 <= i < k implies phi_below(#[trigger] phis[i], bound) by {
            if i == k - 1 {
                assert forall|j: int| 0 <= j < arg_values(p.args@).len() implies (
                #[trigger] arg_values(p.args@)[j]).0 < bound by {
                    assert(arg_values(p.args@)[j] == p.args@[j].1);
                }
            }
        }
    }
}

/// Everything that the function mentions is below its free numbers.
proof fn lemma_above_blocks(m: nat, blocks: Seq<BlockData>, n: nat)
    requires
        n <= blocks.len(),
    ensures
        m <= above_blocks(m, blocks, n),
        forall|i: int| 0 <= i < n ==> block_below(#[trigger] blocks[i], above_blocks(m, blocks, n)),
    decreases n,
{
    if n > 0 {
        lemma_above_blocks(m, blocks, (n - 1) as nat);
        let d = blocks[n - 1];
        let before = above_blocks(m, blocks, (n - 1) as nat);
        let phis = above_phis(before, d.phis@, d.phis@.len());
        let insts = above_insts(phis, d.insts@, d.insts@.len());
        let bound = above_blocks(m, blocks, n);
        lemma_above_phis(before, d.phis@, d.phis@.len());
        lemma_above_insts(phis, d.insts@, d.insts@.len());
        assert(insts <= bound) by {
            if let Term::Jump(_, args) = d.term {
                lemma_above_all(insts, args@, args@.len());
            }
        }
        assert forall|i: int| 0 <= i < n implies block_below(#[trigger] blocks[i], bound) by {
            if i < n - 1 {
                assert(block_below(blocks[i], before));
            }
        }
    }
}

/// What the phis take is below the bound.
proof fn lemma_phis_read(phis: Seq<Phi>, k: nat, bound: nat)
    requires
        k <= phis.len(),
        forall|i: int| 0 <= i < phis.len() ==> phi_below(#[trigger] phis[i], bound),
    ensures
        all_below(phis_read(phis, k), bound),
    decreases k,
{
    if k > 0 {
        lemma_phis_read(phis, (k - 1) as nat, bound);
        assert(phi_below(phis[k - 1], bound));
    }
}

/// What the instructions read is below the bound.
proof fn lemma_insts_read(insts: Seq<Inst>, k: nat, bound: nat)
    requires
        k <= insts.len(),
        forall|i: int| 0 <= i < insts.len() ==> inst_below(#[trigger] insts[i], bound),
    ensures
        all_below(insts_read(insts, k), bound),
    decreases k,
{
    if k > 0 {
        lemma_insts_read(insts, (k - 1) as nat, bound);
        assert(inst_below(insts[k - 1], bound));
    }
}

/// What the blocks read is below the bound.
proof fn lemma_blocks_read(ir: FuncIr, blocks: Seq<BlockId>, n: nat, bound: nat)
    requires
        n <= blocks.len(),
        forall|i: int| 0 <= i < blocks.len() ==> block_below(ir.at(#[trigger] blocks[i]), bound),
    ensures
        all_below(blocks_read(ir, blocks, n), bound),
    decreases n,
{
    if n > 0 {
        lemma_blocks_read(ir, blocks, (n - 1) as nat, bound);
        let d = ir.at(blocks[n - 1]);
        assert(block_below(d, bound));
        lemma_insts_read(d.insts@, d.insts@.len(), bound);
        lemma_phis_read(d.phis@, d.phis@.len(), bound);
    }
}

/// Everything that a block mentions is below the numbers that the function does not use.
pub proof fn lemma_mentions_below(ir: FuncIr, b: BlockId)
    requires
        ir.has_block(b),
    ensures
        block_below(ir.at(b), ir.first_free()),
{
    lemma_above_blocks(ir.next_value as nat, ir.blocks@, ir.blocks@.len());
    assert(block_below(ir.blocks@[b.0 as int], ir.first_free()));
}

/// The values that the body of a region binds under their own numbers are distinct, and
/// below the numbers that the function does not use.
pub proof fn lemma_bound_names(ir: FuncIr, header: BlockId, kind: RegionKind)
    requires
        ir.wf(),
        ir.has_block(header),
        region_parts(ir, header, kind) is Some,
    ensures
        bound_names_distinct(region_parts(ir, header, kind)->0),
{
    let p = region_parts(ir, header, kind)->0;
    let sk = skeleton_of(ir, header)->0;
    let acc = accumulator_for(ir, sk, kind)->0;
    let bound = ir.first_free();
    let phis = ir.at(header).phis@;
    lemma_above_blocks(ir.next_value as nat, ir.blocks@, ir.blocks@.len());
    lemma_loop_members(ir, header, ir.blocks@.len());
    assert forall|i: int| 0 <= i < sk.blocks.len() implies block_below(
        ir.at(#[trigger] sk.blocks[i]),
        bound,
    ) by {
        assert(natural_loop(ir, header).contains(sk.blocks[i]));
        assert(in_loop(ir, header, sk.blocks[i]));
        assert(block_below(ir.blocks@[sk.blocks[i].0 as int], bound));
    }
    lemma_blocks_read(ir, sk.blocks, sk.blocks.len(), bound);
    assert(block_below(ir.blocks@[header.0 as int], bound));
    let uses = blocks_read(ir, sk.blocks, sk.blocks.len());
    let captures = captures_of(ir, sk.blocks, sk.iv_dst, acc_phi(acc))->0;
    lemma_captured(ir, sk.blocks, sk.iv_dst, acc_phi(acc), uses, uses.len());
    assert(uses.take(uses.len() as int) =~= uses);
    assert forall|i: int| 0 <= i < p.scalars.len() implies {
        &&& (#[trigger] p.scalars[i]).0 < bound
        &&& p.scalars[i].0 != sk.iv_dst.0
        &&& (acc is Some ==> p.scalars[i].0 != acc->0.dst.0)
    } by {
        let v = captures[i];
        assert(captures.contains(v));
        assert(uses.contains(v));
        let q = choose|q: int| 0 <= q < uses.len() && uses[q] == v;
        assert(uses[q].0 < bound);
    }
    assert forall|i: int, j: int| 0 <= i < j < p.scalars.len() implies (
    #[trigger] p.scalars[i]).0 != (#[trigger] p.scalars[j]).0 by {
        assert(captures[i].0 < captures[j].0);
    }
    if let Term::Branch { cond, .. } = ir.at(header).term {
        if let Some(Inst::Bin { a, .. }) = ir.def_inst(cond) {
            lemma_first_where(phis, merges_into(a));
        }
    }
    if let RegionKind::Reduction(op) = kind {
        lemma_first_where(phis, merges_other(sk.iv_dst));
        assert(accumulator_of(ir, sk, op) == acc);
    }
}

/// Renaming confuses no two values: in the body of a region every two values of the loop
/// have two names, all below the number of values of the body.
pub proof fn law_names_are_distinct(ir: FuncIr, header: BlockId, kind: RegionKind)
    requires
        ir.wf(),
        ir.has_block(header),
        region_parts(ir, header, kind) is Some,
    ensures
        distinct_names((region_parts(ir, header, kind)->0).clones().1),
{
    lemma_bound_names(ir, header, kind);
    lemma_names_are_distinct(region_parts(ir, header, kind)->0);
}

} // verus!
