//! Reduction recognition: `x = x OP t`, accumulated once per iteration with no other
//! reference to `x`, is the one self-dependence that parallel execution may break up.
//!
//! A reduction shows as a header phi whose back-edge value is an associative
//! combination of the accumulator and an independent term. Inside the loop nothing
//! but that combination reads any version of the accumulator.
use std::collections::HashMap;

use vstd::prelude::*;

use crate::canon::from_inside;
use crate::ir::{BinOp, BlockData, BlockId, Call, FuncIr, Inst, LocalId, Phi, Term, ValueId};
use crate::loops::has_member;
use crate::search::{first_where, lemma_first_where_is, lemma_first_where_none};
use crate::text::is_text;

verus! {

broadcast use vstd::std_specs::hash::group_hash_axioms;

/// Associative operators approved for parallel combination.
#[derive(Clone, Copy, Debug, PartialEq, Eq, Structural)]
pub enum ReductionOp {
    /// Sums; a difference is a sum of negated terms.
    Add,
    Mul,
    Min,
    Max,
}

impl ReductionOp {
    /// The spelling of the operator.
    pub open spec fn spelling(self) -> Seq<char> {
        match self {
            ReductionOp::Add => "+"@,
            ReductionOp::Mul => "*"@,
            ReductionOp::Min => "min"@,
            ReductionOp::Max => "max"@,
        }
    }

    /// The spelling of the operator.
    pub fn symbol(self) -> (r: &'static str)
        ensures
            r@ == self.spelling(),
    {
        match self {
            ReductionOp::Add => "+",
            ReductionOp::Mul => "*",
            ReductionOp::Min => "min",
            ReductionOp::Max => "max",
        }
    }

    /// Floating-point sums and products round differently in another order.
    pub fn is_floating_point_risky(self) -> (r: bool)
        ensures
            r == (self == ReductionOp::Add || self == ReductionOp::Mul),
    {
        match self {
            ReductionOp::Add | ReductionOp::Mul => true,
            ReductionOp::Min | ReductionOp::Max => false,
        }
    }
}

/// A recognized reduction of one loop body.
#[derive(Clone, Copy, Debug, PartialEq, Eq, Structural)]
pub struct Recognized {
    pub var: LocalId,
    pub op: ReductionOp,
}

/// Operand chains longer than this count as dependent.
pub const MAX_WALK: u32 = 64;

/// The accumulator of a candidate: the phi and the value that comes back to it.
#[derive(Clone, Copy, Debug, PartialEq, Eq, Structural)]
pub struct Accumulator {
    pub phi: ValueId,
    pub chain: ValueId,
}

impl Accumulator {
    /// `v` is a version of the accumulator.
    pub open spec fn is(self, v: ValueId) -> bool {
        v == self.phi || v == self.chain
    }

    /// Whether `v` is a version of the accumulator.
    fn names(&self, v: ValueId) -> (r: bool)
        ensures
            r == self.is(v),
    {
        v == self.phi || v == self.chain
    }
}

/// Whether the walk through the operands of `v` meets the accumulator, and what it
/// has seen afterwards. Chains longer than [`MAX_WALK`] count as meeting it.
pub open spec fn walk(
    func: FuncIr,
    v: ValueId,
    acc: Accumulator,
    seen: Map<u32, bool>,
    depth: nat,
) -> (bool, Map<u32, bool>)
    decreases MAX_WALK + 2 - depth, 0nat,
{
    if depth > MAX_WALK || acc.is(v) {
        (true, seen)
    } else if seen.dom().contains(v.0) {
        (seen[v.0], seen)
    } else {
        let (hit, after) = match func.def_inst(v) {
            Some(inst) => walk_any(
                func,
                inst.reads(),
                0,
                acc,
                seen.insert(v.0, false),
                depth + 1,
            ),
            None => (false, seen.insert(v.0, false)),
        };
        (hit, after.insert(v.0, hit))
    }
}

/// Whether a walk from one of the operands, from position `k` on, meets the
/// accumulator; it stops at the first that does.
pub open spec fn walk_any(
    func: FuncIr,
    uses: Seq<ValueId>,
    k: nat,
    acc: Accumulator,
    seen: Map<u32, bool>,
    depth: nat,
) -> (bool, Map<u32, bool>)
    decreases MAX_WALK + 2 - depth, 1 + uses.len() - k,
{
    if k >= uses.len() || depth > MAX_WALK + 1 {
        (false, seen)
    } else {
        let (hit, after) = walk(func, uses[k as int], acc, seen, depth);
        if hit {
            (true, after)
        } else {
            walk_any(func, uses, k + 1, acc, after, depth)
        }
    }
}

/// The computation of `v` involves the accumulator, as far as the walk can tell.
pub open spec fn involves(func: FuncIr, v: ValueId, acc: Accumulator) -> bool {
    walk(func, v, acc, Map::empty(), 0).0
}

/// The operator that a binary chain accumulates with.
pub open spec fn chain_bin(op: BinOp) -> Option<ReductionOp> {
    match op {
        BinOp::Add => Some(ReductionOp::Add),
        BinOp::Sub => Some(ReductionOp::Add),
        BinOp::Mul => Some(ReductionOp::Mul),
        _ => None,
    }
}

/// The operator that a call accumulates with.
pub open spec fn chain_call(callee: Seq<char>) -> Option<ReductionOp> {
    if callee == "min"@ {
        Some(ReductionOp::Min)
    } else if callee == "max"@ {
        Some(ReductionOp::Max)
    } else {
        None
    }
}

/// Exactly one of the two operands is the accumulator, and the other one does not
/// involve it.
pub open spec fn one_term(func: FuncIr, acc: Accumulator, a: ValueId, b: ValueId) -> bool {
    if acc.is(a) {
        !acc.is(b) && !involves(func, b, acc)
    } else {
        acc.is(b) && !involves(func, a, acc)
    }
}

/// The operator that combines the accumulator with an independent term. A difference is a
/// sum of negated terms where the accumulator stands on its left.
pub open spec fn chain_op(func: FuncIr, acc: Accumulator) -> Option<ReductionOp> {
    match func.def_inst(acc.chain) {
        Some(Inst::Bin { op, a, b, .. }) => if one_term(func, acc, a, b) && (op is Sub ==> acc.is(
            a,
        )) {
            chain_bin(op)
        } else {
            None
        },
        Some(Inst::Call(c)) => if c.args@.len() == 2 && one_term(
            func,
            acc,
            c.args@[0],
            c.args@[1],
        ) {
            chain_call(c.callee@)
        } else {
            None
        },
        _ => None,
    }
}

/// One of the values is a version of the accumulator.
pub open spec fn mentions(values: Seq<ValueId>, acc: Accumulator) -> bool {
    exists|i: int| 0 <= i < values.len() && acc.is(#[trigger] values[i])
}

/// One of the incoming values is a version of the accumulator.
pub open spec fn phi_mentions(args: Seq<(BlockId, ValueId)>, acc: Accumulator) -> bool {
    exists|i: int| 0 <= i < args.len() && acc.is((#[trigger] args[i]).1)
}

/// The instruction reads the accumulator and is not the chain itself.
pub open spec fn inst_strays(inst: Inst, acc: Accumulator) -> bool {
    inst.def() != Some(acc.chain) && mentions(inst.reads(), acc)
}

/// Another phi takes a version of the accumulator.
pub open spec fn phi_strays(p: Phi, acc: Accumulator) -> bool {
    p.dst != acc.phi && phi_mentions(p.args@, acc)
}

/// The terminator reads the accumulator. Handing the chain on to the header is what
/// closes the loop and does not count.
pub open spec fn term_strays(term: Term, acc: Accumulator) -> bool {
    match term {
        Term::Jump(_, args) => args@.contains(acc.phi),
        Term::Branch { cond, .. } => acc.is(cond),
        Term::Return(v) => v matches Some(x) && acc.is(x),
    }
}

/// The block reads the accumulator outside the chain.
pub open spec fn block_strays(data: BlockData, acc: Accumulator) -> bool {
    ||| exists|i: int| 0 <= i < data.insts@.len() && inst_strays(#[trigger] data.insts@[i], acc)
    ||| exists|i: int| 0 <= i < data.phis@.len() && phi_strays(#[trigger] data.phis@[i], acc)
    ||| term_strays(data.term, acc)
}

/// Some block of the loop reads the accumulator outside the chain.
pub open spec fn strays(func: FuncIr, blocks: Seq<BlockId>, acc: Accumulator) -> bool {
    exists|i: int| 0 <= i < blocks.len() && block_strays(func.at(#[trigger] blocks[i]), acc)
}

/// What comes back to a phi of two arguments: the first that comes from inside.
pub open spec fn returning(phi: Phi, header: BlockId, blocks: Seq<BlockId>) -> Option<ValueId> {
    if from_inside(phi.args@[0].0, header, blocks) {
        Some(phi.args@[0].1)
    } else if from_inside(phi.args@[1].0, header, blocks) {
        Some(phi.args@[1].1)
    } else {
        None
    }
}

/// The reduction that a header phi carries, if it carries one.
pub open spec fn reduction_of(
    func: FuncIr,
    header: BlockId,
    blocks: Seq<BlockId>,
    excluded: Seq<LocalId>,
    phi: Phi,
) -> Option<Recognized> {
    if phi.args@.len() != 2 || excluded.contains(phi.var) {
        None
    } else {
        match returning(phi, header, blocks) {
            Some(chain) => {
                let acc = Accumulator { phi: phi.dst, chain };
                match chain_op(func, acc) {
                    Some(op) => if strays(func, blocks, acc) {
                        None
                    } else {
                        Some(Recognized { var: phi.var, op })
                    },
                    None => None,
                }
            },
            None => None,
        }
    }
}

/// The block has phis.
pub open spec fn has_phis(func: FuncIr) -> spec_fn(BlockId) -> bool {
    |b: BlockId| func.at(b).phis@.len() > 0
}

/// Adds a reduction in the order of the locals, unless the local has one already.
pub open spec fn add_reduction(s: Seq<Recognized>, r: Recognized) -> Seq<Recognized>
    decreases s.len(),
{
    if s.len() == 0 {
        seq![r]
    } else if s.last().var.0 < r.var.0 {
        s.push(r)
    } else if s.last().var == r.var {
        s
    } else {
        add_reduction(s.drop_last(), r).push(s.last())
    }
}

/// The reductions among the first `k` phis of the header.
pub open spec fn header_reductions(
    func: FuncIr,
    header: BlockId,
    blocks: Seq<BlockId>,
    excluded: Seq<LocalId>,
    k: nat,
) -> Seq<Recognized>
    decreases k,
{
    if k == 0 {
        seq![]
    } else {
        let before = header_reductions(func, header, blocks, excluded, (k - 1) as nat);
        match reduction_of(func, header, blocks, excluded, func.at(header).phis@[k - 1]) {
            Some(r) => add_reduction(before, r),
            None => before,
        }
    }
}

/// The reductions of a loop, by ascending local. The header is the first block of the
/// list that has phis.
pub open spec fn reductions(
    func: FuncIr,
    blocks: Seq<BlockId>,
    excluded: Seq<LocalId>,
) -> Seq<Recognized> {
    match first_where(blocks, has_phis(func)) {
        Some(k) => header_reductions(
            func,
            blocks[k],
            blocks,
            excluded,
            func.at(blocks[k]).phis@.len(),
        ),
        None => seq![],
    }
}

/// Walks through the operands of `v` in search of the accumulator.
fn dep_walk(
    func: &FuncIr,
    v: ValueId,
    acc: Accumulator,
    seen: &mut HashMap<u32, bool>,
    depth: u32,
) -> (r: bool)
    requires
        depth <= MAX_WALK + 1,
    ensures
        (r, final(seen)@) == walk(*func, v, acc, old(seen)@, depth as nat),
    decreases MAX_WALK + 2 - depth,
{
    if depth > MAX_WALK || acc.names(v) {
        return true;
    }
    if let Some(hit) = seen.get(&v.0) {
        return *hit;
    }
    seen.insert(v.0, false);
    let mut result = false;
    if let Some(inst) = func.inst_defining(v) {
        let uses = inst.uses();
        let ghost start = seen@;
        let mut k: usize = 0;
        while k < uses.len() && !result
            invariant
                depth <= MAX_WALK,
                k <= uses@.len(),
                !result ==> walk_any(*func, uses@, 0, acc, start, (depth + 1) as nat) == walk_any(
                    *func,
                    uses@,
                    k as nat,
                    acc,
                    seen@,
                    (depth + 1) as nat,
                ),
                result ==> walk_any(*func, uses@, 0, acc, start, (depth + 1) as nat) == (
                    true,
                    seen@,
                ),
            decreases uses@.len() - k,
        {
            if dep_walk(func, uses[k], acc, seen, depth + 1) {
                result = true;
            }
            k = k + 1;
        }
    }
    seen.insert(v.0, result);
    result
}

/// Whether the computation of `v` involves the accumulator.
fn depends_on(func: &FuncIr, v: ValueId, acc: Accumulator) -> (r: bool)
    ensures
        r == involves(*func, v, acc),
{
    let mut seen: HashMap<u32, bool> = HashMap::new();
    dep_walk(func, v, acc, &mut seen, 0)
}

/// Whether exactly one operand is the accumulator and the other is independent of it.
fn has_one_term(func: &FuncIr, acc: Accumulator, a: ValueId, b: ValueId) -> (r: bool)
    ensures
        r == one_term(*func, acc, a, b),
{
    if acc.names(a) {
        !acc.names(b) && !depends_on(func, b, acc)
    } else {
        acc.names(b) && !depends_on(func, a, acc)
    }
}

/// The operator that combines the accumulator with an independent term.
pub fn find_chain_op(func: &FuncIr, acc: Accumulator) -> (r: Option<ReductionOp>)
    ensures
        r == chain_op(*func, acc),
{
    match func.inst_defining(acc.chain) {
        Some(Inst::Bin { op, a, b, .. }) => {
            if !has_one_term(func, acc, *a, *b) {
                return None;
            }
            match op {
                BinOp::Add => Some(ReductionOp::Add),
                BinOp::Sub => if acc.names(*a) {
                    Some(ReductionOp::Add)
                } else {
                    None
                },
                BinOp::Mul => Some(ReductionOp::Mul),
                _ => None,
            }
        },
        Some(Inst::Call(c)) => {
            if c.args.len() != 2 || !has_one_term(func, acc, c.args[0], c.args[1]) {
                return None;
            }
            if is_text(&c.callee, "min") {
                Some(ReductionOp::Min)
            } else if is_text(&c.callee, "max") {
                Some(ReductionOp::Max)
            } else {
                None
            }
        },
        _ => None,
    }
}

/// Whether one of the values is a version of the accumulator.
fn any_mention(values: &Vec<ValueId>, acc: Accumulator) -> (r: bool)
    ensures
        r == mentions(values@, acc),
{
    let mut k: usize = 0;
    while k < values.len()
        invariant
            k <= values@.len(),
            forall|i: int| 0 <= i < k ==> !acc.is(#[trigger] values@[i]),
        decreases values@.len() - k,
    {
        if acc.names(values[k]) {
            assert(acc.is(values@[k as int]));
            return true;
        }
        k = k + 1;
    }
    false
}

/// Whether `v` is one of the values.
pub fn has_value(values: &Vec<ValueId>, v: ValueId) -> (r: bool)
    ensures
        r == values@.contains(v),
{
    let mut k: usize = 0;
    while k < values.len()
        invariant
            k <= values@.len(),
            forall|i: int| 0 <= i < k ==> #[trigger] values@[i] != v,
        decreases values@.len() - k,
    {
        if values[k] == v {
            assert(values@[k as int] == v);
            return true;
        }
        k = k + 1;
    }
    false
}

/// Whether the block reads the accumulator outside the chain.
fn block_has_stray(data: &BlockData, acc: Accumulator) -> (r: bool)
    ensures
        r == block_strays(*data, acc),
{
    let mut k: usize = 0;
    while k < data.insts.len()
        invariant
            k <= data.insts@.len(),
            forall|i: int| 0 <= i < k ==> !inst_strays(#[trigger] data.insts@[i], acc),
        decreases data.insts@.len() - k,
    {
        let is_chain = match data.insts[k].dst() {
            Some(d) => d == acc.chain,
            None => false,
        };
        if !is_chain {
            let uses = data.insts[k].uses();
            if any_mention(&uses, acc) {
                assert(inst_strays(data.insts@[k as int], acc));
                return true;
            }
        }
        k = k + 1;
    }
    k = 0;
    while k < data.phis.len()
        invariant
            k <= data.phis@.len(),
            forall|i: int| 0 <= i < data.insts@.len() ==> !inst_strays(
                #[trigger] data.insts@[i],
                acc,
            ),
            forall|i: int| 0 <= i < k ==> !phi_strays(#[trigger] data.phis@[i], acc),
        decreases data.phis@.len() - k,
    {
        let p = &data.phis[k];
        if p.dst != acc.phi {
            let mut j: usize = 0;
            while j < p.args.len()
                invariant
                    k < data.phis@.len(),
                    *p == data.phis@[k as int],
                    p.dst != acc.phi,
                    j <= p.args@.len(),
                    forall|i: int| 0 <= i < j ==> !acc.is((#[trigger] p.args@[i]).1),
                decreases p.args@.len() - j,
            {
                if acc.names(p.args[j].1) {
                    assert(acc.is(p.args@[j as int].1));
                    assert(phi_strays(data.phis@[k as int], acc));
                    return true;
                }
                j = j + 1;
            }
        }
        k = k + 1;
    }
    match &data.term {
        Term::Jump(_, args) => has_value(args, acc.phi),
        Term::Branch { cond, .. } => acc.names(*cond),
        Term::Return(v) => match v {
            Some(x) => acc.names(*x),
            None => false,
        },
    }
}

/// Whether some block of the loop reads the accumulator outside the chain.
pub fn has_stray(func: &FuncIr, blocks: &Vec<BlockId>, acc: Accumulator) -> (r: bool)
    requires
        forall|i: int| 0 <= i < blocks@.len() ==> func.has_block(#[trigger] blocks@[i]),
    ensures
        r == strays(*func, blocks@, acc),
{
    let mut k: usize = 0;
    while k < blocks.len()
        invariant
            forall|i: int| 0 <= i < blocks@.len() ==> func.has_block(#[trigger] blocks@[i]),
            k <= blocks@.len(),
            forall|i: int| 0 <= i < k ==> !block_strays(func.at(#[trigger] blocks@[i]), acc),
        decreases blocks@.len() - k,
    {
        if block_has_stray(func.block(blocks[k]), acc) {
            assert(block_strays(func.at(blocks@[k as int]), acc));
            return true;
        }
        k = k + 1;
    }
    false
}

/// The reduction that a header phi carries, if it carries one.
fn recognize(
    func: &FuncIr,
    header: BlockId,
    blocks: &Vec<BlockId>,
    excluded: &[LocalId],
    phi: &Phi,
) -> (r: Option<Recognized>)
    requires
        forall|i: int| 0 <= i < blocks@.len() ==> func.has_block(#[trigger] blocks@[i]),
    ensures
        r == reduction_of(*func, header, blocks@, excluded@, *phi),
{
    if phi.args.len() != 2 {
        return None;
    }
    let mut k: usize = 0;
    while k < excluded.len()
        invariant
            k <= excluded@.len(),
            forall|i: int| 0 <= i < k ==> #[trigger] excluded@[i] != phi.var,
        decreases excluded@.len() - k,
    {
        if excluded[k] == phi.var {
            assert(excluded@[k as int] == phi.var);
            return None;
        }
        k = k + 1;
    }
    let (b0, v0) = phi.args[0];
    let (b1, v1) = phi.args[1];
    let chain: ValueId = if b0 != header && has_member(blocks, b0) {
        v0
    } else if b1 != header && has_member(blocks, b1) {
        v1
    } else {
        return None;
    };
    let acc = Accumulator { phi: phi.dst, chain };
    match find_chain_op(func, acc) {
        Some(op) => if has_stray(func, blocks, acc) {
            None
        } else {
            Some(Recognized { var: phi.var, op })
        },
        None => None,
    }
}

/// Adds a reduction in the order of the locals, unless the local has one already.
fn insert_reduction(out: &mut Vec<Recognized>, r: Recognized)
    ensures
        final(out)@ == add_reduction(old(out)@, r),
{
    let ghost all = out@;
    let mut pos: usize = out.len();
    proof {
        assert(all.take(pos as int) =~= all);
        assert(all.skip(pos as int) =~= seq![]);
        assert(add_reduction(all, r) =~= add_reduction(all.take(pos as int), r) + all.skip(
            pos as int,
        ));
    }
    while pos > 0 && out[pos - 1].var.0 > r.var.0
        invariant
            all == out@,
            pos <= out@.len(),
            add_reduction(all, r) == add_reduction(all.take(pos as int), r) + all.skip(pos as int),
        decreases pos,
    {
        proof {
            let now = all.take(pos as int);
            assert(now.last() == all[pos - 1]);
            assert(now.drop_last() =~= all.take(pos - 1));
            assert(all.skip(pos - 1) =~= seq![all[pos - 1]] + all.skip(pos as int));
            assert(add_reduction(all.take(pos - 1), r).push(all[pos - 1]) + all.skip(pos as int)
                =~= add_reduction(all.take(pos - 1), r) + all.skip(pos - 1));
        }
        pos = pos - 1;
    }
    if pos > 0 && out[pos - 1].var == r.var {
        proof {
            assert(all.take(pos as int).last() == all[pos - 1]);
            assert(all.take(pos as int) + all.skip(pos as int) =~= all);
        }
        return;
    }
    out.insert(pos, r);
    proof {
        let now = all.take(pos as int);
        if pos > 0 {
            assert(now.last() == all[pos - 1]);
        }
        assert(add_reduction(now, r) =~= now.push(r));
        assert(out@ =~= now.push(r) + all.skip(pos as int));
    }
}

/// Recognizes the reductions of a loop body in SSA form, at most one per local, by
/// ascending local. Locals in `excluded` are never reported: the induction variable
/// has the additive shape of a reduction.
pub fn find_reductions(func: &FuncIr, loop_blocks: &Vec<BlockId>, excluded: &[LocalId]) -> (r: Vec<
    Recognized,
>)
    requires
        forall|i: int|
            0 <= i < loop_blocks@.len() ==> func.has_block(#[trigger] loop_blocks@[i]),
    ensures
        r@ == reductions(*func, loop_blocks@, excluded@),
{
    let mut out: Vec<Recognized> = Vec::new();
    let mut h: usize = 0;
    while h < loop_blocks.len()
        invariant
            h <= loop_blocks@.len(),
            forall|i: int|
                0 <= i < loop_blocks@.len() ==> func.has_block(#[trigger] loop_blocks@[i]),
            forall|i: int| 0 <= i < h ==> !has_phis(*func)(#[trigger] loop_blocks@[i]),
            out@ == Seq::<Recognized>::empty(),
        decreases loop_blocks@.len() - h,
    {
        let header = loop_blocks[h];
        let phis = &func.block(header).phis;
        if phis.len() > 0 {
            proof {
                lemma_first_where_is(loop_blocks@, has_phis(*func), h as int);
            }
            let mut k: usize = 0;
            while k < phis.len()
                invariant
                    forall|i: int|
                        0 <= i < loop_blocks@.len() ==> func.has_block(
                            #[trigger] loop_blocks@[i],
                        ),
                    phis@ == func.at(header).phis@,
                    k <= phis@.len(),
                    out@ == header_reductions(
                        *func,
                        header,
                        loop_blocks@,
                        excluded@,
                        k as nat,
                    ),
                decreases phis@.len() - k,
            {
                if let Some(r) = recognize(func, header, loop_blocks, excluded, &phis[k]) {
                    insert_reduction(&mut out, r);
                }
                k = k + 1;
            }
            return out;
        }
        h = h + 1;
    }
    proof {
        lemma_first_where_none(loop_blocks@, has_phis(*func));
    }
    out
}

/// The values that the definition of `v` reads.
pub open spec fn operands(func: FuncIr, v: ValueId) -> Seq<ValueId> {
    match func.def_inst(v) {
        Some(inst) => inst.reads(),
        None => seq![],
    }
}

/// `p` steps from each value to one that its definition reads.
pub open spec fn operand_path(func: FuncIr, p: Seq<ValueId>) -> bool {
    &&& p.len() > 0
    &&& forall|i: int|
        0 <= i < p.len() - 1 ==> operands(func, #[trigger] p[i]).contains(p[i + 1])
}

/// What a walk that has not met the accumulator knows: nothing seen is the
/// accumulator, and what everything seen reads is seen, except for the values whose
/// walk has not ended yet.
spec fn walked(
    func: FuncIr,
    acc: Accumulator,
    seen: Map<u32, bool>,
    open: Set<u32>,
) -> bool {
    &&& forall|k: u32| #[trigger] seen.dom().contains(k) ==> !seen[k] && !acc.is(ValueId(k))
    &&& forall|k: u32, i: int| #[trigger]
        seen.dom().contains(k) && !open.contains(k) && 0 <= i < operands(func, ValueId(k)).len()
            ==> seen.dom().contains((#[trigger] operands(func, ValueId(k))[i]).0)
}

/// A walk that does not meet the accumulator ends with everything it went through seen.
proof fn lemma_walk(
    func: FuncIr,
    v: ValueId,
    acc: Accumulator,
    seen: Map<u32, bool>,
    open: Set<u32>,
    depth: nat,
)
    requires
        walked(func, acc, seen, open),
        !walk(func, v, acc, seen, depth).0,
    ensures
        ({
            let after = walk(func, v, acc, seen, depth).1;
            &&& walked(func, acc, after, open)
            &&& after.dom().contains(v.0)
            &&& seen.dom().subset_of(after.dom())
        }),
    decreases MAX_WALK + 2 - depth, 0nat,
{
    if !seen.dom().contains(v.0) {
        let started = seen.insert(v.0, false);
        let inner = open.insert(v.0);
        assert(v == ValueId(v.0));
        assert(walked(func, acc, started, inner));
        match func.def_inst(v) {
            Some(inst) => {
                lemma_walk_any(func, inst.reads(), 0, acc, started, inner, depth + 1);
                let (hit, after) = walk_any(func, inst.reads(), 0, acc, started, depth + 1);
                assert(started.dom().contains(v.0));
                assert(after.insert(v.0, false) =~= after);
                assert forall|k: u32, i: int| #[trigger]
                    after.dom().contains(k) && !open.contains(k) && 0 <= i < operands(
                        func,
                        ValueId(k),
                    ).len() implies after.dom().contains(
                    (#[trigger] operands(func, ValueId(k))[i]).0,
                ) by {
                    if k == v.0 {
                        assert(operands(func, v)[i] == inst.reads()[i]);
                    }
                }
            },
            None => {},
        }
    }
}

/// The walk through a list of operands.
proof fn lemma_walk_any(
    func: FuncIr,
    uses: Seq<ValueId>,
    k: nat,
    acc: Accumulator,
    seen: Map<u32, bool>,
    open: Set<u32>,
    depth: nat,
)
    requires
        walked(func, acc, seen, open),
        depth <= MAX_WALK + 1,
        !walk_any(func, uses, k, acc, seen, depth).0,
    ensures
        ({
            let after = walk_any(func, uses, k, acc, seen, depth).1;
            &&& walked(func, acc, after, open)
            &&& seen.dom().subset_of(after.dom())
            &&& forall|i: int|
                k <= i < uses.len() ==> after.dom().contains((#[trigger] uses[i]).0)
        }),
    decreases MAX_WALK + 2 - depth, 1 + uses.len() - k,
{
    if k < uses.len() {
        let (hit, after) = walk(func, uses[k as int], acc, seen, depth);
        lemma_walk(func, uses[k as int], acc, seen, open, depth);
        lemma_walk_any(func, uses, k + 1, acc, after, open, depth);
    }
}

/// A path of operands stays among the values that a finished walk has seen.
proof fn lemma_path_seen(
    func: FuncIr,
    acc: Accumulator,
    seen: Map<u32, bool>,
    p: Seq<ValueId>,
    k: int,
)
    requires
        walked(func, acc, seen, Set::empty()),
        operand_path(func, p),
        seen.dom().contains(p[0].0),
        0 <= k < p.len(),
    ensures
        seen.dom().contains(p[k].0),
    decreases k,
{
    if k > 0 {
        lemma_path_seen(func, acc, seen, p, k - 1);
        assert(operands(func, p[k - 1]).contains(p[k - 1 + 1]));
        let ops = operands(func, p[k - 1]);
        let q = choose|q: int| 0 <= q < ops.len() && ops[q] == p[k];
        assert(ValueId(p[k - 1].0) == p[k - 1]);
        assert(operands(func, ValueId(p[k - 1].0))[q] == p[k]);
    }
}

/// A value found not to involve the accumulator really does not: no chain of operands
/// leads from it to any version of the accumulator.
pub proof fn law_independent_terms_are_independent(
    func: FuncIr,
    v: ValueId,
    acc: Accumulator,
    p: Seq<ValueId>,
)
    requires
        !involves(func, v, acc),
        operand_path(func, p),
        p[0] == v,
    ensures
        !acc.is(p.last()),
{
    let after = walk(func, v, acc, Map::empty(), 0).1;
    lemma_walk(func, v, acc, Map::empty(), Set::empty(), 0);
    lemma_path_seen(func, acc, after, p, p.len() - 1);
    assert(ValueId(p.last().0) == p.last());
}

/// Inside the loop of a recognized reduction no instruction but the accumulation, no
/// other phi, no condition and no return reads any version of the accumulator.
pub proof fn law_accumulator_is_read_once(
    func: FuncIr,
    header: BlockId,
    blocks: Seq<BlockId>,
    excluded: Seq<LocalId>,
    phi: Phi,
    i: int,
)
    requires
        reduction_of(func, header, blocks, excluded, phi) is Some,
        0 <= i < blocks.len(),
    ensures
        ({
            let acc = Accumulator { phi: phi.dst, chain: returning(phi, header, blocks)->0 };
            let data = func.at(blocks[i]);
            &&& forall|k: int|
                0 <= k < data.insts@.len() ==> (#[trigger] data.insts@[k]).def() == Some(acc.chain)
                    || !mentions(data.insts@[k].reads(), acc)
            &&& forall|k: int|
                0 <= k < data.phis@.len() ==> (#[trigger] data.phis@[k]).dst == phi.dst
                    || !phi_mentions(data.phis@[k].args@, acc)
            &&& match data.term {
                Term::Branch { cond, .. } => !acc.is(cond),
                Term::Return(Some(x)) => !acc.is(x),
                _ => true,
            }
        }),
{
    let acc = Accumulator { phi: phi.dst, chain: returning(phi, header, blocks)->0 };
    let data = func.at(blocks[i]);
    assert(!block_strays(data, acc));
    assert forall|k: int| 0 <= k < data.insts@.len() implies (#[trigger] data.insts@[k]).def()
        == Some(acc.chain) || !mentions(data.insts@[k].reads(), acc) by {
        assert(!inst_strays(data.insts@[k], acc));
    }
    assert forall|k: int| 0 <= k < data.phis@.len() implies (#[trigger] data.phis@[k]).dst
        == phi.dst || !phi_mentions(data.phis@[k].args@, acc) by {
        assert(!phi_strays(data.phis@[k], acc));
    }
}

/// Adding keeps the order of the locals and the members.
proof fn lemma_add_reduction(s: Seq<Recognized>, r: Recognized)
    requires
        forall|i: int, j: int|
            0 <= i < j < s.len() ==> (#[trigger] s[i]).var.0 < (#[trigger] s[j]).var.0,
    ensures
        forall|i: int, j: int|
            0 <= i < j < add_reduction(s, r).len() ==> (#[trigger] add_reduction(s, r)[i]).var.0
                < (#[trigger] add_reduction(s, r)[j]).var.0,
        forall|i: int|
            0 <= i < add_reduction(s, r).len() ==> #[trigger] add_reduction(s, r)[i] == r
                || s.contains(add_reduction(s, r)[i]),
        exists|i: int|
            0 <= i < add_reduction(s, r).len() && (#[trigger] add_reduction(s, r)[i]).var == r.var,
        forall|i: int| 0 <= i < s.len() ==> add_reduction(s, r).contains(#[trigger] s[i]),
    decreases s.len(),
{
    let out = add_reduction(s, r);
    if s.len() == 0 {
        assert(out[0] == r);
    } else if s.last().var.0 < r.var.0 {
        assert(out[s.len() as int] == r);
        assert forall|i: int| 0 <= i < out.len() implies #[trigger] out[i] == r || s.contains(
            out[i],
        ) by {
            if i < s.len() {
                assert(out[i] == s[i]);
            }
        }
        assert forall|i: int| 0 <= i < s.len() implies out.contains(#[trigger] s[i]) by {
            assert(out[i] == s[i]);
        }
    } else if s.last().var == r.var {
        assert(out[s.len() - 1] == s.last());
    } else {
        let d = s.drop_last();
        let inner = add_reduction(d, r);
        lemma_add_reduction(d, r);
        assert(out == inner.push(s.last()));
        assert forall|i: int| 0 <= i < out.len() implies #[trigger] out[i] == r || s.contains(
            out[i],
        ) by {
            if i < inner.len() {
                assert(out[i] == inner[i]);
                if inner[i] != r {
                    let q = choose|q: int| 0 <= q < d.len() && d[q] == inner[i];
                    assert(s[q] == out[i]);
                }
            } else {
                assert(out[i] == s[s.len() - 1]);
            }
        }
        assert forall|i: int, j: int| 0 <= i < j < out.len() implies (#[trigger] out[i]).var.0 < (
        #[trigger] out[j]).var.0 by {
            if j < inner.len() {
                assert(inner[i].var.0 < inner[j].var.0);
            } else {
                assert(out[i] == inner[i]);
                if inner[i] != r {
                    let q = choose|q: int| 0 <= q < d.len() && d[q] == inner[i];
                    assert(s[q].var.0 < s[s.len() - 1].var.0);
                }
            }
        }
        let w = choose|w: int| 0 <= w < inner.len() && (#[trigger] inner[w]).var == r.var;
        assert(out[w].var == r.var);
        assert forall|i: int| 0 <= i < s.len() implies out.contains(#[trigger] s[i]) by {
            if i < d.len() {
                assert(d[i] == s[i]);
                assert(inner.contains(d[i]));
                let q = choose|q: int| 0 <= q < inner.len() && inner[q] == d[i];
                assert(out[q] == s[i]);
            } else {
                assert(out[out.len() - 1] == s[i]);
            }
        }
    }
}

/// The order and the members of the reductions of a header.
proof fn lemma_header_reductions(
    func: FuncIr,
    header: BlockId,
    blocks: Seq<BlockId>,
    excluded: Seq<LocalId>,
    k: nat,
)
    requires
        k <= func.at(header).phis@.len(),
    ensures
        ({
            let s = header_reductions(func, header, blocks, excluded, k);
            let phis = func.at(header).phis@;
            &&& forall|i: int, j: int|
                0 <= i < j < s.len() ==> (#[trigger] s[i]).var.0 < (#[trigger] s[j]).var.0
            &&& forall|i: int|
                0 <= i < s.len() ==> exists|q: int|
                    0 <= q < k && reduction_of(func, header, blocks, excluded, #[trigger] phis[q])
                        == Some(#[trigger] s[i])
            &&& forall|q: int|
                0 <= q < k && reduction_of(func, header, blocks, excluded, #[trigger] phis[q])
                    is Some ==> exists|i: int|
                    0 <= i < s.len() && (#[trigger] s[i]).var == phis[q].var
        }),
    decreases k,
{
    if k > 0 {
        let phis = func.at(header).phis@;
        let before = header_reductions(func, header, blocks, excluded, (k - 1) as nat);
        let s = header_reductions(func, header, blocks, excluded, k);
        lemma_header_reductions(func, header, blocks, excluded, (k - 1) as nat);
        match reduction_of(func, header, blocks, excluded, phis[k - 1]) {
            Some(r) => {
                lemma_add_reduction(before, r);
                assert forall|i: int| 0 <= i < s.len() implies exists|q: int|
                    0 <= q < k && reduction_of(func, header, blocks, excluded, #[trigger] phis[q])
                        == Some(#[trigger] s[i]) by {
                    if s[i] == r {
                        assert(reduction_of(func, header, blocks, excluded, phis[k - 1]) == Some(
                            s[i],
                        ));
                    } else {
                        assert(before.contains(s[i]));
                        let p = choose|p: int| 0 <= p < before.len() && before[p] == s[i];
                        let q = choose|q: int|
                            0 <= q < k - 1 && reduction_of(
                                func,
                                header,
                                blocks,
                                excluded,
                                #[trigger] phis[q],
                            ) == Some(before[p]);
                        assert(reduction_of(func, header, blocks, excluded, phis[q]) == Some(s[i]));
                    }
                }
                assert forall|q: int|
                    0 <= q < k && reduction_of(func, header, blocks, excluded, #[trigger] phis[q])
                        is Some implies exists|i: int|
                    0 <= i < s.len() && (#[trigger] s[i]).var == phis[q].var by {
                    if q < k - 1 {
                        let p = choose|p: int|
                            0 <= p < before.len() && (#[trigger] before[p]).var == phis[q].var;
                        assert(s.contains(before[p]));
                        let i = choose|i: int| 0 <= i < s.len() && s[i] == before[p];
                        assert(s[i].var == phis[q].var);
                    }
                }
            },
            None => {
                assert(s == before);
                assert forall|i: int| 0 <= i < s.len() implies exists|q: int|
                    0 <= q < k && reduction_of(func, header, blocks, excluded, #[trigger] phis[q])
                        == Some(#[trigger] s[i]) by {
                    let q = choose|q: int|
                        0 <= q < k - 1 && reduction_of(
                            func,
                            header,
                            blocks,
                            excluded,
                            #[trigger] phis[q],
                        ) == Some(before[i]);
                    assert(reduction_of(func, header, blocks, excluded, phis[q]) == Some(s[i]));
                }
            },
        }
    }
}

/// Reductions come at most one per local and by ascending local, each is carried by a
/// phi of the header, every local with such a phi has one, and an excluded local has
/// none.
pub proof fn law_one_reduction_per_local(
    func: FuncIr,
    blocks: Seq<BlockId>,
    excluded: Seq<LocalId>,
)
    ensures
        ({
            let s = reductions(func, blocks, excluded);
            &&& forall|i: int, j: int|
                0 <= i < j < s.len() ==> (#[trigger] s[i]).var.0 < (#[trigger] s[j]).var.0
            &&& forall|i: int| 0 <= i < s.len() ==> !excluded.contains((#[trigger] s[i]).var)
            &&& first_where(blocks, has_phis(func)) matches Some(h) ==> forall|q: int|
                #![trigger func.at(blocks[h]).phis@[q]]
                0 <= q < func.at(blocks[h]).phis@.len() && reduction_of(
                    func,
                    blocks[h],
                    blocks,
                    excluded,
                    func.at(blocks[h]).phis@[q],
                ) is Some ==> exists|i: int|
                    0 <= i < s.len() && (#[trigger] s[i]).var == func.at(blocks[h]).phis@[q].var
        }),
{
    match first_where(blocks, has_phis(func)) {
        Some(h) => {
            let phis = func.at(blocks[h]).phis@;
            lemma_header_reductions(func, blocks[h], blocks, excluded, phis.len());
        },
        None => {},
    }
}

} // verus!
