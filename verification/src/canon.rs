//! Canonical loop recovery: finds the induction phi, the latch increment and the
//! header comparison, and turns them back into a counting loop.
use vstd::prelude::*;

use crate::ir::{BinOp, BlockId, FuncIr, Inst, LocalId, Phi, Term, ValueId};
use crate::loops::{has_member, Loop};
use crate::search::{first_where, lemma_first_where, lemma_first_where_is, lemma_first_where_none};

verus! {

/// A bound of a canonical loop: a constant, or a value defined outside the loop.
#[derive(Clone, Copy, Debug, PartialEq, Eq, Structural)]
pub enum Bound {
    Const(i64),
    /// Number of the value.
    Sym(u32),
}

/// A recognized counting loop.
#[derive(Clone, Copy, Debug, PartialEq, Eq, Structural)]
pub struct CanonicalLoop {
    /// The induction variable.
    pub iv: LocalId,
    /// What enters the header from outside the loop.
    pub start: Bound,
    /// What the header compares with.
    pub end: Bound,
    /// Latch increment, at least 1.
    pub step: i64,
    /// The block of the induction phi and the comparison.
    pub header: BlockId,
    /// The block taken when the comparison fails.
    pub exit: Option<BlockId>,
    /// The induction value inside the loop: the result of the phi.
    pub iv_value_in_loop: ValueId,
}

/// The bound that `v` is.
pub open spec fn bound_of(func: FuncIr, v: ValueId) -> Bound {
    match func.literal(v) {
        Some(c) => Bound::Const(c),
        None => Bound::Sym(v.0),
    }
}

/// The edge comes from outside the loop.
pub open spec fn from_outside(b: BlockId, header: BlockId, blocks: Seq<BlockId>) -> bool {
    b != header && !blocks.contains(b)
}

/// The edge comes from inside the loop, but not from the header.
pub open spec fn from_inside(b: BlockId, header: BlockId, blocks: Seq<BlockId>) -> bool {
    b != header && blocks.contains(b)
}

/// What enters a phi of two arguments from outside the loop.
pub open spec fn entry_value(phi: Phi, header: BlockId, blocks: Seq<BlockId>) -> Option<ValueId> {
    if from_outside(phi.args@[1].0, header, blocks) {
        Some(phi.args@[1].1)
    } else if from_outside(phi.args@[0].0, header, blocks) {
        Some(phi.args@[0].1)
    } else {
        None
    }
}

/// What comes back to a phi of two arguments around the loop.
pub open spec fn back_value(phi: Phi, header: BlockId, blocks: Seq<BlockId>) -> Option<ValueId> {
    if from_inside(phi.args@[1].0, header, blocks) {
        Some(phi.args@[1].1)
    } else if from_inside(phi.args@[0].0, header, blocks) {
        Some(phi.args@[0].1)
    } else {
        None
    }
}

/// The constant that the latch adds to the induction value: `back` is the sum of it
/// and the phi. An operand that is `back` itself spells the same variable.
pub open spec fn latch_step(func: FuncIr, phi: Phi, back: ValueId) -> Option<i64> {
    match func.def_inst(back) {
        Some(Inst::Bin { op: BinOp::Add, a, b, .. }) => {
            let left = a == phi.dst || a == back;
            let right = b == phi.dst || b == back;
            if left && func.literal(b) is Some {
                func.literal(b)
            } else if right && func.literal(a) == Some(1i64) {
                Some(1i64)
            } else {
                None
            }
        },
        _ => None,
    }
}

/// The operator orders its operands.
pub open spec fn orders(op: BinOp) -> bool {
    op is Lt || op is Le || op is Gt || op is Ge
}

/// What the condition compares `v` with.
pub open spec fn compared_with(func: FuncIr, cond: ValueId, v: ValueId) -> Option<ValueId> {
    match func.def_inst(cond) {
        Some(Inst::Bin { op, a, b, .. }) => if !orders(op) {
            None
        } else if a == v {
            Some(b)
        } else if b == v {
            Some(a)
        } else {
            None
        },
        _ => None,
    }
}

/// The counting loop that the phi makes of the loop, if it is an induction phi.
pub open spec fn counted_by(
    func: FuncIr,
    header: BlockId,
    blocks: Seq<BlockId>,
    phi: Phi,
) -> Option<CanonicalLoop> {
    if phi.args@.len() != 2 {
        None
    } else {
        match (
            entry_value(phi, header, blocks),
            back_value(phi, header, blocks),
            func.at(header).term,
        ) {
            (Some(pre), Some(back), Term::Branch { cond, t, f }) => match (
                latch_step(func, phi, back),
                compared_with(func, cond, phi.dst),
            ) {
                (Some(step), Some(other)) => Some(
                    CanonicalLoop {
                        iv: phi.var,
                        start: bound_of(func, pre),
                        end: bound_of(func, other),
                        step: if step < 1 {
                            1
                        } else {
                            step
                        },
                        header,
                        exit: if blocks.contains(f) {
                            Some(t)
                        } else {
                            Some(f)
                        },
                        iv_value_in_loop: phi.dst,
                    },
                ),
                _ => None,
            },
            _ => None,
        }
    }
}

/// The phi is an induction phi of the loop.
pub open spec fn counts(func: FuncIr, header: BlockId, blocks: Seq<BlockId>) -> spec_fn(
    Phi,
) -> bool {
    |p: Phi| counted_by(func, header, blocks, p) is Some
}

/// The counting loop that a loop is, if it is one: that of its first induction phi.
pub open spec fn canonical(func: FuncIr, header: BlockId, blocks: Seq<BlockId>) -> Option<
    CanonicalLoop,
> {
    let phis = func.at(header).phis@;
    match first_where(phis, counts(func, header, blocks)) {
        Some(k) => counted_by(func, header, blocks, phis[k]),
        None => None,
    }
}

/// The bound that `v` is.
fn bound_from_value(func: &FuncIr, v: ValueId) -> (r: Bound)
    ensures
        r == bound_of(*func, v),
{
    match func.const_of(v) {
        Some(c) => Bound::Const(c),
        None => Bound::Sym(v.0),
    }
}

/// The constant that the latch adds to the induction value.
pub fn step_of(func: &FuncIr, phi: &Phi, back: ValueId) -> (r: Option<i64>)
    ensures
        r == latch_step(*func, *phi, back),
{
    match func.inst_defining(back) {
        Some(Inst::Bin { op: BinOp::Add, a, b, .. }) => {
            let left = *a == phi.dst || *a == back;
            let right = *b == phi.dst || *b == back;
            let added = func.const_of(*b);
            if left && added.is_some() {
                added
            } else if right {
                match func.const_of(*a) {
                    Some(c) => if c == 1 {
                        Some(1)
                    } else {
                        None
                    },
                    None => None,
                }
            } else {
                None
            }
        },
        _ => None,
    }
}

/// What the condition compares `v` with.
fn other_side(func: &FuncIr, cond: ValueId, v: ValueId) -> (r: Option<ValueId>)
    ensures
        r == compared_with(*func, cond, v),
{
    match func.inst_defining(cond) {
        Some(Inst::Bin { op, a, b, .. }) => {
            let ordered = match op {
                BinOp::Lt | BinOp::Le | BinOp::Gt | BinOp::Ge => true,
                _ => false,
            };
            if !ordered {
                None
            } else if *a == v {
                Some(*b)
            } else if *b == v {
                Some(*a)
            } else {
                None
            }
        },
        _ => None,
    }
}

/// The counting loop that the phi makes of the loop, if it is an induction phi.
fn try_phi(func: &FuncIr, loop_: &Loop, phi: &Phi) -> (r: Option<CanonicalLoop>)
    requires
        func.has_block(loop_.header),
    ensures
        r == counted_by(*func, loop_.header, loop_.blocks@, *phi),
{
    if phi.args.len() != 2 {
        return None;
    }
    let mut pre: Option<ValueId> = None;
    let mut back: Option<ValueId> = None;
    let mut k: usize = 0;
    while k < 2
        invariant
            k <= 2,
            phi.args@.len() == 2,
            k == 0 ==> pre is None && back is None,
            k == 1 ==> pre == (if from_outside(phi.args@[0].0, loop_.header, loop_.blocks@) {
                Some(phi.args@[0].1)
            } else {
                None
            }),
            k == 1 ==> back == (if from_inside(phi.args@[0].0, loop_.header, loop_.blocks@) {
                Some(phi.args@[0].1)
            } else {
                None
            }),
            k == 2 ==> pre == entry_value(*phi, loop_.header, loop_.blocks@),
            k == 2 ==> back == back_value(*phi, loop_.header, loop_.blocks@),
        decreases 2 - k,
    {
        let (from, v) = phi.args[k];
        if from != loop_.header {
            if has_member(&loop_.blocks, from) {
                back = Some(v);
            } else {
                pre = Some(v);
            }
        }
        k = k + 1;
    }
    let (pre, back): (ValueId, ValueId) = match (pre, back) {
        (Some(p), Some(b)) => (p, b),
        _ => {
            return None;
        },
    };
    let step: i64 = match step_of(func, phi, back) {
        Some(s) => s,
        None => {
            return None;
        },
    };
    match &func.block(loop_.header).term {
        Term::Branch { cond, t, f } => match other_side(func, *cond, phi.dst) {
            Some(other) => {
                let exit = if has_member(&loop_.blocks, *f) { *t } else { *f };
                Some(
                    CanonicalLoop {
                        iv: phi.var,
                        start: bound_from_value(func, pre),
                        end: bound_from_value(func, other),
                        step: if step < 1 { 1 } else { step },
                        header: loop_.header,
                        exit: Some(exit),
                        iv_value_in_loop: phi.dst,
                    },
                )
            },
            None => None,
        },
        _ => None,
    }
}

/// Recognizes a counting loop. `None` where the shape is another one.
pub fn canon(func: &FuncIr, loop_: &Loop) -> (r: Option<CanonicalLoop>)
    requires
        func.has_block(loop_.header),
    ensures
        r == canonical(*func, loop_.header, loop_.blocks@),
{
    let phis = &func.block(loop_.header).phis;
    let ghost good = counts(*func, loop_.header, loop_.blocks@);
    let mut k: usize = 0;
    while k < phis.len()
        invariant
            func.has_block(loop_.header),
            phis@ == func.at(loop_.header).phis@,
            good == counts(*func, loop_.header, loop_.blocks@),
            k <= phis@.len(),
            forall|j: int| 0 <= j < k ==> !good(#[trigger] phis@[j]),
        decreases phis@.len() - k,
    {
        let found = try_phi(func, loop_, &phis[k]);
        if found.is_some() {
            proof {
                lemma_first_where_is(phis@, good, k as int);
            }
            return found;
        }
        k = k + 1;
    }
    proof {
        lemma_first_where_none(phis@, good);
    }
    None
}

/// Whatever the latch adds, a recognized step is positive, the header is that of the
/// loop, and there is an exit.
pub proof fn law_canonical_loops_count_up(
    func: FuncIr,
    header: BlockId,
    blocks: Seq<BlockId>,
)
    ensures
        canonical(func, header, blocks) matches Some(c) ==> c.step >= 1 && c.header == header
            && c.exit is Some && exists|k: int|
            0 <= k < func.at(header).phis@.len() && (#[trigger] func.at(header).phis@[k]).dst
                == c.iv_value_in_loop && func.at(header).phis@[k].var == c.iv,
{
    lemma_first_where(func.at(header).phis@, counts(func, header, blocks));
}

} // verus!
