//! Which loops count, and through which iterations.
use vstd::prelude::*;

use crate::canon::{
    back_value, bound_of, canonical, compared_with, counted_by, counts, entry_value, latch_step,
    Bound,
};
use crate::ir::{BinOp, BlockId, FuncIr, Inst, Phi, Term, ValueId};
use crate::plan::range_of;
use crate::search::{first_where, lemma_first_where};

verus! {

/// The value is defined as the integer.
pub open spec fn is_integer(func: FuncIr, v: ValueId, x: i64) -> bool {
    match func.def_inst(v) {
        Some(Inst::Const { c, .. }) => c.int_value() == Some(x),
        _ => false,
    }
}

/// The values that make a phi of the header count: what enters from outside the loop, what
/// comes back from inside, what is added on the way, and what the header compares with.
pub struct Count {
    pub enters: ValueId,
    pub comes_back: ValueId,
    pub added: i64,
    pub limit: ValueId,
}

/// The phi counts: it takes one value from outside the loop and one from inside; the latter
/// is the sum of the phi and a constant; and the header branches on an order between the phi
/// and the limit.
pub open spec fn counts_with(
    func: FuncIr,
    header: BlockId,
    blocks: Seq<BlockId>,
    phi: Phi,
    n: Count,
) -> bool {
    &&& phi.args@.len() == 2
    &&& exists|k: int|
        #![trigger phi.args@[k]]
        0 <= k < 2 && phi.args@[k].0 != header && !blocks.contains(phi.args@[k].0)
            && phi.args@[k].1 == n.enters && phi.args@[1 - k].0 != header && blocks.contains(
            phi.args@[1 - k].0,
        ) && phi.args@[1 - k].1 == n.comes_back
    &&& match func.def_inst(n.comes_back) {
        Some(Inst::Bin { op: BinOp::Add, a, b, .. }) => {
            ||| (a == phi.dst || a == n.comes_back) && is_integer(func, b, n.added)
            ||| (b == phi.dst || b == n.comes_back) && is_integer(func, a, n.added) && n.added == 1
        },
        _ => false,
    }
    &&& func.at(header).term matches Term::Branch { cond, .. } && match func.def_inst(cond) {
        Some(Inst::Bin { op, a, b, .. }) => (op is Lt || op is Le || op is Gt || op is Ge) && (a
            == phi.dst && b == n.limit || a != phi.dst && b == phi.dst && a == n.limit),
        _ => false,
    }
}

/// The bound is the value: the integer that it is defined as, or else its number.
pub open spec fn bounds_by(func: FuncIr, b: Bound, v: ValueId) -> bool {
    match b {
        Bound::Const(x) => is_integer(func, v, x),
        Bound::Sym(s) => s == v.0 && forall|x: i64| !#[trigger] is_integer(func, v, x),
    }
}

/// A bound that is made of a value is that value.
proof fn lemma_bound(func: FuncIr, v: ValueId)
    ensures
        bounds_by(func, bound_of(func, v), v),
        forall|x: i64| #[trigger] is_integer(func, v, x) <==> func.literal(v) == Some(x),
{
    assert forall|x: i64| #[trigger] is_integer(func, v, x) <==> func.literal(v) == Some(x) by {}
}

/// A loop whose header has a phi that counts is a counting loop.
pub proof fn law_counting_loops_are_found(
    func: FuncIr,
    header: BlockId,
    blocks: Seq<BlockId>,
    q: int,
    n: Count,
)
    requires
        0 <= q < func.at(header).phis@.len(),
        counts_with(func, header, blocks, func.at(header).phis@[q], n),
    ensures
        canonical(func, header, blocks) is Some,
        exists|j: int|
            0 <= j <= q && (#[trigger] func.at(header).phis@[j]).dst == canonical(
                func,
                header,
                blocks,
            )->0.iv_value_in_loop,
{
    let phis = func.at(header).phis@;
    let phi = phis[q];
    let k = choose|k: int|
        #![trigger phi.args@[k]]
        0 <= k < 2 && phi.args@[k].0 != header && !blocks.contains(phi.args@[k].0)
            && phi.args@[k].1 == n.enters && phi.args@[1 - k].0 != header && blocks.contains(
            phi.args@[1 - k].0,
        ) && phi.args@[1 - k].1 == n.comes_back;
    assert(k == 0 || k == 1);
    assert(entry_value(phi, header, blocks) == Some(n.enters));
    assert(back_value(phi, header, blocks) == Some(n.comes_back));
    if let Some(Inst::Bin { op: BinOp::Add, a, b, .. }) = func.def_inst(n.comes_back) {
        lemma_bound(func, a);
        lemma_bound(func, b);
    }
    assert(latch_step(func, phi, n.comes_back) is Some);
    assert(counts(func, header, blocks)(phis[q]));
    lemma_first_where(phis, counts(func, header, blocks));
    let j = first_where(phis, counts(func, header, blocks))->0;
    assert(counted_by(func, header, blocks, phis[j])->0.iv_value_in_loop == phis[j].dst);
}

/// A counting loop is what its header says: a phi of the header counts, the loop starts from
/// what enters the phi and ends at what the header compares it with, its step is what is
/// added, but at least 1, and it leaves by the branch that goes out of the loop.
pub proof fn law_counting_loops_count(func: FuncIr, header: BlockId, blocks: Seq<BlockId>) -> (w: (
    int,
    Count,
))
    requires
        canonical(func, header, blocks) is Some,
    ensures
        ({
            let (q, n) = w;
            let c = canonical(func, header, blocks)->0;
            let phi = func.at(header).phis@[q];
            &&& 0 <= q < func.at(header).phis@.len()
            &&& counts_with(func, header, blocks, phi, n)
            &&& c.iv == phi.var
            &&& c.iv_value_in_loop == phi.dst
            &&& c.header == header
            &&& bounds_by(func, c.start, n.enters)
            &&& bounds_by(func, c.end, n.limit)
            &&& n.added >= 1 ==> c.step == n.added
            &&& n.added < 1 ==> c.step == 1
            &&& func.at(header).term matches Term::Branch { t, f, .. } && (blocks.contains(f)
                ==> c.exit == Some(t)) && (!blocks.contains(f) ==> c.exit == Some(f))
        }),
{
    let phis = func.at(header).phis@;
    lemma_first_where(phis, counts(func, header, blocks));
    let q = first_where(phis, counts(func, header, blocks))->0;
    let phi = phis[q];
    let enters = entry_value(phi, header, blocks)->0;
    let comes_back = back_value(phi, header, blocks)->0;
    let added = latch_step(func, phi, comes_back)->0;
    let cond = func.at(header).term->cond;
    let limit = compared_with(func, cond, phi.dst)->0;
    let n = Count { enters, comes_back, added, limit };
    lemma_bound(func, enters);
    lemma_bound(func, limit);
    if let Some(Inst::Bin { op: BinOp::Add, a, b, .. }) = func.def_inst(comes_back) {
        lemma_bound(func, a);
        lemma_bound(func, b);
    }
    let k: int = if phi.args@[1].0 != header && !blocks.contains(phi.args@[1].0) {
        1
    } else {
        0
    };
    assert(phi.args@[k].1 == enters);
    assert(phi.args@[1 - k].1 == comes_back);
    (q, n)
}

/// Where both bounds are constants, analysis looks at exactly the numbers from the start up
/// to before the end; where one is not, at all numbers up to 2^40 in magnitude.
pub proof fn law_ranges_hold_the_iterations(
    func: FuncIr,
    header: BlockId,
    blocks: Seq<BlockId>,
    i: int,
)
    requires
        canonical(func, header, blocks) is Some,
    ensures
        ({
            let c = canonical(func, header, blocks)->0;
            match (c.start, c.end) {
                (Bound::Const(lo), Bound::Const(hi)) => range_of(Some(c)).has(i) <==> lo <= i < hi,
                _ => range_of(Some(c)).has(i) <==> -0x100_0000_0000 <= i <= 0x100_0000_0000,
            }
        }),
{
}

} // verus!
