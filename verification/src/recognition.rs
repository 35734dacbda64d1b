//! Which accumulations are recognized: all that have the shape of one, and nothing else.
use vstd::prelude::*;

use crate::ir::{BinOp, BlockData, BlockId, FuncIr, Inst, LocalId, Term, ValueId};
use crate::reduce::{
    add_reduction, block_strays, chain_op, has_phis, header_reductions, inst_strays, involves,
    law_independent_terms_are_independent, mentions, operand_path, operands, phi_mentions,
    phi_strays, reduction_of, reductions, returning, strays, walk, walk_any, Accumulator,
    Recognized, ReductionOp, MAX_WALK,
};
use crate::search::{first_where, lemma_first_where, lemma_first_where_is};

verus! {

/// `chain` is defined as the combination of `x` and `t` by the operator: a sum or a product
/// in either order, a difference that takes `t` from `x`, or the least or greatest of the
/// two, in either order.
pub open spec fn accumulates(
    func: FuncIr,
    chain: ValueId,
    x: ValueId,
    t: ValueId,
    op: ReductionOp,
) -> bool {
    match func.def_inst(chain) {
        Some(Inst::Bin { op: BinOp::Add, a, b, .. }) => op == ReductionOp::Add && (a == x && b == t
            || a == t && b == x),
        Some(Inst::Bin { op: BinOp::Sub, a, b, .. }) => op == ReductionOp::Add && a == x && b == t,
        Some(Inst::Bin { op: BinOp::Mul, a, b, .. }) => op == ReductionOp::Mul && (a == x && b == t
            || a == t && b == x),
        Some(Inst::Call(c)) => c.args@.len() == 2 && (c.args@[0] == x && c.args@[1] == t
            || c.args@[0] == t && c.args@[1] == x) && (c.callee@ == "min"@ && op
            == ReductionOp::Min || c.callee@ == "max"@ && op == ReductionOp::Max),
        _ => false,
    }
}

/// No chain of operands leads from the value to `x` or to `chain`, and none takes more than
/// 64 steps.
pub open spec fn free_of(func: FuncIr, t: ValueId, x: ValueId, chain: ValueId) -> bool {
    forall|p: Seq<ValueId>| #[trigger]
        operand_path(func, p) && p[0] == t ==> p.len() <= 65 && p.last() != x && p.last() != chain
}

/// Nothing in the block reads `x` or `chain`, but for the definition of `chain`, the phi of
/// `x`, and jumps that hand `chain` on.
pub open spec fn leaves_alone(data: BlockData, x: ValueId, chain: ValueId) -> bool {
    &&& forall|k: int, v: ValueId|
        0 <= k < data.insts@.len() && #[trigger] data.insts@[k].reads().contains(v) && (v == x || v
            == chain) ==> data.insts@[k].def() == Some(chain)
    &&& forall|k: int, j: int|
        0 <= k < data.phis@.len() && 0 <= j < data.phis@[k].args@.len() && (
        #[trigger] data.phis@[k].args@[j].1 == x || data.phis@[k].args@[j].1 == chain)
            ==> data.phis@[k].dst == x
    &&& match data.term {
        Term::Jump(_, args) => !args@.contains(x),
        Term::Branch { cond, .. } => cond != x && cond != chain,
        Term::Return(Some(v)) => v != x && v != chain,
        Term::Return(None) => true,
    }
}

/// Nothing that the walk has seen is the accumulator.
spec fn all_clear(seen: Map<u32, bool>) -> bool {
    forall|k: u32| #[trigger] seen.dom().contains(k) ==> !seen[k]
}

/// Some chain of operands from `t` has `n` steps and ends at `v`.
spec fn reached(func: FuncIr, t: ValueId, v: ValueId, n: nat) -> bool {
    exists|p: Seq<ValueId>| #[trigger]
        operand_path(func, p) && p[0] == t && p.last() == v && p.len() == n + 1
}

/// A step more.
proof fn lemma_reached(func: FuncIr, t: ValueId, v: ValueId, n: nat, i: int)
    requires
        reached(func, t, v, n),
        0 <= i < operands(func, v).len(),
    ensures
        reached(func, t, operands(func, v)[i], n + 1),
{
    let p = choose|p: Seq<ValueId>| #[trigger]
        operand_path(func, p) && p[0] == t && p.last() == v && p.len() == n + 1;
    let q = p.push(operands(func, v)[i]);
    assert forall|j: int| 0 <= j < q.len() - 1 implies operands(func, #[trigger] q[j]).contains(
        q[j + 1],
    ) by {
        if j < p.len() - 1 {
            assert(q[j] == p[j] && q[j + 1] == p[j + 1]);
            assert(operands(func, p[j]).contains(p[j + 1]));
        } else {
            assert(q[j] == v);
            assert(operands(func, v)[i] == q[j + 1]);
        }
    }
    assert(operand_path(func, q));
    assert(q[0] == t && q.last() == operands(func, v)[i] && q.len() == n + 2);
}

/// A walk from a value that is free of the accumulator does not meet it.
proof fn lemma_walk_misses(
    func: FuncIr,
    t: ValueId,
    v: ValueId,
    acc: Accumulator,
    seen: Map<u32, bool>,
    depth: nat,
)
    requires
        free_of(func, t, acc.phi, acc.chain),
        reached(func, t, v, depth),
        all_clear(seen),
    ensures
        !walk(func, v, acc, seen, depth).0,
        all_clear(walk(func, v, acc, seen, depth).1),
    decreases MAX_WALK + 2 - depth, 0nat,
{
    let p = choose|p: Seq<ValueId>| #[trigger]
        operand_path(func, p) && p[0] == t && p.last() == v && p.len() == depth + 1;
    assert(p.len() <= 65);
    if !seen.dom().contains(v.0) {
        if let Some(inst) = func.def_inst(v) {
            assert(operands(func, v) == inst.reads());
            lemma_walk_any_misses(
                func,
                t,
                v,
                inst.reads(),
                0,
                acc,
                seen.insert(v.0, false),
                depth + 1,
            );
        }
    }
}

/// The same for the operands of a value.
proof fn lemma_walk_any_misses(
    func: FuncIr,
    t: ValueId,
    v: ValueId,
    uses: Seq<ValueId>,
    k: nat,
    acc: Accumulator,
    seen: Map<u32, bool>,
    depth: nat,
)
    requires
        free_of(func, t, acc.phi, acc.chain),
        1 <= depth <= MAX_WALK + 1,
        reached(func, t, v, (depth - 1) as nat),
        uses == operands(func, v),
        all_clear(seen),
    ensures
        !walk_any(func, uses, k, acc, seen, depth).0,
        all_clear(walk_any(func, uses, k, acc, seen, depth).1),
    decreases MAX_WALK + 2 - depth, 1 + uses.len() - k,
{
    if k < uses.len() {
        lemma_reached(func, t, v, (depth - 1) as nat, k as int);
        lemma_walk_misses(func, t, uses[k as int], acc, seen, depth);
        let after = walk(func, uses[k as int], acc, seen, depth).1;
        lemma_walk_any_misses(func, t, v, uses, k + 1, acc, after, depth);
    }
}

/// A value from which every chain of operands takes at most 64 steps and none leads to the
/// accumulator is found not to involve it.
pub proof fn law_free_terms_are_found_independent(func: FuncIr, t: ValueId, acc: Accumulator)
    requires
        free_of(func, t, acc.phi, acc.chain),
    ensures
        !involves(func, t, acc),
{
    let p = seq![t];
    assert(operand_path(func, p));
    assert(p[0] == t && p.last() == t && p.len() == 1);
    assert(reached(func, t, t, 0));
    lemma_walk_misses(func, t, t, acc, Map::empty(), 0);
}

/// The values of a path up to a position, as a walk along it has seen them.
spec fn trail(p: Seq<ValueId>, k: nat) -> Map<u32, bool>
    decreases k,
{
    if k == 0 {
        Map::empty()
    } else {
        trail(p, (k - 1) as nat).insert(p[k - 1].0, false)
    }
}

/// What a trail holds.
proof fn lemma_trail(p: Seq<ValueId>, k: nat, v: u32)
    requires
        k <= p.len(),
        trail(p, k).dom().contains(v),
    ensures
        exists|i: int| 0 <= i < k && (#[trigger] p[i]).0 == v,
    decreases k,
{
    if p[k - 1].0 != v {
        lemma_trail(p, (k - 1) as nat, v);
    }
}

/// A walk along a chain that is too long gives up.
proof fn lemma_gives_up(func: FuncIr, acc: Accumulator, p: Seq<ValueId>, k: nat)
    requires
        p.len() == 66,
        k < 66,
        p.no_duplicates(),
        forall|i: int| 0 <= i < 65 ==> operands(func, #[trigger] p[i]) == seq![p[i + 1]],
    ensures
        walk(func, p[k as int], acc, trail(p, k), k).0,
    decreases 66 - k,
{
    let v = p[k as int];
    if k < 65 && !acc.is(v) {
        if trail(p, k).dom().contains(v.0) {
            lemma_trail(p, k, v.0);
            let i = choose|i: int| 0 <= i < k && (#[trigger] p[i]).0 == v.0;
            assert(p[i] == v);
        }
        assert(operands(func, p[k as int]) == seq![p[k as int + 1]]);
        assert(func.def_inst(v) is Some);
        let uses = func.def_inst(v)->0.reads();
        assert(uses == seq![p[k as int + 1]]);
        assert(uses[0] == p[k as int + 1]);
        lemma_gives_up(func, acc, p, k + 1);
        assert(trail(p, k + 1) == trail(p, k).insert(v.0, false));
        assert(walk_any(func, uses, 0, acc, trail(p, k + 1), k + 1).0);
    }
}

/// A value whose computation goes back through more than 64 definitions in a row counts as
/// involving every accumulator.
pub proof fn law_long_chains_count_as_dependent(func: FuncIr, acc: Accumulator, p: Seq<ValueId>)
    requires
        p.len() == 66,
        p.no_duplicates(),
        forall|i: int| 0 <= i < 65 ==> operands(func, #[trigger] p[i]) == seq![p[i + 1]],
    ensures
        involves(func, p[0], acc),
{
    lemma_gives_up(func, acc, p, 0);
}

/// An accumulator is combined with an independent term by the operator exactly where its
/// definition says so, on whichever side the accumulator stands.
pub proof fn law_accumulations_have_their_operator(
    func: FuncIr,
    acc: Accumulator,
    x: ValueId,
    t: ValueId,
    op: ReductionOp,
)
    requires
        x == acc.phi || x == acc.chain,
        accumulates(func, acc.chain, x, t, op),
        free_of(func, t, acc.phi, acc.chain),
    ensures
        chain_op(func, acc) == Some(op),
{
    law_free_terms_are_found_independent(func, t, acc);
    let p = seq![t];
    assert(operand_path(func, p));
    assert(p[0] == t && p.last() == t);
    reveal_strlit("min");
    reveal_strlit("max");
    assert("min"@[1] != "max"@[1]);
}

/// An operator is found only where the definition combines the accumulator with a term by
/// it, and no chain of operands leads from the term back to the accumulator.
pub proof fn law_operators_come_from_accumulations(func: FuncIr, acc: Accumulator)
    requires
        chain_op(func, acc) is Some,
    ensures
        exists|x: ValueId, t: ValueId|
            (x == acc.phi || x == acc.chain) && #[trigger] accumulates(
                func,
                acc.chain,
                x,
                t,
                chain_op(func, acc)->0,
            ) && forall|p: Seq<ValueId>| #[trigger]
                operand_path(func, p) && p[0] == t ==> p.last() != acc.phi && p.last() != acc.chain,
{
    let op = chain_op(func, acc)->0;
    let (a, b) = match func.def_inst(acc.chain) {
        Some(Inst::Bin { a, b, .. }) => (a, b),
        Some(Inst::Call(c)) => (c.args@[0], c.args@[1]),
        _ => (acc.phi, acc.phi),
    };
    let (x, t) = if acc.is(a) {
        (a, b)
    } else {
        (b, a)
    };
    assert(accumulates(func, acc.chain, x, t, op));
    assert forall|p: Seq<ValueId>| #[trigger] operand_path(func, p) && p[0] == t implies p.last()
        != acc.phi && p.last() != acc.chain by {
        law_independent_terms_are_independent(func, t, acc, p);
    }
}

/// Where nothing in the loop reads the accumulator, nothing strays.
proof fn lemma_no_strays(func: FuncIr, blocks: Seq<BlockId>, acc: Accumulator)
    requires
        forall|i: int|
            0 <= i < blocks.len() ==> leaves_alone(
                func.at(#[trigger] blocks[i]),
                acc.phi,
                acc.chain,
            ),
    ensures
        !strays(func, blocks, acc),
{
    assert forall|i: int| 0 <= i < blocks.len() implies !block_strays(
        func.at(#[trigger] blocks[i]),
        acc,
    ) by {
        let data = func.at(blocks[i]);
        assert(leaves_alone(data, acc.phi, acc.chain));
        assert forall|k: int| 0 <= k < data.insts@.len() implies !inst_strays(
            #[trigger] data.insts@[k],
            acc,
        ) by {
            let reads = data.insts@[k].reads();
            if mentions(reads, acc) {
                let j = choose|j: int| 0 <= j < reads.len() && acc.is(#[trigger] reads[j]);
                assert(data.insts@[k].reads().contains(reads[j]));
            }
        }
        assert forall|k: int| 0 <= k < data.phis@.len() implies !phi_strays(
            #[trigger] data.phis@[k],
            acc,
        ) by {
            let args = data.phis@[k].args@;
            if phi_mentions(args, acc) {
                let j = choose|j: int| 0 <= j < args.len() && acc.is((#[trigger] args[j]).1);
                assert(data.phis@[k].args@[j].1 == args[j].1);
            }
        }
    }
}

/// Where something in the loop reads the accumulator, something strays.
proof fn lemma_strays(func: FuncIr, blocks: Seq<BlockId>, acc: Accumulator, i: int)
    requires
        !strays(func, blocks, acc),
        0 <= i < blocks.len(),
    ensures
        leaves_alone(func.at(blocks[i]), acc.phi, acc.chain),
{
    let data = func.at(blocks[i]);
    assert(!block_strays(data, acc));
    assert forall|k: int, v: ValueId|
        0 <= k < data.insts@.len() && #[trigger] data.insts@[k].reads().contains(v) && (v
            == acc.phi || v == acc.chain) implies data.insts@[k].def() == Some(acc.chain) by {
        let reads = data.insts@[k].reads();
        let j = choose|j: int| 0 <= j < reads.len() && reads[j] == v;
        assert(acc.is(reads[j]));
        assert(!inst_strays(data.insts@[k], acc));
    }
    assert forall|k: int, j: int|
        0 <= k < data.phis@.len() && 0 <= j < data.phis@[k].args@.len() && (
        #[trigger] data.phis@[k].args@[j].1 == acc.phi || data.phis@[k].args@[j].1
            == acc.chain) implies data.phis@[k].dst == acc.phi by {
        assert(!phi_strays(data.phis@[k], acc));
        assert(acc.is(data.phis@[k].args@[j].1));
    }
}

/// Adding a reduction on a local that has none adds it, and keeps all others.
proof fn lemma_added(s: Seq<Recognized>, r: Recognized)
    ensures
        forall|x: Recognized| #[trigger] s.contains(x) ==> add_reduction(s, r).contains(x),
        (forall|i: int| 0 <= i < s.len() ==> (#[trigger] s[i]).var != r.var) ==> add_reduction(
            s,
            r,
        ).contains(r),
        forall|x: Recognized| #[trigger]
            add_reduction(s, r).contains(x) ==> x == r || s.contains(x),
    decreases s.len(),
{
    let out = add_reduction(s, r);
    if s.len() == 0 {
        assert(out[0] == r);
    } else if s.last().var.0 < r.var.0 {
        assert(out[s.len() as int] == r);
        assert forall|x: Recognized| #[trigger] s.contains(x) implies out.contains(x) by {
            let i = choose|i: int| 0 <= i < s.len() && s[i] == x;
            assert(out[i] == x);
        }
        assert forall|x: Recognized| #[trigger] out.contains(x) implies x == r || s.contains(
            x,
        ) by {
            let i = choose|i: int| 0 <= i < out.len() && out[i] == x;
            if i < s.len() {
                assert(s[i] == x);
            }
        }
    } else if s.last().var == r.var {
        assert(s[s.len() - 1].var == r.var);
    } else {
        let d = s.drop_last();
        let inner = add_reduction(d, r);
        lemma_added(d, r);
        assert(out == inner.push(s.last()));
        assert forall|x: Recognized| #[trigger] s.contains(x) implies out.contains(x) by {
            let i = choose|i: int| 0 <= i < s.len() && s[i] == x;
            if i < d.len() {
                assert(d[i] == x);
                assert(d.contains(x));
                let j = choose|j: int| 0 <= j < inner.len() && inner[j] == x;
                assert(out[j] == x);
            } else {
                assert(out[inner.len() as int] == x);
            }
        }
        assert forall|x: Recognized| #[trigger] out.contains(x) implies x == r || s.contains(
            x,
        ) by {
            let i = choose|i: int| 0 <= i < out.len() && out[i] == x;
            if i < inner.len() {
                assert(inner[i] == x);
                assert(inner.contains(x));
                if x != r {
                    let j = choose|j: int| 0 <= j < d.len() && d[j] == x;
                    assert(s[j] == x);
                }
            } else {
                assert(s[s.len() - 1] == x);
            }
        }
        if forall|i: int| 0 <= i < s.len() ==> (#[trigger] s[i]).var != r.var {
            assert forall|i: int| 0 <= i < d.len() implies (#[trigger] d[i]).var != r.var by {
                assert(d[i] == s[i]);
            }
            let j = choose|j: int| 0 <= j < inner.len() && inner[j] == r;
            assert(out[j] == r);
        }
    }
}

/// The reductions of a header are those of its phis.
proof fn lemma_members(
    func: FuncIr,
    header: BlockId,
    blocks: Seq<BlockId>,
    excluded: Seq<LocalId>,
    k: nat,
)
    requires
        k <= func.at(header).phis@.len(),
    ensures
        ({
            let s = header_reductions(func, header, blocks, excluded, k);
            let phis = func.at(header).phis@;
            &&& forall|x: Recognized| #[trigger]
                s.contains(x) ==> exists|q: int|
                    0 <= q < k && reduction_of(func, header, blocks, excluded, #[trigger] phis[q])
                        == Some(x)
            &&& forall|q: int|
                0 <= q < k && reduction_of(func, header, blocks, excluded, #[trigger] phis[q])
                    is Some && (forall|j: int|
                    0 <= j < k && j != q ==> (#[trigger] phis[j]).var != phis[q].var)
                    ==> s.contains(reduction_of(func, header, blocks, excluded, phis[q])->0)
        }),
    decreases k,
{
    if k > 0 {
        let phis = func.at(header).phis@;
        let before = header_reductions(func, header, blocks, excluded, (k - 1) as nat);
        let s = header_reductions(func, header, blocks, excluded, k);
        lemma_members(func, header, blocks, excluded, (k - 1) as nat);
        let last = reduction_of(func, header, blocks, excluded, phis[k - 1]);
        if let Some(r) = last {
            lemma_added(before, r);
        }
        assert forall|x: Recognized| #[trigger] s.contains(x) implies exists|q: int|
            0 <= q < k && reduction_of(func, header, blocks, excluded, #[trigger] phis[q]) == Some(
                x,
            ) by {
            if last == Some(x) {
                assert(reduction_of(func, header, blocks, excluded, phis[k - 1]) == Some(x));
            } else {
                assert(before.contains(x));
                let q = choose|q: int|
                    0 <= q < k - 1 && reduction_of(
                        func,
                        header,
                        blocks,
                        excluded,
                        #[trigger] phis[q],
                    ) == Some(x);
                assert(reduction_of(func, header, blocks, excluded, phis[q]) == Some(x));
            }
        }
        assert forall|q: int|
            0 <= q < k && reduction_of(func, header, blocks, excluded, #[trigger] phis[q]) is Some
                && (forall|j: int|
                0 <= j < k && j != q ==> (#[trigger] phis[j]).var
                    != phis[q].var) implies s.contains(
            reduction_of(func, header, blocks, excluded, phis[q])->0,
        ) by {
            if q < k - 1 {
                assert(before.contains(reduction_of(func, header, blocks, excluded, phis[q])->0));
            } else {
                let r = last->0;
                assert forall|i: int| 0 <= i < before.len() implies (#[trigger] before[i]).var
                    != r.var by {
                    assert(before.contains(before[i]));
                    let j = choose|j: int|
                        0 <= j < k - 1 && reduction_of(
                            func,
                            header,
                            blocks,
                            excluded,
                            #[trigger] phis[j],
                        ) == Some(before[i]);
                    assert(phis[j].var != phis[q].var);
                }
            }
        }
    }
}

/// A loop in which a variable accumulates is recognized as a reduction of that variable.
///
/// The first block of the loop that has phis has one alone for the variable; it takes two
/// values, one from outside the loop and one, `chain`, from inside. The chain is the
/// variable combined with a term by the operator, on whichever side it stands; no chain of
/// operands leads from the term to the variable; and nothing else in the loop reads it.
pub proof fn law_accumulations_are_recognized(
    func: FuncIr,
    blocks: Seq<BlockId>,
    excluded: Seq<LocalId>,
    h: int,
    q: int,
    k: int,
    t: ValueId,
    op: ReductionOp,
)
    requires
        0 <= h < blocks.len(),
        forall|i: int| 0 <= i < h ==> func.at(#[trigger] blocks[i]).phis@.len() == 0,
        0 <= q < func.at(blocks[h]).phis@.len(),
        0 <= k < 2,
        ({
            let phis = func.at(blocks[h]).phis@;
            let phi = phis[q];
            let chain = phi.args@[k].1;
            &&& forall|j: int|
                0 <= j < phis.len() && j != q ==> (#[trigger] phis[j]).var != phi.var
            &&& !excluded.contains(phi.var)
            &&& phi.args@.len() == 2
            &&& phi.args@[k].0 != blocks[h] && blocks.contains(phi.args@[k].0)
            &&& !blocks.contains(phi.args@[1 - k].0)
            &&& accumulates(func, chain, phi.dst, t, op)
            &&& free_of(func, t, phi.dst, chain)
            &&& forall|i: int|
                0 <= i < blocks.len() ==> leaves_alone(
                    func.at(#[trigger] blocks[i]),
                    phi.dst,
                    chain,
                )
        }),
    ensures
        reductions(func, blocks, excluded).contains(
            Recognized { var: func.at(blocks[h]).phis@[q].var, op },
        ),
{
    let phis = func.at(blocks[h]).phis@;
    let phi = phis[q];
    let chain = phi.args@[k].1;
    let acc = Accumulator { phi: phi.dst, chain };
    lemma_first_where_is(blocks, has_phis(func), h);
    assert(returning(phi, blocks[h], blocks) == Some(chain));
    law_accumulations_have_their_operator(func, acc, phi.dst, t, op);
    lemma_no_strays(func, blocks, acc);
    assert(reduction_of(func, blocks[h], blocks, excluded, phi) == Some(
        Recognized { var: phi.var, op },
    ));
    lemma_members(func, blocks[h], blocks, excluded, phis.len());
    assert(reduction_of(func, blocks[h], blocks, excluded, phis[q]) is Some);
}

/// Every reduction is an accumulation: a phi of the first block of the loop that has phis
/// is of its variable and takes two values, of which the one that comes from inside the
/// loop combines the variable with a term by the operator; no chain of operands leads from
/// the term back to the variable, and nothing else in the loop reads it.
pub proof fn law_recognized_reductions_accumulate(
    func: FuncIr,
    blocks: Seq<BlockId>,
    excluded: Seq<LocalId>,
    r: Recognized,
) -> (w: (int, int, int, ValueId, ValueId))
    requires
        reductions(func, blocks, excluded).contains(r),
    ensures
        ({
            let (h, q, k, x, t) = w;
            let phis = func.at(blocks[h]).phis@;
            let phi = phis[q];
            let chain = phi.args@[k].1;
            &&& 0 <= h < blocks.len()
            &&& forall|i: int| 0 <= i < h ==> func.at(#[trigger] blocks[i]).phis@.len() == 0
            &&& 0 <= q < phis.len()
            &&& 0 <= k < 2
            &&& phi.var == r.var
            &&& !excluded.contains(r.var)
            &&& phi.args@.len() == 2
            &&& phi.args@[k].0 != blocks[h] && blocks.contains(phi.args@[k].0)
            &&& x == phi.dst || x == chain
            &&& accumulates(func, chain, x, t, r.op)
            &&& forall|p: Seq<ValueId>| #[trigger]
                operand_path(func, p) && p[0] == t ==> p.last() != phi.dst && p.last() != chain
            &&& forall|i: int|
                0 <= i < blocks.len() ==> leaves_alone(
                    func.at(#[trigger] blocks[i]),
                    phi.dst,
                    chain,
                )
        }),
{
    lemma_first_where(blocks, has_phis(func));
    let h = first_where(blocks, has_phis(func))->0;
    let phis = func.at(blocks[h]).phis@;
    assert forall|i: int| 0 <= i < h implies func.at(#[trigger] blocks[i]).phis@.len() == 0 by {
        assert(!has_phis(func)(blocks[i]));
    }
    lemma_members(func, blocks[h], blocks, excluded, phis.len());
    let q = choose|q: int|
        0 <= q < phis.len() && reduction_of(
            func,
            blocks[h],
            blocks,
            excluded,
            #[trigger] phis[q],
        ) == Some(r);
    let phi = phis[q];
    let k: int = if phi.args@[0].0 != blocks[h] && blocks.contains(phi.args@[0].0) {
        0
    } else {
        1
    };
    let chain = phi.args@[k].1;
    let acc = Accumulator { phi: phi.dst, chain };
    law_operators_come_from_accumulations(func, acc);
    let (x, t) = choose|x: ValueId, t: ValueId|
        (x == acc.phi || x == acc.chain) && #[trigger] accumulates(
            func,
            acc.chain,
            x,
            t,
            r.op,
        ) && forall|p: Seq<ValueId>| #[trigger]
            operand_path(func, p) && p[0] == t ==> p.last() != acc.phi && p.last() != acc.chain;
    assert forall|i: int| 0 <= i < blocks.len() implies leaves_alone(
        func.at(#[trigger] blocks[i]),
        phi.dst,
        chain,
    ) by {
        lemma_strays(func, blocks, acc, i);
    }
    (h, q, k, x, t)
}

} // verus!
