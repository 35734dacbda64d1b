//! Bodies of regions can be lowered.
use vstd::prelude::*;

use crate::body::{bound_names_distinct, lemma_body_len, lemma_clone_at, BodyParts};
use crate::clif::params_below;
use crate::graph::{lemma_loop_members, natural_loop};
use crate::ir::{block_views, BlockId, FuncIr, PhiV, Term, TermV, ValueId};
use crate::iterate::{lemma_blocks_grow, lemma_no_place, lemma_place};
use crate::jit::body_fits;
use crate::lower::{comes_from, edge_arg, edges_fed, lowerable, phi_of};
use crate::parallel::region_parts;
use crate::parts::lemma_shaped;
use crate::plan::RegionKind;
use crate::rename::Renaming;
use crate::search::{first_where, lemma_first_where};
use crate::twins::shaped;

verus! {

/// The clones of phis take from the places of the blocks that the phis take from.
proof fn lemma_phi_args(p: BodyParts, st: Renaming, args: Seq<(BlockId, ValueId)>, k: nat)
    requires
        k <= args.len(),
    ensures
        p.phi_args(st, args, k).0.len() == k,
        forall|j: int|
            0 <= j < k ==> (#[trigger] p.phi_args(st, args, k).0[j]).0 == p.retarget(args[j].0),
    decreases k,
{
    if k > 0 {
        lemma_phi_args(p, st, args, (k - 1) as nat);
    }
}

/// The clones of phis are for the same variables.
proof fn lemma_phi_clones(p: BodyParts, st: Renaming, phis: Seq<PhiV>, k: nat)
    requires
        k <= phis.len(),
    ensures
        p.phis(st, phis, k).0.len() == k,
        forall|i: int|
            0 <= i < k ==> (#[trigger] p.phis(st, phis, k).0[i]).var == phis[i].var && p.phis(
                st,
                phis,
                k,
            ).0[i].args.len() == phis[i].args.len(),
        forall|i: int, j: int|
            0 <= i < k && 0 <= j < phis[i].args.len() ==> (#[trigger] p.phis(
                st,
                phis,
                k,
            ).0[i].args[j]).0 == p.retarget(phis[i].args[j].0),
    decreases k,
{
    if k > 0 {
        lemma_phi_clones(p, st, phis, (k - 1) as nat);
        let (before, s1) = p.phis(st, phis, (k - 1) as nat);
        let (dst, s2) = s1.name(phis[k - 1].dst);
        lemma_phi_args(p, s2, phis[k - 1].args, phis[k - 1].args.len());
    }
}

/// Naming a list keeps its length.
proof fn lemma_names_len(st: Renaming, vs: Seq<ValueId>, k: nat)
    ensures
        st.names(vs, k).0.len() == k,
    decreases k,
{
    if k > 0 {
        lemma_names_len(st, vs, (k - 1) as nat);
    }
}

/// A block of the body: the clone at its position, or the exit.
proof fn lemma_body_block(p: BodyParts, f: FuncIr, a: BlockId)
    requires
        shaped(p),
        p.sk.blocks.len() < u32::MAX,
        p.is_body(f),
        f.has_block(a),
    ensures
        f.blocks@.len() == p.sk.blocks.len() + 1,
        f.at(a)@ == p.all_blocks()[a.0 as int],
        a.0 < p.sk.blocks.len() ==> f.at(a)@ == p.block(p.blocks(a.0 as nat).1, a.0 as int).0,
{
    let n = p.sk.blocks.len();
    lemma_body_len(p, n);
    assert(block_views(f.blocks@)[a.0 as int] == f.blocks@[a.0 as int]@);
    assert(block_views(f.blocks@).len() == f.blocks@.len());
    if a.0 < n {
        lemma_clone_at(p, n, a.0 as int);
    }
}

/// The edges of a clone go to the places of the blocks that its block goes to.
proof fn lemma_body_edge(p: BodyParts, f: FuncIr, a: BlockId, b: BlockId)
    requires
        shaped(p),
        p.sk.blocks.len() < u32::MAX,
        p.is_body(f),
        f.has_block(a),
        f.at(a).term.targets().contains(b),
    ensures
        b.0 <= p.sk.blocks.len(),
        b.0 < p.sk.blocks.len() ==> {
            let from = p.sk.blocks[a.0 as int];
            let to = p.sk.blocks[b.0 as int];
            &&& a.0 < p.sk.blocks.len()
            &&& from != p.sk.latch
            &&& p.ir.at(from).term.targets().contains(to)
            &&& p.retarget(to) == b
            &&& f.at(a).term.forwarded().len() == p.ir.at(from).term.forwarded().len()
        },
{
    lemma_body_block(p, f, a);
    let n = p.sk.blocks.len();
    assert(f.at(a)@.term == f.at(a).term@);
    if a.0 < n {
        let from = p.sk.blocks[a.0 as int];
        let src = p.ir.at(from).term;
        assert(p.ir.at(from)@.term == src@);
        assert(from != p.sk.latch);
        let ts = f.at(a).term.targets();
        let e = choose|e: int| 0 <= e < ts.len() && ts[e] == b;
        match src {
            Term::Jump(t, args) => {
                assert(src.targets()[0] == t);
                if p.sk.blocks.contains(t) {
                    lemma_place(p, t, t);
                } else {
                    lemma_no_place(p, t);
                }
                let st = p.blocks(a.0 as nat).1;
                assert forall|s: Renaming| (#[trigger] s.names(args@, args@.len())).0.len()
                    == args@.len() by {
                    lemma_names_len(s, args@, args@.len());
                }
            },
            Term::Branch { t, f: no, .. } => {
                assert(src.targets()[0] == t && src.targets()[1] == no);
                if p.sk.blocks.contains(t) {
                    lemma_place(p, t, t);
                } else {
                    lemma_no_place(p, t);
                }
                if p.sk.blocks.contains(no) {
                    lemma_place(p, no, no);
                } else {
                    lemma_no_place(p, no);
                }
            },
            Term::Return(_) => {
                assert(p.ir.at(p.sk.blocks[a.0 as int]).term is Return);
            },
        }
    } else {
        lemma_body_len(p, n);
        assert(p.all_blocks()[n as int].term == TermV::Return(None));
        assert(f.at(a).term.targets().len() == 0);
    }
}

/// Every edge of a body supplies every phi.
proof fn lemma_body_fed(p: BodyParts, f: FuncIr, a: BlockId, b: BlockId, k: int)
    requires
        shaped(p),
        edges_fed(p.ir),
        p.sk.blocks.len() < u32::MAX,
        forall|i: int, j: int|
            0 <= i < j < p.sk.blocks.len() ==> (#[trigger] p.sk.blocks[i]).0 < (
            #[trigger] p.sk.blocks[j]).0,
        p.is_body(f),
        f.edge(a, b),
        f.has_block(b),
        0 <= k < f.at(b).phis@.len(),
    ensures
        edge_arg(f, a, b, k) is Some,
{
    lemma_body_edge(p, f, a, b);
    lemma_body_block(p, f, b);
    let n = p.sk.blocks.len();
    assert(f.at(b)@.phis.len() == f.at(b).phis@.len());
    if b.0 == n {
        assert(p.all_blocks()[n as int].phis.len() == 0) by {
            lemma_body_len(p, n);
        }
    } else {
        let from = p.sk.blocks[a.0 as int];
        let to = p.sk.blocks[b.0 as int];
        assert(p.ir.has_block(from) && p.ir.has_block(to));
        let e = choose|e: int|
            0 <= e < p.ir.at(from).term.targets().len() && p.ir.at(from).term.targets()[e] == to;
        assert(p.ir.at(p.sk.blocks[a.0 as int]).term.targets()[e] == to);
        assert(to != p.sk.header);
        let src = p.ir.at(to).phis@;
        let st = p.blocks(b.0 as nat).1;
        assert(p.ir.at(to)@.phis.len() == src.len());
        lemma_phi_clones(p, st, p.ir.at(to)@.phis, src.len());
        let phis = f.at(b).phis@;
        assert(f.at(b)@.phis == p.phis(st, p.ir.at(to)@.phis, src.len()).0);
        assert(p.ir.edge(from, to));
        assert(edge_arg(p.ir, from, to, k) is Some);
        assert(f.at(b)@.phis[k] == phis[k]@);
        assert(p.ir.at(to)@.phis[k] == src[k]@);
        let args = phis[k].args@;
        lemma_first_where(args, comes_from(a));
        lemma_first_where(src[k].args@, comes_from(from));
        lemma_place(p, from, from);
        assert(p.retarget(from) == a) by {
            let q = (p.place(from)->0).0 as int;
            assert(p.sk.blocks[q] == from);
            if q < a.0 {
                assert(p.sk.blocks[q].0 < p.sk.blocks[a.0 as int].0);
            } else if q > a.0 {
                assert(p.sk.blocks[a.0 as int].0 < p.sk.blocks[q].0);
            }
        }
        match first_where(src[k].args@, comes_from(from)) {
            Some(j) => {
                assert(comes_from(from)(src[k].args@[j]));
                assert(f.at(b)@.phis[k].args[j].0 == p.retarget(src[k].args@[j].0));
                assert(args[j].0 == a);
                assert(comes_from(a)(args[j]));
            },
            None => {
                let var = phis[k].var;
                lemma_first_where(phis, phi_of(var));
                lemma_first_where(src, phi_of(src[k].var));
                assert(var == src[k].var);
                let j = first_where(src, phi_of(var))->0;
                assert(f.at(b)@.phis[j] == phis[j]@);
                assert(p.ir.at(to)@.phis[j] == src[j]@);
                assert(phis[j].var == src[j].var);
                assert(phi_of(var)(phis[j]));
                let i = first_where(phis, phi_of(var))->0;
                assert(i <= j);
            },
        }
    }
}

/// The body of every region of a function that can be lowered can be lowered: its edges
/// supply its phis, and it takes the iteration and the context.
pub proof fn law_bodies_can_be_lowered(ir: FuncIr, header: BlockId, kind: RegionKind, f: FuncIr)
    requires
        lowerable(ir),
        ir.blocks@.len() < u32::MAX,
        ir.has_block(header),
        region_parts(ir, header, kind) is Some,
        (region_parts(ir, header, kind)->0).is_body(f),
    ensures
        body_fits(f),
{
    let p = region_parts(ir, header, kind)->0;
    let n = p.sk.blocks.len();
    lemma_shaped(ir, header, kind);
    lemma_loop_members(ir, header, ir.blocks@.len());
    assert(p.sk.blocks == natural_loop(ir, header));
    assert(p.sk.blocks[0] == header);
    lemma_body_len(p, n);
    assert(block_views(f.blocks@).len() == f.blocks@.len());
    assert(f.blocks@.len() == n + 1);
    assert forall|a: BlockId, k: int|
        f.has_block(a) && 0 <= k < f.at(a).term.targets().len() implies f.has_block(
        #[trigger] f.at(a).term.targets()[k],
    ) by {
        let b = f.at(a).term.targets()[k];
        assert(f.at(a).term.targets().contains(b));
        lemma_body_edge(p, f, a, b);
    }
    assert(f.wf());
    assert forall|a: BlockId, b: BlockId, k: int|
        f.edge(a, b) && 0 <= k < f.at(b).phis@.len() implies #[trigger] edge_arg(
        f,
        a,
        b,
        k,
    ) is Some by {
        lemma_body_edge(p, f, a, b);
        lemma_body_fed(p, f, a, b, k);
    }
    let zero = BlockId(0);
    lemma_body_block(p, f, zero);
    let phis = f.at(zero).phis@;
    assert(f.at(zero)@.phis.len() == phis.len());
    assert(p.sk.blocks[0] == p.sk.header);
    assert(phis.len() == 2);
    assert(f.at(zero)@.phis[0] == phis[0]@ && f.at(zero)@.phis[1] == phis[1]@);
    let st = p.clones().1;
    lemma_types_len(p, st.next, st.pairs, st.pairs.len());
    lemma_bound_pairs(p);
    assert(!(f.phi_type(phis[0]) is Array));
    assert(!(f.phi_type(phis[1]) is Array));
    reveal_with_fuel(params_below, 3);
    assert(params_below(f, 2).len() == 2);
}

/// There is a type for every value of the body.
proof fn lemma_types_len(p: BodyParts, n: nat, pairs: Seq<(ValueId, ValueId)>, k: nat)
    ensures
        p.types(n, pairs, k).len() == n,
    decreases k,
{
    if k > 0 {
        lemma_types_len(p, n, pairs, (k - 1) as nat);
    }
}

/// The iteration and the context are values of the body.
proof fn lemma_bound_pairs(p: BodyParts)
    requires
        p.possible(),
        bound_names_distinct(p),
    ensures
        p.sk.iv_dst.0 < p.clones().1.next,
        p.ctx().0 < p.clones().1.next,
{
    lemma_blocks_grow(p, 0, p.sk.blocks.len());
}

} // verus!
