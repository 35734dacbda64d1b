//! Regions and their loops: what is taken out of a function is a loop that counts by one,
//! and what the host is told to run are the iterations of that loop.
use vstd::prelude::*;

use crate::acts::{acts, enters, subscript, Act, Src, Stage};
use crate::body::BodyParts;
use crate::counting::is_integer;
use crate::cpu::{comes, lemma_comes_on, Reply, Scene};
use crate::clif::Val;
use crate::drives::{at, meets};
use crate::error::Span;
use crate::faithful::{lemma_acts, lemma_insts_lays, lemma_taken_on, past_edge};
use crate::functions::{begun, phi_at};
use crate::graph::{is_header, natural_loop};
use crate::handover::{
    after_arrays, after_scalars, arrays_there, bound_at, law_regions_are_handed_over,
    lemma_dispatch_lays, listens, moved, result_name, scalars_there, with_result,
};
use crate::ir::{BinOp, BlockId, FuncIr, Inst, Term, ValueId};
use crate::lays::{grows, lays, one_result, room};
use crate::lower::{edge_arg, Low, Setting};
use crate::outline::{
    enters as comes_in, from_block, goes_back, merges_into, only_where, quiet, skeleton_of,
};
use crate::parallel::{hook_of, is_region, region_parts, PlannedRegion};
use crate::plan::RegionKind;
use crate::search::{first_where, lemma_first_where};
use crate::transfer::{carries, own_phis};
use crate::twins::single;
use crate::value::Value;

verus! {

/// The value is one more than the phi.
pub open spec fn one_more(ir: FuncIr, v: ValueId, phi: ValueId) -> bool {
    match ir.def_inst(v) {
        Some(Inst::Bin { op: BinOp::Add, a, b, .. }) => {
            ||| (a == phi || a == v) && is_integer(ir, b, 1)
            ||| (b == phi || b == v) && is_integer(ir, a, 1)
        },
        _ => false,
    }
}

/// What is taken out of a function is a loop that counts by one: its header goes on while
/// the induction value, a phi, is less than the end, and else to the exit; the phi takes the
/// start from outside the loop, and one more than itself from the latch, which jumps to the
/// header. The end is a constant, or nothing in the loop defines it.
///
/// The position of the phi and those of its two arguments are returned.
pub proof fn law_regions_count_by_one(ir: FuncIr, header: BlockId, kind: RegionKind) -> (w: (
    int,
    int,
    int,
))
    requires
        region_parts(ir, header, kind) is Some,
    ensures
        ({
            let (q, e, r) = w;
            let sk = (region_parts(ir, header, kind)->0).sk;
            let phi = ir.at(header).phis@[q];
            &&& sk.header == header
            &&& sk.blocks.len() > 0 && sk.blocks[0] == header
            &&& 0 <= q < ir.at(header).phis@.len()
            &&& phi.dst == sk.iv_dst
            &&& phi.args@.len() == 2
            &&& 0 <= e < 2 && r == 1 - e
            &&& phi.args@[e].1 == sk.start
            &&& !sk.blocks.contains(phi.args@[e].0)
            &&& phi.args@[r].0 == sk.latch
            &&& sk.blocks.contains(sk.latch)
            &&& one_more(ir, phi.args@[r].1, phi.dst)
            &&& ir.at(sk.latch).term matches Term::Jump(t, _) && t == header
            &&& ir.at(header).term matches Term::Branch { cond, t, f } && t == sk.body && f
                == sk.exit && sk.blocks.contains(t) && !sk.blocks.contains(f) && (ir.def_inst(
                cond,
            ) matches Some(Inst::Bin { op, a, b, .. }) && op is Lt && a == sk.iv_dst && b == sk.end)
            &&& (exists|x: i64| #[trigger] is_integer(ir, sk.end, x)) || !sk.blocks.contains(
                ir.home(sk.end),
            )
            &&& forall|k: int|
                0 <= k < ir.at(header).insts@.len() ==> quiet(#[trigger] ir.at(header).insts@[k])
        }),
{
    let sk = (region_parts(ir, header, kind)->0).sk;
    let data = ir.at(header);
    let blocks = sk.blocks;
    assert(skeleton_of(ir, header) == Some(sk));
    lemma_first_where(data.preds@, goes_back(header, blocks));
    let lhs = ir.def_inst(data.term->cond)->0->Bin_a;
    lemma_first_where(data.phis@, merges_into(lhs));
    assert(sk.iv_dst == lhs);
    assert(only_where(data.preds@, goes_back(header, blocks)) is Some);
    assert(blocks.contains(sk.latch));
    let q = first_where(data.phis@, merges_into(sk.iv_dst))->0;
    let phi = data.phis@[q];
    lemma_first_where(phi.args@, comes_in(header, blocks));
    let e = first_where(phi.args@, comes_in(header, blocks))->0;
    lemma_first_where(phi.args@, from_block(sk.latch));
    let r = first_where(phi.args@, from_block(sk.latch))->0;
    assert(r != e);
    let back = phi.args@[r].1;
    if let Some(Inst::Bin { op: BinOp::Add, a, b, .. }) = ir.def_inst(back) {
        if ir.literal(b) is Some {
            assert(is_integer(ir, b, ir.literal(b)->0));
        }
        if ir.literal(a) is Some {
            assert(is_integer(ir, a, ir.literal(a)->0));
        }
    }
    if ir.literal(sk.end) is Some {
        assert(is_integer(ir, sk.end, ir.literal(sk.end)->0));
    }
    (q, e, r)
}

/// Values that are defined as integers are those integers.
pub open spec fn constants_hold<H>(ir: FuncIr, st: Src<H>) -> bool {
    forall|v: u32, x: i64|
        st.vals.dom().contains(v) && #[trigger] is_integer(ir, ValueId(v), x) ==> subscript(
            st,
            ValueId(v),
        ) == Some(x)
}

/// The bounds that a region names are the start and the end of its loop: each is the value,
/// or the constant that the value is defined as.
pub proof fn law_regions_name_the_bounds<H>(p: BodyParts, r: PlannedRegion, st: Src<H>)
    requires
        is_region(p, r),
        constants_hold(p.ir, st),
    ensures
        subscript(st, p.sk.start) is Some ==> bound_at(
            st,
            hook_of(r).start_ssa,
            hook_of(r).start_const,
        ) == subscript(st, p.sk.start),
        subscript(st, p.sk.end) is Some ==> bound_at(
            st,
            hook_of(r).end_ssa,
            hook_of(r).end_const,
        ) == subscript(st, p.sk.end),
        forall|x: i64| #[trigger]
            is_integer(p.ir, p.sk.start, x) ==> bound_at(
                st,
                hook_of(r).start_ssa,
                hook_of(r).start_const,
            ) == Some(x),
        (forall|x: i64| !#[trigger] is_integer(p.ir, p.sk.start, x)) ==> bound_at(
            st,
            hook_of(r).start_ssa,
            hook_of(r).start_const,
        ) == subscript(st, p.sk.start),
{
    let (s, e) = (p.sk.start, p.sk.end);
    assert(ValueId(s.0) == s && ValueId(e.0) == e);
    if let Some(x) = p.ir.literal(s) {
        assert(is_integer(p.ir, s, x));
        assert(is_integer(p.ir, ValueId(s.0), x));
    }
    if let Some(x) = p.ir.literal(e) {
        assert(is_integer(p.ir, e, x));
        assert(is_integer(p.ir, ValueId(e.0), x));
    }
}

/// Code that only computes leaves every value that it does not define.
proof fn lemma_keeps<H>(c: Stage<H>, st: Src<H>, code: Seq<Inst>, k: nat, v: u32, span: Span)
    requires
        k <= code.len(),
        forall|j: int|
            0 <= j < k ==> quiet(#[trigger] code[j]) && code[j].def() != Some(ValueId(v)),
    ensures
        acts(c, st, code, k, span) matches Act::Done(now) ==> now.vals.dom().contains(v)
            == st.vals.dom().contains(v) && now.vals[v] == st.vals[v] && now.scene == st.scene,
    decreases k,
{
    if k > 0 {
        lemma_keeps(c, st, code, (k - 1) as nat, v, span);
        assert(quiet(code[k - 1]));
        if let Some(d) = code[k - 1].def() {
            assert(ValueId(d.0) == d);
        }
    }
}

/// The value that the induction value begins with is the start of the loop.
proof fn lemma_begins_at_the_start<H>(
    c: Stage<H>,
    header: BlockId,
    kind: RegionKind,
    a: BlockId,
    out: Src<H>,
    st: Src<H>,
    span: Span,
    r: PlannedRegion,
)
    requires
        c.ir.wf(),
        c.ir.has_block(header),
        single(c.ir),
        own_phis(c.ir, header.0 as usize),
        region_parts(c.ir, header, kind) is Some,
        is_region(region_parts(c.ir, header, kind)->0, r),
        !(region_parts(c.ir, header, kind)->0).sk.blocks.contains(a),
        exists|q: int, j: int|
            0 <= q < c.ir.at(header).phis@.len() && c.ir.at(header).phis@[q].dst == (region_parts(
                c.ir,
                header,
                kind,
            )->0).sk.iv_dst && 0 <= j < 2 && (#[trigger] c.ir.at(header).phis@[q].args@[j]).0 == a,
        acts(
            c,
            enters(c, a, header, out),
            c.ir.at(header).insts@,
            c.ir.at(header).insts@.len(),
            span,
        ) == Act::Done(st),
        constants_hold(c.ir, out),
        constants_hold(c.ir, st),
        ({
            let sk = (region_parts(c.ir, header, kind)->0).sk;
            &&& subscript(st, sk.iv_dst) is Some
            &&& (exists|x: i64| #[trigger] is_integer(c.ir, sk.start, x)) || (
            !sk.blocks.contains(c.ir.home(sk.start)) && st.vals.dom().contains(sk.start.0))
        }),
    ensures
        bound_at(st, hook_of(r).start_ssa, hook_of(r).start_const) == subscript(
            st,
            (region_parts(c.ir, header, kind)->0).sk.iv_dst,
        ),
{
    let ir = c.ir;
    let p = region_parts(ir, header, kind)->0;
    let sk = p.sk;
    let phis = ir.at(header).phis@;
    let insts = ir.at(header).insts@;
    let n = phis.len();
    let first = enters(c, a, header, out);
    let kept = out.vals.restrict((c.live)(header));
    let (q, e, back) = law_regions_count_by_one(ir, header, kind);
    let phi = phis[q];
    let iv = sk.iv_dst;
    law_regions_name_the_bounds(p, r, st);
    assert(sk.blocks.contains(header)) by {
        assert(sk.blocks[0] == header);
    }
    let (q2, j2) = choose|q2: int, j2: int|
        0 <= q2 < phis.len() && ir.at(header).phis@[q2].dst == iv && 0 <= j2 < 2 && (#[trigger] ir.at(
            header,
        ).phis@[q2].args@[j2]).0 == a;
    assert(q2 == q) by {
        if q2 < q {
            assert(phis[q2].dst.0 != phis[q].dst.0);
        } else if q < q2 {
            assert(phis[q].dst.0 != phis[q2].dst.0);
        }
    }
    assert(j2 == e);
    lemma_first_where(phi.args@, crate::lower::comes_from(a));
    assert(crate::lower::comes_from(a)(phi.args@[j2]));
    assert(edge_arg(ir, a, header, q) == Some(sk.start)) by {
        let k = first_where(phi.args@, crate::lower::comes_from(a))->0;
        assert(k == e);
    }
    assert forall|j: int|
        0 <= j < insts.len() implies quiet(#[trigger] insts[j]) && insts[j].def() != Some(
        ValueId(iv.0),
    ) by {
        assert(quiet(ir.at(header).insts@[j]));
        if insts[j].def() == Some(ValueId(iv.0)) {
            assert(ValueId(iv.0) == iv);
            assert(ir.at(header).insts@[j].def() == Some(iv));
            assert(ir.def_inst(iv) is Some);
            assert(ir.def_inst(ir.at(header).phis@[q].dst) is None);
        }
    }
    lemma_keeps(c, first, insts, insts.len(), iv.0, span);
    lemma_taken_on(ir, a, header, out.vals, kept, n, iv.0);
    assert(phi_at(ir, header.0 as int, q, iv.0));
    assert(first.vals.dom().contains(iv.0));
    assert(out.vals.dom().contains(sk.start.0) && first.vals[iv.0] == out.vals[sk.start.0]);
    assert(subscript(st, iv) == subscript(out, sk.start));
    if exists|x: i64| #[trigger] is_integer(ir, sk.start, x) {
        let x = choose|x: i64| #[trigger] is_integer(ir, sk.start, x);
        assert(ValueId(sk.start.0) == sk.start);
        assert(is_integer(ir, ValueId(sk.start.0), x));
    } else {
        let v = sk.start;
        assert(ValueId(v.0) == v);
        assert forall|j: int|
            0 <= j < insts.len() implies quiet(#[trigger] insts[j]) && insts[j].def() != Some(
            ValueId(v.0),
        ) by {
            assert(quiet(ir.at(header).insts@[j]));
            if insts[j].def() == Some(v) {
                assert(ir.at(header).insts@[j].def() == Some(v));
                assert(ir.home(v) == header);
            }
        }
        lemma_keeps(c, first, insts, insts.len(), v.0, span);
        lemma_taken_on(ir, a, header, out.vals, kept, n, v.0);
        assert forall|j: int| 0 <= j < n implies !#[trigger] phi_at(
            ir,
            header.0 as int,
            j,
            v.0,
        ) by {
            if phi_at(ir, header.0 as int, j, v.0) {
                assert(ir.at(header).phis@[j].dst == v);
                assert(ir.home(ir.at(header).phis@[j].dst) == header);
            }
        }
        assert(kept.dom().contains(v.0));
        assert(st.vals[v.0] == out.vals[v.0]);
    }
}

/// The block of a region's header is its instructions and the handing over.
#[verifier::rlimit(40)]
proof fn lemma_header_block(l: Low, st: Setting, r: PlannedRegion)
    requires
        st.self_uses.len() == 0,
        st.hook == Some(hook_of(r)),
    ensures
        ({
            let b = r.header.0 as usize;
            let s = begun(l, b);
            let data = l.ir.blocks@[b as int];
            l.block(st, b) == (match s.insts(data.insts@, data.insts@.len()) {
                Ok(t) => t.dispatch(hook_of(r)),
                Err(m) => Err(m),
            })
        }),
{
    reveal(Low::block);
    let b = r.header.0 as usize;
    assert(BlockId(b as u32) == r.header);
    let s0 = if BlockId(b as u32) == l.ir.entry {
        l
    } else {
        l.at(b)
    };
    assert(st.self_uses =~= Seq::empty());
    assert(s0.open_repairs(st.self_uses, b, 0) == s0);
    assert(!crate::lower::orphaned(l.ir, st.hook, r.header));
    let h = hook_of(r);
    assert(h.header == r.header);
    assert(l.block(st, b) == begun(l, b).filled(st.self_uses, st.hook, b));
    crate::functions::lemma_bound(l.at(b), b, l.ir.blocks@[b as int].phis@.len());
    assert(begun(l, b).ir == l.ir);
}

/// A region is run through the iterations of its loop.
///
/// Control comes to the header of the loop from outside, and the instructions of the header
/// compute what they compute. Then the machine code of the header tells the host what the
/// body captures, and has it run the region from the value that the induction value of the
/// loop has now, which is that of its first iteration, up to the value that the header
/// compares it with. With what the host leaves the run goes on behind the loop; the
/// accumulator of a reduction is what the host gives for it.
#[verifier::rlimit(30)]
pub proof fn law_regions_run_the_iterations_of_their_loops<H>(
    c: Stage<H>,
    fin: Low,
    l: Low,
    set: Setting,
    header: BlockId,
    kind: RegionKind,
    r: PlannedRegion,
    a: BlockId,
    env: Map<usize, Value>,
    out: Src<H>,
    st: Src<H>,
    span: Span,
    handle: Value,
    sc: Scene<H>,
) -> (w: (Map<usize, Value>, Seq<Val>))
    requires
        c.ir.wf(),
        c.ir.has_block(header),
        single(c.ir),
        own_phis(c.ir, header.0 as usize),
        region_parts(c.ir, header, kind) is Some,
        is_region(region_parts(c.ir, header, kind)->0, r),
        set.self_uses.len() == 0,
        set.hook == Some(hook_of(r)),
        l.ir == c.ir,
        l.block(set, header.0 as usize) is Ok,
        grows(l.block(set, header.0 as usize)->Ok_0, fin),
        meets(c, begun(l, header.0 as usize), env, enters(c, a, header, out)),
        one_result(l),
        listens(c),
        room(
            begun(l, header.0 as usize),
            1024 + 24 * c.ir.at(header).insts@.len() as int + (4 * r.layout.scalars@.len() + 4
                * r.layout.arrays@.len() + c.ir.at(r.exit).phis@.len()) as int,
        ),
        !(region_parts(c.ir, header, kind)->0).sk.blocks.contains(a),
        exists|q: int, j: int|
            0 <= q < c.ir.at(header).phis@.len() && c.ir.at(header).phis@[q].dst == (region_parts(
                c.ir,
                header,
                kind,
            )->0).sk.iv_dst && 0 <= j < 2 && (#[trigger] c.ir.at(header).phis@[q].args@[j]).0 == a,
        acts(
            c,
            enters(c, a, header, out),
            c.ir.at(header).insts@,
            c.ir.at(header).insts@.len(),
            span,
        ) == Act::Done(st),
        constants_hold(c.ir, out),
        constants_hold(c.ir, st),
        ({
            let p = region_parts(c.ir, header, kind)->0;
            let sk = p.sk;
            &&& subscript(st, sk.iv_dst) is Some
            &&& subscript(st, sk.end) is Some
            &&& (exists|x: i64| #[trigger] is_integer(c.ir, sk.start, x)) || (
            !sk.blocks.contains(c.ir.home(sk.start)) && st.vals.dom().contains(sk.start.0))
            &&& scalars_there(st, p.scalars)
            &&& arrays_there(c, st, p.arrays)
            &&& after_scalars(c.machine, st, p.scalars, p.scalars.len()) is Some
            &&& ({
                let sc0 = after_scalars(c.machine, st, p.scalars, p.scalars.len())->0;
                &&& after_arrays(c, moved(st, sc0), p.arrays, p.arrays.len()) is Some
                &&& (c.machine.host)(
                    "helix_dispatch"@,
                    seq![
                        Value::I64(subscript(st, sk.iv_dst)->0),
                        Value::I64(subscript(st, sk.end)->0),
                        Value::I64(r.region_id),
                        Value::I64(8),
                    ],
                    after_arrays(c, moved(st, sc0), p.arrays, p.arrays.len())->0,
                ) == Reply::Gives(seq![handle], sc)
            })
        }),
        with_result(c, moved(st, sc), hook_of(r), handle) is Some,
    ensures
        ({
            let (e, args) = w;
            let p = region_parts(c.ir, header, kind)->0;
            let now = with_result(c, moved(st, sc), hook_of(r), handle)->0;
            &&& comes(
                c.machine,
                fin,
                at(begun(l, header.0 as usize), env, out.scene),
                past_edge(fin, p.sk.exit, args, e, now.scene),
            )
            &&& carries(c.ir, header, p.sk.exit, args, e, now.vals)
            &&& p.acc is None ==> now == moved(st, sc)
            &&& p.acc matches Some(acc) ==> now.vals.dom().contains(acc.dst.0) && (c.machine.host)(
                result_name(acc.spec.width, acc.spec.float),
                seq![handle],
                sc,
            ) == Reply::Gives(seq![now.vals[acc.dst.0]], now.scene)
        }),
{
    let m = c.machine;
    let p = region_parts(c.ir, header, kind)->0;
    let h = hook_of(r);
    let b = header.0 as usize;
    let insts = c.ir.at(header).insts@;
    let first = enters(c, a, header, out);
    let s = begun(l, b);
    let data = l.ir.blocks@[b as int];
    let (q, x, y) = law_regions_count_by_one(c.ir, header, kind);
    lemma_header_block(l, set, r);
    assert(data.insts@ == insts);
    assert(s.ir == c.ir && s.callees == c.callees);
    assert(one_result(s)) by {
        assert(l.callees == s.callees) by {
            crate::functions::lemma_bound(l.at(b), b, data.phis@.len());
        }
    }
    let t = s.insts(insts, insts.len())->Ok_0;
    lemma_insts_lays(s, insts, insts.len(), Set::empty());
    assert(t.dispatch(h) == l.block(set, b));
    assert(grows(t.dispatch(h)->Ok_0, fin));
    lemma_dispatch_lays(t, h);
    crate::lays::lemma_grows_on(t, t.dispatch(h)->Ok_0, fin);
    let e1 = lemma_acts(c, fin, s, env, first, insts, insts.len(), span);
    lemma_begins_at_the_start(c, header, kind, a, out, st, span, r);
    law_regions_name_the_bounds(p, r, st);
    assert(one_result(t));
    let w = law_regions_are_handed_over(c, fin, t, h, e1, st, handle, sc);
    let now = with_result(c, moved(st, sc), h, handle)->0;
    lemma_comes_on(
        m,
        fin,
        at(s, env, first.scene),
        at(t, e1, st.scene),
        past_edge(fin, h.exit, w.1, w.0, now.scene),
    );
    if let Some(acc) = p.acc {
        let rs = (m.host)(
            result_name(acc.spec.width, acc.spec.float),
            seq![handle],
            sc,
        )->Gives_0;
        assert(rs =~= seq![now.vals[acc.dst.0]]);
    }
    w
}

/// The value is the same in every iteration: it is an integer constant, or no block of the
/// loop defines it.
pub open spec fn unchanging(ir: FuncIr, blocks: Seq<BlockId>, v: ValueId) -> bool {
    (exists|x: i64| #[trigger] is_integer(ir, v, x)) || !blocks.contains(ir.home(v))
}

/// The loop of the header has the shape of a region: its header alone leaves it, no block
/// returns, one block `latch` goes back to the header, by a jump; the header only computes,
/// and goes on while the phi `q` is less than `end`; and the phi takes a value from outside
/// the loop and one more than itself from the latch.
pub open spec fn region_shaped(
    ir: FuncIr,
    header: BlockId,
    latch: BlockId,
    q: int,
    end: ValueId,
) -> bool {
    let blocks = natural_loop(ir, header);
    let data = ir.at(header);
    let phi = data.phis@[q];
    &&& is_header(ir, header)
    &&& blocks.len() > 0 && blocks[0] == header
    &&& forall|i: int| 0 <= i < blocks.len() ==> !(ir.at(#[trigger] blocks[i]).term is Return)
    &&& forall|i: int, k: int|
        0 <= i < blocks.len() && blocks[i] != header && 0 <= k < ir.at(
            blocks[i],
        ).term.targets().len() ==> blocks.contains(
            #[trigger] ir.at(#[trigger] blocks[i]).term.targets()[k],
        )
    &&& exists|l: int|
        #![trigger data.preds@[l]]
        0 <= l < data.preds@.len() && data.preds@[l] == latch && forall|j: int|
            0 <= j < data.preds@.len() && j != l ==> (#[trigger] data.preds@[j]) == header
                || !blocks.contains(data.preds@[j])
    &&& latch != header && blocks.contains(latch)
    &&& ir.at(latch).term matches Term::Jump(t, _) && t == header
    &&& forall|i: int, k: int|
        0 <= i < blocks.len() && blocks[i] != latch && 0 <= k < ir.at(
            blocks[i],
        ).term.targets().len() ==> (#[trigger] ir.at(#[trigger] blocks[i]).term.targets()[k])
            != header
    &&& data.term matches Term::Branch { cond, t, f } && blocks.contains(t) && !blocks.contains(f)
        && data.inst_defines(cond) && (ir.def_inst(cond) matches Some(
        Inst::Bin { op: BinOp::Lt, a, b, .. },
    ) && a == phi.dst && b == end)
    &&& forall|k: int| 0 <= k < data.insts@.len() ==> quiet(#[trigger] data.insts@[k])
    &&& 0 <= q < data.phis@.len()
    &&& phi.args@.len() == 2
    &&& forall|j: int|
        0 <= j < data.phis@.len() && j != q ==> (#[trigger] data.phis@[j]).dst != phi.dst
    &&& forall|j: int| 0 <= j < data.phis@.len() ==> (#[trigger] data.phis@[j]).dst != end
    &&& exists|e: int|
        #![trigger phi.args@[e]]
        0 <= e < 2 && !blocks.contains(phi.args@[e].0) && phi.args@[1 - e].0 == latch && one_more(
            ir,
            phi.args@[1 - e].1,
            phi.dst,
        ) && blocks.contains(ir.home(phi.args@[1 - e].1))
    &&& unchanging(ir, blocks, end)
}

/// Every loop that has the shape of a region is seen to have it, with its start, its end, its
/// exit and its latch.
#[verifier::rlimit(30)]
pub proof fn law_shaped_loops_have_skeletons(
    ir: FuncIr,
    header: BlockId,
    latch: BlockId,
    q: int,
    end: ValueId,
)
    requires
        region_shaped(ir, header, latch, q, end),
    ensures
        skeleton_of(ir, header) matches Some(sk) && sk.header == header && sk.latch == latch
            && sk.blocks == natural_loop(ir, header) && sk.iv_dst == ir.at(header).phis@[q].dst
            && sk.iv_var == ir.at(header).phis@[q].var && sk.end == end && (ir.at(
            header,
        ).term matches Term::Branch { t, f, .. } && sk.body == t && sk.exit == f),
{
    let blocks = natural_loop(ir, header);
    let data = ir.at(header);
    let phi = data.phis@[q];
    let l = choose|l: int|
        #![trigger data.preds@[l]]
        0 <= l < data.preds@.len() && data.preds@[l] == latch && forall|j: int|
            0 <= j < data.preds@.len() && j != l ==> (#[trigger] data.preds@[j]) == header
                || !blocks.contains(data.preds@[j]);
    crate::search::lemma_first_where_is(data.preds@, goes_back(header, blocks), l);
    assert(only_where(data.preds@, goes_back(header, blocks)) == Some(l)) by {
        assert(!exists|j: int|
            l < j < data.preds@.len() && goes_back(header, blocks)(#[trigger] data.preds@[j]));
    }
    crate::search::lemma_first_where_is(data.phis@, merges_into(phi.dst), q);
    crate::search::lemma_first_where_none(data.phis@, merges_into(end));
    let e = choose|e: int|
        #![trigger phi.args@[e]]
        0 <= e < 2 && !blocks.contains(phi.args@[e].0) && phi.args@[1 - e].0 == latch && one_more(
            ir,
            phi.args@[1 - e].1,
            phi.dst,
        ) && blocks.contains(ir.home(phi.args@[1 - e].1));
    assert(blocks.contains(header));
    assert(comes_in(header, blocks)(phi.args@[e]));
    lemma_first_where(phi.args@, comes_in(header, blocks));
    let back = phi.args@[1 - e].1;
    assert(from_block(latch)(phi.args@[1 - e]));
    lemma_first_where(phi.args@, from_block(latch));
    let r = first_where(phi.args@, from_block(latch))->0;
    assert(r == 1 - e);
    if let Some(Inst::Bin { op: BinOp::Add, a, b, .. }) = ir.def_inst(back) {
        assert(is_integer(ir, b, 1) ==> ir.literal(b) == Some(1i64));
        assert(is_integer(ir, a, 1) ==> ir.literal(a) == Some(1i64));
    }
    assert(crate::canon::latch_step(ir, phi, back) == Some(1i64));
    if exists|x: i64| #[trigger] is_integer(ir, end, x) {
        let x = choose|x: i64| #[trigger] is_integer(ir, end, x);
        assert(ir.literal(end) == Some(x));
    }
    assert(crate::outline::steady(ir, blocks, end));
    assert(crate::outline::counts_up(ir, blocks, latch, phi));
    assert(crate::outline::turns(ir, header, blocks, latch));
    assert(crate::outline::only_tests(data, data.term->cond));
    assert(crate::outline::never_returns(ir, blocks));
    assert(crate::outline::stays_inside(ir, header, blocks));
}

/// The accumulator of a region is what its loop accumulates in: the phi takes `entry` from
/// outside the loop and `back` from the latch, the chain of `back` has the operator of the
/// region, and width and kind are those of the variable.
pub proof fn law_accumulators_are_those_of_the_loop(ir: FuncIr, header: BlockId, kind: RegionKind) -> (
    w: (int, int))
    requires
        region_parts(ir, header, kind) is Some,
        (region_parts(ir, header, kind)->0).acc is Some,
    ensures
        ({
            let (q, e) = w;
            let p = region_parts(ir, header, kind)->0;
            let a = p.acc->0;
            let phi = ir.at(header).phis@[q];
            &&& 0 <= q < ir.at(header).phis@.len()
            &&& phi.dst == a.dst && phi.dst != p.sk.iv_dst
            &&& phi.var == a.var
            &&& phi.args@.len() == 2
            &&& 0 <= e < 2
            &&& phi.args@[e].1 == a.entry && !p.sk.blocks.contains(phi.args@[e].0)
            &&& phi.args@[1 - e].1 == a.back && phi.args@[1 - e].0 == p.sk.latch
            &&& kind == RegionKind::Reduction(a.spec.op)
            &&& crate::reduce::chain_op(
                ir,
                crate::reduce::Accumulator { phi: a.dst, chain: a.back },
            ) == Some(a.spec.op)
            &&& match ir.types.local_type(a.var) {
                Some(crate::ir::Ty::I64) => a.spec.width == 8 && !a.spec.float,
                Some(crate::ir::Ty::I32) => a.spec.width == 4 && !a.spec.float,
                Some(crate::ir::Ty::F64) => a.spec.width == 8 && a.spec.float,
                Some(crate::ir::Ty::F32) => a.spec.width == 4 && a.spec.float,
                _ => false,
            }
            &&& forall|j: int|
                0 <= j < ir.at(header).phis@.len() && j != q && (#[trigger] ir.at(
                    header,
                ).phis@[j]).args@.len() == 2 ==> ir.at(header).phis@[j].dst == p.sk.iv_dst
        }),
{
    let p = region_parts(ir, header, kind)->0;
    let sk = p.sk;
    let a = p.acc->0;
    let phis = ir.at(header).phis@;
    let other = crate::outline::merges_other(sk.iv_dst);
    let (x, y, z) = law_regions_count_by_one(ir, header, kind);
    lemma_first_where(phis, other);
    let q = only_where(phis, other)->0;
    let phi = phis[q];
    lemma_first_where(phi.args@, comes_in(header, sk.blocks));
    lemma_first_where(phi.args@, crate::outline::returns_from(sk.blocks));
    let e = first_where(phi.args@, comes_in(header, sk.blocks))->0;
    let r = first_where(phi.args@, crate::outline::returns_from(sk.blocks))->0;
    assert(r != e);
    assert forall|j: int|
        0 <= j < phis.len() && j != q && (#[trigger] ir.at(header).phis@[j]).args@.len()
            == 2 implies ir.at(header).phis@[j].dst == sk.iv_dst by {
        assert(phis[j] == ir.at(header).phis@[j]);
        if j < q {
            assert(!other(phis[j]));
        } else {
            assert(!other(phis[j]));
        }
    }
    (q, e)
}

/// The first value of the accumulator is found where the value that enters it was stashed:
/// in the word of that value's offset, with its width and kind.
pub proof fn law_seeds_are_where_they_were_stashed(p: BodyParts, r: PlannedRegion, k: int)
    requires
        is_region(p, r),
        p.acc is Some,
        0 <= k < p.scalars.len(),
        p.scalars[k].0 == p.acc->0.entry.0,
        forall|j: int| 0 <= j < k ==> (#[trigger] p.scalars[j]).0 != p.acc->0.entry.0,
    ensures
        r.seed == Some(((p.scalars[k].3 / 8) as usize, p.scalars[k].1, p.scalars[k].2)),
{
    crate::search::lemma_first_where_is(
        p.scalars,
        crate::parallel::is_scalar(p.acc->0.entry),
        k,
    );
}

} // verus!
