//! What the body of a loop does: one call of it does what one iteration of the loop does.
//!
//! What values are, what memory is and what instructions compute is left open: a
//! [`Meaning`] says it, and the law holds for every one of them. All that is fixed is how
//! control flows, that a value is what was computed for it last, and what the imports of
//! a body read and write: the context, and the cell of the participant.
use vstd::prelude::*;

use crate::body::{
    acc_load_symbol, acc_store_symbol, bound_names_distinct, distinct_names, fresh, import,
    is_block, lemma_body_len, lemma_clone_at, lemma_kept_arrays, lemma_kept_scalars, lemma_names_are_distinct, load_symbol,
    offset_const, BodyParts,
};
use crate::ctx::calls_allowed;
use crate::graph::{in_loop, lemma_loop_members, natural_loop};
use crate::ir::{
    defines, BlockId, BlockV, Constant, FuncIr, InstV, Load, LocalId, PhiV, Term, TermV, ValueId,
};
use crate::names::{inst_below, lemma_bound_names, lemma_mentions_below, phi_below};
use crate::outline::{accumulator_of, goes_back, merges_other, only_where, returns_from, skeleton_of};
use crate::parallel::region_parts;
use crate::plan::RegionKind;
use crate::rename::{lookup, Renaming};
use crate::search::{first_where, lemma_first_where};

verus! {

/// What instructions compute. `A` are the values, `W` is memory.
#[verifier::reject_recursive_types(A)]
#[verifier::reject_recursive_types(W)]
pub struct Meaning<A, W> {
    /// What a value is before anything was computed for it.
    pub unset: A,
    pub literal: spec_fn(Constant) -> A,
    /// A condition holds.
    pub holds: spec_fn(A) -> bool,
    /// What an import finds in a context at an offset.
    pub captured: spec_fn(Seq<char>, A, A) -> A,
    /// What an instruction makes of its operands and of memory; `None` where the program
    /// ends with an error. The instruction comes without the numbers of its values.
    pub work: spec_fn(InstV, Seq<A>, W) -> Option<(A, W)>,
}

/// What was computed so far.
#[verifier::reject_recursive_types(A)]
#[verifier::reject_recursive_types(W)]
pub struct State<A, W> {
    pub vals: Map<ValueId, A>,
    pub mem: W,
    /// The accumulator of the participant.
    pub cell: A,
}

/// What a value is.
pub open spec fn get<A, W>(m: Meaning<A, W>, s: State<A, W>, v: ValueId) -> A {
    if s.vals.dom().contains(v) {
        s.vals[v]
    } else {
        m.unset
    }
}

/// What an instruction reads, in operand order.
pub open spec fn reads(i: InstV) -> Seq<ValueId> {
    match i {
        InstV::Const { .. } => seq![],
        InstV::Bin { a, b, .. } => seq![a, b],
        InstV::Unary { a, .. } => seq![a],
        InstV::Cast { val, .. } => seq![val],
        InstV::Load(l) => seq![l.idx],
        InstV::Store { idx, val, .. } => seq![idx, val],
        InstV::Call { args, .. } => args,
    }
}

/// What an instruction defines.
pub open spec fn writes(i: InstV) -> Option<ValueId> {
    match i {
        InstV::Const { dst, .. } => Some(dst),
        InstV::Bin { dst, .. } => Some(dst),
        InstV::Unary { dst, .. } => Some(dst),
        InstV::Cast { dst, .. } => Some(dst),
        InstV::Load(l) => Some(l.dst),
        InstV::Store { .. } => None,
        InstV::Call { dst, .. } => dst,
    }
}

/// An instruction without the numbers of its values.
pub open spec fn shape(i: InstV) -> InstV {
    let z = ValueId(0);
    match i {
        InstV::Const { c, .. } => InstV::Const { dst: z, c },
        InstV::Bin { op, .. } => InstV::Bin { op, dst: z, a: z, b: z },
        InstV::Unary { op, .. } => InstV::Unary { op, dst: z, a: z },
        InstV::Cast { to, .. } => InstV::Cast { dst: z, val: z, to },
        InstV::Load(l) => InstV::Load(Load { dst: z, arr: l.arr, idx: z }),
        InstV::Store { arr, .. } => InstV::Store { arr, idx: z, val: z },
        InstV::Call { dst, callee, args, arr_refs } => InstV::Call {
            dst: match dst {
                Some(_) => Some(z),
                None => None,
            },
            callee,
            args: Seq::new(args.len(), |k: int| z),
            arr_refs,
        },
    }
}

/// The import reads the context.
pub open spec fn reads_context(callee: Seq<char>) -> bool {
    ||| callee == "helix_ld_i64"@
    ||| callee == "helix_ld_i32"@
    ||| callee == "helix_ld_f64"@
    ||| callee == "helix_ld_f32"@
}

/// The import reads the cell.
pub open spec fn reads_cell(callee: Seq<char>) -> bool {
    ||| callee == "helix_acc_load_i64"@
    ||| callee == "helix_acc_load_i32"@
    ||| callee == "helix_acc_load_f64"@
    ||| callee == "helix_acc_load_f32"@
}

/// The import writes the cell.
pub open spec fn writes_cell(callee: Seq<char>) -> bool {
    ||| callee == "helix_acc_store_i64"@
    ||| callee == "helix_acc_store_i32"@
    ||| callee == "helix_acc_store_f64"@
    ||| callee == "helix_acc_store_f32"@
}

/// The instruction calls none of these imports.
pub open spec fn plain(i: InstV) -> bool {
    i matches InstV::Call { callee, .. } ==> !reads_context(callee) && !reads_cell(callee)
        && !writes_cell(callee)
}

/// The state with a value computed.
pub open spec fn set<A, W>(s: State<A, W>, d: Option<ValueId>, x: A) -> State<A, W> {
    match d {
        Some(v) => State { vals: s.vals.insert(v, x), mem: s.mem, cell: s.cell },
        None => s,
    }
}

/// What the operands of an instruction are.
pub open spec fn operands<A, W>(m: Meaning<A, W>, s: State<A, W>, i: InstV) -> Seq<A> {
    reads(i).map_values(|v: ValueId| get(m, s, v))
}

/// What an ordinary instruction does.
pub open spec fn worked<A, W>(m: Meaning<A, W>, i: InstV, s: State<A, W>) -> Option<State<A, W>> {
    match i {
        InstV::Const { dst, c } => Some(set(s, Some(dst), (m.literal)(c))),
        _ => match (m.work)(shape(i), operands(m, s, i), s.mem) {
            Some((x, mem)) => Some(
                set(State { vals: s.vals, mem, cell: s.cell }, writes(i), x),
            ),
            None => None,
        },
    }
}

/// What an instruction does; `None` where the program ends with an error.
pub open spec fn step<A, W>(m: Meaning<A, W>, i: InstV, s: State<A, W>) -> Option<State<A, W>> {
    match i {
        InstV::Call { dst, callee, args, .. } => if reads_context(callee) {
            Some(set(s, dst, (m.captured)(callee, get(m, s, args[0]), get(m, s, args[1]))))
        } else if reads_cell(callee) {
            Some(set(s, dst, s.cell))
        } else if writes_cell(callee) {
            Some(State { vals: s.vals, mem: s.mem, cell: get(m, s, args[1]) })
        } else {
            worked(m, i, s)
        },
        _ => worked(m, i, s),
    }
}

/// What the first `k` instructions do, one after another.
pub open spec fn run<A, W>(m: Meaning<A, W>, code: Seq<InstV>, k: nat, s: State<A, W>) -> Option<
    State<A, W>,
>
    decreases k,
{
    if k == 0 {
        Some(s)
    } else {
        match run(m, code, (k - 1) as nat, s) {
            Some(t) => step(m, code[k - 1], t),
            None => None,
        }
    }
}

/// Where control goes; `None` where the function returns.
pub open spec fn next<A, W>(m: Meaning<A, W>, term: TermV, s: State<A, W>) -> Option<BlockId> {
    match term {
        TermV::Jump(t, _) => Some(t),
        TermV::Branch { cond, t, f } => Some(
            if (m.holds)(get(m, s, cond)) {
                t
            } else {
                f
            },
        ),
        TermV::Return(_) => None,
    }
}

/// What a phi takes from a block: the first of its first `k` arguments that comes from it.
pub open spec fn taken(args: Seq<(BlockId, ValueId)>, from: BlockId, k: nat) -> Option<ValueId>
    decreases k,
{
    if k == 0 {
        None
    } else {
        match taken(args, from, (k - 1) as nat) {
            Some(v) => Some(v),
            None => if args[k - 1].0 == from {
                Some(args[k - 1].1)
            } else {
                None
            },
        }
    }
}

/// The values after the first `k` phis of a block took theirs, all at once.
pub open spec fn merged<A, W>(
    m: Meaning<A, W>,
    phis: Seq<PhiV>,
    from: BlockId,
    s: State<A, W>,
    k: nat,
) -> Map<ValueId, A>
    decreases k,
{
    if k == 0 {
        s.vals
    } else {
        let before = merged(m, phis, from, s, (k - 1) as nat);
        match taken(phis[k - 1].args, from, phis[k - 1].args.len()) {
            Some(v) => before.insert(phis[k - 1].dst, get(m, s, v)),
            None => before,
        }
    }
}

/// The state at the first instruction of a block that is entered from another one.
pub open spec fn entered<A, W>(
    m: Meaning<A, W>,
    phis: Seq<PhiV>,
    from: BlockId,
    s: State<A, W>,
) -> State<A, W> {
    State { vals: merged(m, phis, from, s, phis.len()), mem: s.mem, cell: s.cell }
}

/// How an iteration ends.
#[verifier::reject_recursive_types(A)]
#[verifier::reject_recursive_types(W)]
pub enum Ended<A, W> {
    /// With an error.
    Halted,
    /// Not within so many blocks.
    Cut,
    /// At the header again.
    Back(State<A, W>),
    /// Outside the loop.
    Left(State<A, W>),
}

/// What an iteration of the loop does from the first instruction of block `b` on, within
/// `n` blocks.
pub open spec fn iterate<A, W>(
    m: Meaning<A, W>,
    p: BodyParts,
    b: BlockId,
    s: State<A, W>,
    n: nat,
) -> Ended<A, W>
    decreases n,
{
    if n == 0 {
        Ended::Cut
    } else {
        let data = p.ir.at(b)@;
        match run(m, data.insts, data.insts.len(), s) {
            None => Ended::Halted,
            Some(t) => match next(m, data.term, t) {
                None => Ended::Left(t),
                Some(to) => if to == p.sk.header {
                    Ended::Back(t)
                } else if p.sk.blocks.contains(to) {
                    iterate(m, p, to, entered(m, p.ir.at(to)@.phis, b, t), (n - 1) as nat)
                } else {
                    Ended::Left(t)
                },
            },
        }
    }
}

/// How a call ends.
#[verifier::reject_recursive_types(A)]
#[verifier::reject_recursive_types(W)]
pub enum Returned<A, W> {
    /// With an error.
    Halted,
    /// Not within so many blocks.
    Cut,
    Done(State<A, W>),
}

/// What a function does from the first instruction of block `b` on, within `n` blocks.
pub open spec fn call<A, W>(
    m: Meaning<A, W>,
    blocks: Seq<BlockV>,
    b: BlockId,
    s: State<A, W>,
    n: nat,
) -> Returned<A, W>
    decreases n,
{
    if n == 0 {
        Returned::Cut
    } else {
        let data = blocks[b.0 as int];
        match run(m, data.insts, data.insts.len(), s) {
            None => Returned::Halted,
            Some(t) => match next(m, data.term, t) {
                None => Returned::Done(t),
                Some(to) => call(
                    m,
                    blocks,
                    to,
                    entered(m, blocks[to.0 as int].phis, b, t),
                    (n - 1) as nat,
                ),
            },
        }
    }
}

/// The loop goes back to its header by the jump of its latch, and nowhere else; a chain
/// that counts as computed elsewhere is not computed in the latch.
spec fn goes_round(p: BodyParts) -> bool {
    &&& p.sk.latch != p.sk.header
    &&& p.ir.at(p.sk.latch).term matches Term::Jump(t, _) && t == p.sk.header
    &&& forall|i: int, k: int|
        0 <= i < p.sk.blocks.len() && p.sk.blocks[i] != p.sk.latch && 0 <= k < p.ir.at(
            p.sk.blocks[i],
        ).term.targets().len() ==> (#[trigger] p.ir.at(#[trigger] p.sk.blocks[i]).term.targets()[k])
            != p.sk.header
    &&& p.acc matches Some(a) ==> a.in_latch || (forall|k: int|
        0 <= k < p.ir.at(p.sk.latch).insts@.len() ==> (#[trigger] p.ir.at(
            p.sk.latch,
        ).insts@[k]).def() != Some(a.back))
}

/// The body has the value from the start: the iteration, the accumulator, or a captured
/// value.
pub open spec fn given(p: BodyParts, v: ValueId) -> bool {
    ||| v == p.sk.iv_dst
    ||| p.acc matches Some(a) && v == a.dst
    ||| exists|k: int| 0 <= k < p.scalars.len() && v == ValueId((#[trigger] p.scalars[k]).0)
}

/// An iteration starts with what the loop does not compute itself; the context holds what
/// is captured, and the cell holds the accumulator.
pub open spec fn begins<A, W>(m: Meaning<A, W>, p: BodyParts, s: State<A, W>, ctx: A) -> bool {
    &&& forall|v: ValueId| #[trigger] s.vals.dom().contains(v) <==> given(p, v)
    &&& forall|k: int|
        0 <= k < p.scalars.len() ==> (m.captured)(
            load_symbol((#[trigger] p.scalars[k]).1, p.scalars[k].2),
            ctx,
            (m.literal)(Constant::I64(p.scalars[k].3)),
        ) == s.vals[ValueId(p.scalars[k].0)]
    &&& p.acc matches Some(a) ==> s.cell == s.vals[a.dst]
}

/// What the body is called with: the iteration and the context.
pub open spec fn passed<A, W>(p: BodyParts, s: State<A, W>, ctx: A) -> State<A, W> {
    State {
        vals: Map::<ValueId, A>::empty().insert(p.sk.iv_dst, s.vals[p.sk.iv_dst]).insert(
            p.ctx(),
            ctx,
        ),
        mem: s.mem,
        cell: s.cell,
    }
}

/// A call ends as an iteration does: with the same memory, and after a full round with
/// the accumulator in the cell.
pub open spec fn agree<A, W>(
    m: Meaning<A, W>,
    p: BodyParts,
    cell: A,
    e: Ended<A, W>,
    r: Returned<A, W>,
) -> bool {
    match e {
        Ended::Cut => true,
        Ended::Halted => r is Halted,
        Ended::Back(s) => r matches Returned::Done(t) && t.mem == s.mem && t.cell == (match p.acc {
            Some(a) => get(m, s, a.back),
            None => cell,
        }),
        Ended::Left(s) => r matches Returned::Done(t) && t.mem == s.mem && t.cell == cell,
    }
}

// ---------------------------------------------------------------------------
// Renamings grow
// ---------------------------------------------------------------------------

/// `b` came out of `a` by naming more values, with fresh names.
pub open spec fn grows(a: Renaming, b: Renaming) -> bool {
    &&& a.next <= b.next
    &&& a.pairs.len() <= b.pairs.len()
    &&& forall|i: int| 0 <= i < a.pairs.len() ==> #[trigger] b.pairs[i] == a.pairs[i]
    &&& b.next <= u32::MAX ==> forall|i: int|
        a.pairs.len() <= i < b.pairs.len() ==> (#[trigger] b.pairs[i]).1.0 >= a.next
}

/// The renaming has a name for a value.
spec fn has(r: Renaming, v: ValueId, n: ValueId) -> bool {
    r.pairs.contains((v, n))
}

proof fn lemma_grows_on(a: Renaming, b: Renaming, c: Renaming)
    requires
        grows(a, b),
        grows(b, c),
    ensures
        grows(a, c),
{
    assert forall|i: int| 0 <= i < a.pairs.len() implies #[trigger] c.pairs[i] == a.pairs[i] by {
        assert(b.pairs[i] == a.pairs[i]);
    }
    if c.next <= u32::MAX {
        assert forall|i: int| a.pairs.len() <= i < c.pairs.len() implies (
        #[trigger] c.pairs[i]).1.0 >= a.next by {
            if i < b.pairs.len() {
                assert(c.pairs[i] == b.pairs[i]);
            }
        }
    }
}

proof fn lemma_has_still(a: Renaming, b: Renaming, v: ValueId, n: ValueId)
    requires
        grows(a, b),
        has(a, v, n),
    ensures
        has(b, v, n),
{
    let i = choose|i: int| 0 <= i < a.pairs.len() && a.pairs[i] == (v, n);
    assert(b.pairs[i] == (v, n));
}

proof fn lemma_lookup_has(pairs: Seq<(ValueId, ValueId)>, v: ValueId)
    requires
        lookup(pairs, v) is Some,
    ensures
        pairs.contains((v, lookup(pairs, v)->0)),
    decreases pairs.len(),
{
    if pairs.last().0 == v {
        assert(pairs[pairs.len() - 1] == (v, lookup(pairs, v)->0));
    } else {
        let d = pairs.drop_last();
        lemma_lookup_has(d, v);
        let i = choose|i: int| 0 <= i < d.len() && d[i] == (v, lookup(pairs, v)->0);
        assert(pairs[i] == d[i]);
    }
}

proof fn lemma_name(st: Renaming, v: ValueId)
    ensures
        grows(st, st.name(v).1),
        has(st.name(v).1, v, st.name(v).0),
{
    match lookup(st.pairs, v) {
        Some(_) => {
            lemma_lookup_has(st.pairs, v);
        },
        None => {
            let t = st.name(v).1;
            assert(t.pairs[st.pairs.len() as int] == (v, st.name(v).0));
        },
    }
}

proof fn lemma_names(st: Renaming, vs: Seq<ValueId>, k: nat)
    requires
        k <= vs.len(),
    ensures
        grows(st, st.names(vs, k).1),
        st.names(vs, k).0.len() == k,
        forall|i: int|
            0 <= i < k ==> has(st.names(vs, k).1, vs[i], #[trigger] st.names(vs, k).0[i]),
    decreases k,
{
    if k > 0 {
        let (before, s1) = st.names(vs, (k - 1) as nat);
        let (now, s2) = st.names(vs, k);
        lemma_names(st, vs, (k - 1) as nat);
        lemma_name(s1, vs[k - 1]);
        lemma_grows_on(st, s1, s2);
        assert forall|i: int| 0 <= i < k implies has(s2, vs[i], #[trigger] now[i]) by {
            if i < k - 1 {
                assert(now[i] == before[i]);
                lemma_has_still(s1, s2, vs[i], before[i]);
            }
        }
    }
}

/// `j` is `i` under other names.
spec fn renamed(r: Renaming, i: InstV, j: InstV) -> bool {
    &&& shape(i) == shape(j)
    &&& reads(i).len() == reads(j).len()
    &&& forall|k: int| 0 <= k < reads(i).len() ==> has(r, reads(i)[k], #[trigger] reads(j)[k])
    &&& match (writes(i), writes(j)) {
        (Some(a), Some(b)) => has(r, a, b),
        (None, None) => true,
        _ => false,
    }
}

proof fn lemma_renamed_still(a: Renaming, b: Renaming, i: InstV, j: InstV)
    requires
        grows(a, b),
        renamed(a, i, j),
    ensures
        renamed(b, i, j),
{
    assert forall|k: int| 0 <= k < reads(i).len() implies has(
        b,
        reads(i)[k],
        #[trigger] reads(j)[k],
    ) by {
        lemma_has_still(a, b, reads(i)[k], reads(j)[k]);
    }
    if writes(i) is Some {
        lemma_has_still(a, b, writes(i)->0, writes(j)->0);
    }
}

proof fn lemma_inst(st: Renaming, i: InstV)
    ensures
        grows(st, st.inst(i).1),
        renamed(st.inst(i).1, i, st.inst(i).0),
{
    let (j, end) = st.inst(i);
    match i {
        InstV::Const { dst, .. } => {
            lemma_name(st, dst);
        },
        InstV::Bin { dst, a, b, .. } => {
            let s1 = st.name(dst).1;
            let s2 = s1.name(a).1;
            lemma_name(st, dst);
            lemma_name(s1, a);
            lemma_name(s2, b);
            lemma_grows_on(st, s1, s2);
            lemma_grows_on(st, s2, end);
            lemma_grows_on(s1, s2, end);
            lemma_has_still(s1, end, dst, st.name(dst).0);
            lemma_has_still(s2, end, a, s1.name(a).0);
        },
        InstV::Unary { dst, a, .. } => {
            let s1 = st.name(dst).1;
            lemma_name(st, dst);
            lemma_name(s1, a);
            lemma_grows_on(st, s1, end);
            lemma_has_still(s1, end, dst, st.name(dst).0);
        },
        InstV::Cast { dst, val, .. } => {
            let s1 = st.name(dst).1;
            lemma_name(st, dst);
            lemma_name(s1, val);
            lemma_grows_on(st, s1, end);
            lemma_has_still(s1, end, dst, st.name(dst).0);
        },
        InstV::Load(l) => {
            let s1 = st.name(l.dst).1;
            lemma_name(st, l.dst);
            lemma_name(s1, l.idx);
            lemma_grows_on(st, s1, end);
            lemma_has_still(s1, end, l.dst, st.name(l.dst).0);
        },
        InstV::Store { idx, val, .. } => {
            let s1 = st.name(idx).1;
            lemma_name(st, idx);
            lemma_name(s1, val);
            lemma_grows_on(st, s1, end);
            lemma_has_still(s1, end, idx, st.name(idx).0);
        },
        InstV::Call { dst, args, .. } => {
            let s1 = match dst {
                Some(v) => st.name(v).1,
                None => st,
            };
            if let Some(v) = dst {
                lemma_name(st, v);
            }
            lemma_names(s1, args, args.len());
            lemma_grows_on(st, s1, end);
            if let Some(v) = dst {
                lemma_has_still(s1, end, v, st.name(v).0);
            }
            assert(shape(i)->args =~= shape(j)->args);
        },
    }
}

proof fn lemma_insts(st: Renaming, code: Seq<InstV>, k: nat)
    requires
        k <= code.len(),
    ensures
        grows(st, st.insts(code, k).1),
        st.insts(code, k).0.len() == k,
        forall|i: int|
            0 <= i < k ==> renamed(st.insts(code, k).1, code[i], #[trigger] st.insts(code, k).0[i]),
    decreases k,
{
    if k > 0 {
        let (before, s1) = st.insts(code, (k - 1) as nat);
        let (now, s2) = st.insts(code, k);
        lemma_insts(st, code, (k - 1) as nat);
        lemma_inst(s1, code[k - 1]);
        lemma_grows_on(st, s1, s2);
        assert forall|i: int| 0 <= i < k implies renamed(s2, code[i], #[trigger] now[i]) by {
            if i < k - 1 {
                assert(now[i] == before[i]);
                lemma_renamed_still(s1, s2, code[i], before[i]);
            }
        }
    }
}

proof fn lemma_phi_args(p: BodyParts, st: Renaming, args: Seq<(BlockId, ValueId)>, k: nat)
    requires
        k <= args.len(),
    ensures
        grows(st, p.phi_args(st, args, k).1),
        p.phi_args(st, args, k).0.len() == k,
        forall|i: int|
            0 <= i < k ==> (#[trigger] p.phi_args(st, args, k).0[i]).0 == p.retarget(args[i].0)
                && has(p.phi_args(st, args, k).1, args[i].1, p.phi_args(st, args, k).0[i].1),
    decreases k,
{
    if k > 0 {
        let (before, s1) = p.phi_args(st, args, (k - 1) as nat);
        let (now, s2) = p.phi_args(st, args, k);
        lemma_phi_args(p, st, args, (k - 1) as nat);
        lemma_name(s1, args[k - 1].1);
        lemma_grows_on(st, s1, s2);
        assert forall|i: int| 0 <= i < k implies (#[trigger] now[i]).0 == p.retarget(args[i].0)
            && has(s2, args[i].1, now[i].1) by {
            if i < k - 1 {
                assert(now[i] == before[i]);
                lemma_has_still(s1, s2, args[i].1, before[i].1);
            }
        }
    }
}

/// `g` is the phi `f` under other names.
spec fn phi_renamed(p: BodyParts, r: Renaming, f: PhiV, g: PhiV) -> bool {
    &&& has(r, f.dst, g.dst)
    &&& f.args.len() == g.args.len()
    &&& forall|k: int|
        0 <= k < f.args.len() ==> (#[trigger] g.args[k]).0 == p.retarget(f.args[k].0) && has(
            r,
            f.args[k].1,
            g.args[k].1,
        )
}

proof fn lemma_phi_still(p: BodyParts, a: Renaming, b: Renaming, f: PhiV, g: PhiV)
    requires
        grows(a, b),
        phi_renamed(p, a, f, g),
    ensures
        phi_renamed(p, b, f, g),
{
    lemma_has_still(a, b, f.dst, g.dst);
    assert forall|k: int| 0 <= k < f.args.len() implies (#[trigger] g.args[k]).0 == p.retarget(
        f.args[k].0,
    ) && has(b, f.args[k].1, g.args[k].1) by {
        lemma_has_still(a, b, f.args[k].1, g.args[k].1);
    }
}

proof fn lemma_phis(p: BodyParts, st: Renaming, phis: Seq<PhiV>, k: nat)
    requires
        k <= phis.len(),
    ensures
        grows(st, p.phis(st, phis, k).1),
        p.phis(st, phis, k).0.len() == k,
        forall|i: int|
            0 <= i < k ==> phi_renamed(
                p,
                p.phis(st, phis, k).1,
                phis[i],
                #[trigger] p.phis(st, phis, k).0[i],
            ),
    decreases k,
{
    if k > 0 {
        let (before, s1) = p.phis(st, phis, (k - 1) as nat);
        let (now, s3) = p.phis(st, phis, k);
        let f = phis[k - 1];
        let s2 = s1.name(f.dst).1;
        lemma_phis(p, st, phis, (k - 1) as nat);
        lemma_name(s1, f.dst);
        lemma_phi_args(p, s2, f.args, f.args.len());
        lemma_grows_on(s1, s2, s3);
        lemma_grows_on(st, s1, s3);
        lemma_has_still(s2, s3, f.dst, s1.name(f.dst).0);
        assert forall|i: int| 0 <= i < k implies phi_renamed(p, s3, phis[i], #[trigger] now[i]) by {
            if i < k - 1 {
                assert(now[i] == before[i]);
                lemma_phi_still(p, s1, s3, phis[i], before[i]);
            }
        }
    }
}

proof fn lemma_term(p: BodyParts, st: Renaming, t: TermV)
    ensures
        grows(st, p.term(st, t).1),
        t matches TermV::Branch { cond, .. } ==> has(p.term(st, t).1, cond, st.name(cond).0),
{
    match t {
        TermV::Jump(_, args) => {
            lemma_names(st, args, args.len());
        },
        TermV::Branch { cond, .. } => {
            lemma_name(st, cond);
        },
        TermV::Return(v) => {
            if let Some(x) = v {
                lemma_name(st, x);
            }
        },
    }
}

proof fn lemma_store(p: BodyParts, st: Renaming)
    ensures
        grows(st, p.latch_store(st).1),
        p.acc matches Some(a) ==> has(p.latch_store(st).1, a.back, st.name(a.back).0),
{
    if let Some(a) = p.acc {
        lemma_name(st, a.back);
    }
}

// ---------------------------------------------------------------------------
// The parts of a cloned block
// ---------------------------------------------------------------------------

/// The phis of clone `k`.
spec fn at_phis(p: BodyParts, st: Renaming, k: int) -> (Seq<PhiV>, Renaming) {
    let b = p.sk.blocks[k];
    let src = p.ir.at(b)@;
    if b == p.sk.header {
        (
            seq![
                PhiV { dst: p.sk.iv_dst, var: p.sk.iv_var, args: seq![] },
                PhiV { dst: p.ctx(), var: LocalId(p.ir.n_locals as u32), args: seq![] },
            ],
            st,
        )
    } else {
        p.phis(st, src.phis, src.phis.len())
    }
}

/// What clone `k` does before its own instructions.
spec fn at_first(p: BodyParts, st: Renaming, k: int) -> (Seq<InstV>, Renaming) {
    let b = p.sk.blocks[k];
    let s1 = at_phis(p, st, k).1;
    if b == p.sk.header {
        (p.preamble(), s1)
    } else if b == p.sk.latch && !p.stores_late() {
        p.latch_store(s1)
    } else {
        (seq![], s1)
    }
}

/// The own instructions of clone `k`.
spec fn at_insts(p: BodyParts, st: Renaming, k: int) -> (Seq<InstV>, Renaming) {
    let src = p.ir.at(p.sk.blocks[k])@;
    at_first(p, st, k).1.insts(src.insts, src.insts.len())
}

/// What clone `k` does after its own instructions.
spec fn at_last(p: BodyParts, st: Renaming, k: int) -> (Seq<InstV>, Renaming) {
    let b = p.sk.blocks[k];
    let s3 = at_insts(p, st, k).1;
    if b != p.sk.header && b == p.sk.latch && p.stores_late() {
        p.latch_store(s3)
    } else {
        (seq![], s3)
    }
}

/// The terminator of clone `k`.
spec fn at_term(p: BodyParts, st: Renaming, k: int) -> (TermV, Renaming) {
    let b = p.sk.blocks[k];
    let s4 = at_last(p, st, k).1;
    if b == p.sk.latch {
        (TermV::Return(None), s4)
    } else {
        p.term(s4, p.ir.at(b)@.term)
    }
}

proof fn lemma_block_grows(p: BodyParts, st: Renaming, k: int)
    ensures
        p.block(st, k) == (
            BlockV {
                phis: at_phis(p, st, k).0,
                insts: at_first(p, st, k).0 + at_insts(p, st, k).0 + at_last(p, st, k).0,
                term: at_term(p, st, k).0,
            },
            at_term(p, st, k).1,
        ),
        grows(st, at_phis(p, st, k).1),
        grows(at_phis(p, st, k).1, at_term(p, st, k).1),
        grows(at_first(p, st, k).1, at_term(p, st, k).1),
        grows(at_insts(p, st, k).1, at_term(p, st, k).1),
        grows(at_last(p, st, k).1, at_term(p, st, k).1),
        grows(st, at_term(p, st, k).1),
{
    let b = p.sk.blocks[k];
    let src = p.ir.at(b)@;
    let s1 = at_phis(p, st, k).1;
    let s2 = at_first(p, st, k).1;
    let s3 = at_insts(p, st, k).1;
    let s4 = at_last(p, st, k).1;
    let s5 = at_term(p, st, k).1;
    lemma_phis(p, st, src.phis, src.phis.len());
    lemma_store(p, s1);
    lemma_insts(s2, src.insts, src.insts.len());
    lemma_store(p, s3);
    lemma_term(p, s4, src.term);
    lemma_grows_on(s3, s4, s5);
    lemma_grows_on(s2, s3, s5);
    lemma_grows_on(s1, s2, s5);
    lemma_grows_on(st, s1, s5);
}

pub proof fn lemma_blocks_grow(p: BodyParts, k: nat, n: nat)
    requires
        k <= n,
    ensures
        grows(p.blocks(k).1, p.blocks(n).1),
    decreases n,
{
    if k < n {
        lemma_blocks_grow(p, k, (n - 1) as nat);
        lemma_block_grows(p, p.blocks((n - 1) as nat).1, n - 1);
        lemma_grows_on(p.blocks(k).1, p.blocks((n - 1) as nat).1, p.blocks(n).1);
    }
}

// ---------------------------------------------------------------------------
// Equal steps
// ---------------------------------------------------------------------------

/// The body was built, and its names can be told apart.
spec fn sound(p: BodyParts) -> bool {
    &&& p.possible()
    &&& p.sk.blocks.len() < u32::MAX
    &&& distinct_names(p.clones().1)
    &&& goes_round(p)
    &&& calls_allowed(p.ir, p.sk.blocks)
    &&& forall|i: int| 0 <= i < p.sk.blocks.len() ==> p.ir.has_block(#[trigger] p.sk.blocks[i])
    &&& p.acc matches Some(a) ==> a.back.0 < p.base()
}

/// `t` has under its names what `s` has.
spec fn alike<A, W>(p: BodyParts, s: State<A, W>, t: State<A, W>) -> bool {
    &&& s.mem == t.mem
    &&& forall|v: ValueId, n: ValueId| #[trigger]
        has(p.clones().1, v, n) && v.0 < p.base() ==> (s.vals.dom().contains(v)
            <==> t.vals.dom().contains(n)) && (s.vals.dom().contains(v) ==> s.vals[v] == t.vals[n])
}

proof fn lemma_has_unique(r: Renaming, v: ValueId, n: ValueId, w: ValueId, o: ValueId)
    requires
        distinct_names(r),
        has(r, v, n),
        has(r, w, o),
    ensures
        v == w <==> n == o,
{
    let i = choose|i: int| 0 <= i < r.pairs.len() && r.pairs[i] == (v, n);
    let j = choose|j: int| 0 <= j < r.pairs.len() && r.pairs[j] == (w, o);
    if i < j {
        assert(r.pairs[i].0 != r.pairs[j].0);
    } else if j < i {
        assert(r.pairs[j].0 != r.pairs[i].0);
    }
}

proof fn lemma_set<A, W>(
    p: BodyParts,
    s: State<A, W>,
    t: State<A, W>,
    d: ValueId,
    n: ValueId,
    x: A,
)
    requires
        distinct_names(p.clones().1),
        alike(p, s, t),
        has(p.clones().1, d, n),
    ensures
        alike(p, set(s, Some(d), x), set(t, Some(n), x)),
{
    let a = set(s, Some(d), x);
    let b = set(t, Some(n), x);
    assert forall|v: ValueId, o: ValueId| #[trigger]
        has(p.clones().1, v, o) && v.0 < p.base() implies (a.vals.dom().contains(v)
        <==> b.vals.dom().contains(o)) && (a.vals.dom().contains(v) ==> a.vals[v] == b.vals[o]) by {
        lemma_has_unique(p.clones().1, d, n, v, o);
    }
}

proof fn lemma_get<A, W>(
    m: Meaning<A, W>,
    p: BodyParts,
    s: State<A, W>,
    t: State<A, W>,
    v: ValueId,
    n: ValueId,
)
    requires
        alike(p, s, t),
        has(p.clones().1, v, n),
        v.0 < p.base(),
    ensures
        get(m, s, v) == get(m, t, n),
{
}

/// All values of an instruction are below the bound.
spec fn below(i: InstV, bound: nat) -> bool {
    &&& forall|k: int| 0 <= k < reads(i).len() ==> (#[trigger] reads(i)[k]).0 < bound
    &&& writes(i) matches Some(d) ==> d.0 < bound
}

/// A renamed instruction does the same.
proof fn lemma_step<A, W>(
    m: Meaning<A, W>,
    p: BodyParts,
    i: InstV,
    j: InstV,
    s: State<A, W>,
    t: State<A, W>,
)
    requires
        distinct_names(p.clones().1),
        plain(i),
        renamed(p.clones().1, i, j),
        below(i, p.base()),
        alike(p, s, t),
    ensures
        match (step(m, i, s), step(m, j, t)) {
            (Some(a), Some(b)) => alike(p, a, b) && a.cell == s.cell && b.cell == t.cell,
            (None, None) => true,
            _ => false,
        },
{
    let (x, y) = (operands(m, s, i), operands(m, t, j));
    assert forall|k: int| 0 <= k < reads(i).len() implies x[k] == y[k] by {
        assert(has(p.clones().1, reads(i)[k], reads(j)[k]));
        lemma_get(m, p, s, t, reads(i)[k], reads(j)[k]);
    }
    assert(x =~= y);
    assert(shape(i) == shape(j));
    if let InstV::Const { dst, c } = i {
        assert(j matches InstV::Const { dst: e, c: d } && d == c);
        lemma_set(p, s, t, dst, writes(j)->0, (m.literal)(c));
    } else {
        if let InstV::Call { callee, .. } = i {
            assert(j matches InstV::Call { callee: other, .. } && other == callee);
        }
        assert(step(m, i, s) == worked(m, i, s));
        assert(step(m, j, t) == worked(m, j, t));
        if let Some((value, mem)) = (m.work)(shape(i), x, s.mem) {
            let s1 = State { vals: s.vals, mem, cell: s.cell };
            let t1 = State { vals: t.vals, mem, cell: t.cell };
            assert(alike(p, s1, t1));
            if let Some(d) = writes(i) {
                lemma_set(p, s1, t1, d, writes(j)->0, value);
            }
        }
    }
}

/// Renamed instructions do the same, one after another.
proof fn lemma_run<A, W>(
    m: Meaning<A, W>,
    p: BodyParts,
    code: Seq<InstV>,
    clones: Seq<InstV>,
    k: nat,
    s: State<A, W>,
    t: State<A, W>,
)
    requires
        distinct_names(p.clones().1),
        k <= code.len(),
        k <= clones.len(),
        forall|i: int|
            0 <= i < k ==> plain(#[trigger] code[i]) && below(code[i], p.base()) && renamed(
                p.clones().1,
                code[i],
                clones[i],
            ),
        alike(p, s, t),
    ensures
        match (run(m, code, k, s), run(m, clones, k, t)) {
            (Some(a), Some(b)) => alike(p, a, b) && a.cell == s.cell && b.cell == t.cell,
            (None, None) => true,
            _ => false,
        },
    decreases k,
{
    if k > 0 {
        lemma_run(m, p, code, clones, (k - 1) as nat, s, t);
        if let Some(a) = run(m, code, (k - 1) as nat, s) {
            let b = run(m, clones, (k - 1) as nat, t)->0;
            assert(plain(code[k - 1]));
            lemma_step(m, p, code[k - 1], clones[k - 1], a, b);
        }
    }
}

/// Only the instructions that are run matter.
proof fn lemma_run_prefix<A, W>(
    m: Meaning<A, W>,
    a: Seq<InstV>,
    b: Seq<InstV>,
    k: nat,
    s: State<A, W>,
)
    requires
        k <= a.len(),
        k <= b.len(),
        forall|i: int| 0 <= i < k ==> a[i] == b[i],
    ensures
        run(m, a, k, s) == run(m, b, k, s),
    decreases k,
{
    if k > 0 {
        lemma_run_prefix(m, a, b, (k - 1) as nat, s);
    }
}

/// What follows is run where the first part ended.
proof fn lemma_run_on<A, W>(
    m: Meaning<A, W>,
    a: Seq<InstV>,
    b: Seq<InstV>,
    k: nat,
    s: State<A, W>,
)
    requires
        k <= b.len(),
    ensures
        run(m, a + b, a.len() + k, s) == (match run(m, a, a.len(), s) {
            Some(t) => run(m, b, k, t),
            None => None,
        }),
    decreases k,
{
    if k == 0 {
        lemma_run_prefix(m, a, a + b, a.len(), s);
    } else {
        lemma_run_on(m, a, b, (k - 1) as nat, s);
        assert((a + b)[a.len() + k - 1] == b[k - 1]);
    }
}

/// A value that no instruction computes stays as it is.
proof fn lemma_run_keeps<A, W>(
    m: Meaning<A, W>,
    code: Seq<InstV>,
    k: nat,
    s: State<A, W>,
    v: ValueId,
)
    requires
        k <= code.len(),
        forall|i: int| 0 <= i < k ==> writes(#[trigger] code[i]) != Some(v),
    ensures
        run(m, code, k, s) matches Some(t) ==> get(m, t, v) == get(m, s, v),
    decreases k,
{
    if k > 0 {
        lemma_run_keeps(m, code, (k - 1) as nat, s, v);
        assert(writes(code[k - 1]) != Some(v));
    }
}

/// A block of the loop has its place in the body, and no other block has it.
pub proof fn lemma_place(p: BodyParts, b: BlockId, c: BlockId)
    requires
        p.sk.blocks.len() < u32::MAX,
        p.sk.blocks.contains(b),
        p.sk.blocks.contains(c),
    ensures
        p.place(b) is Some,
        (p.place(b)->0).0 < p.sk.blocks.len(),
        p.sk.blocks[(p.place(b)->0).0 as int] == b,
        p.retarget(b) == p.place(b)->0,
        p.retarget(b) == p.retarget(c) <==> b == c,
{
    lemma_first_where(p.sk.blocks, is_block(b));
    lemma_first_where(p.sk.blocks, is_block(c));
    let i = choose|i: int| 0 <= i < p.sk.blocks.len() && p.sk.blocks[i] == b;
    assert(is_block(b)(p.sk.blocks[i]));
    let j = choose|j: int| 0 <= j < p.sk.blocks.len() && p.sk.blocks[j] == c;
    assert(is_block(c)(p.sk.blocks[j]));
}

/// A block outside the loop has none.
pub proof fn lemma_no_place(p: BodyParts, b: BlockId)
    requires
        !p.sk.blocks.contains(b),
    ensures
        p.place(b) is None,
{
    lemma_first_where(p.sk.blocks, is_block(b));
}

/// A renamed phi takes the same.
proof fn lemma_taken(p: BodyParts, f: PhiV, g: PhiV, b: BlockId, k: nat)
    requires
        p.sk.blocks.len() < u32::MAX,
        p.sk.blocks.contains(b),
        phi_renamed(p, p.clones().1, f, g),
        forall|i: int| 0 <= i < f.args.len() ==> p.sk.blocks.contains((#[trigger] f.args[i]).0),
        k <= f.args.len(),
    ensures
        match (taken(f.args, b, k), taken(g.args, p.retarget(b), k)) {
            (Some(v), Some(n)) => has(p.clones().1, v, n) && exists|i: int|
                0 <= i < f.args.len() && (#[trigger] f.args[i]).1 == v,
            (None, None) => true,
            _ => false,
        },
    decreases k,
{
    if k > 0 {
        lemma_taken(p, f, g, b, (k - 1) as nat);
        assert(g.args[k - 1].0 == p.retarget(f.args[k - 1].0));
        assert(p.sk.blocks.contains(f.args[k - 1].0));
        lemma_place(p, f.args[k - 1].0, b);
    }
}

/// Renamed phis merge the same.
proof fn lemma_merged<A, W>(
    m: Meaning<A, W>,
    p: BodyParts,
    fs: Seq<PhiV>,
    gs: Seq<PhiV>,
    b: BlockId,
    s: State<A, W>,
    t: State<A, W>,
    k: nat,
)
    requires
        distinct_names(p.clones().1),
        p.sk.blocks.len() < u32::MAX,
        p.sk.blocks.contains(b),
        alike(p, s, t),
        k <= fs.len(),
        k <= gs.len(),
        forall|i: int| 0 <= i < k ==> phi_renamed(p, p.clones().1, #[trigger] fs[i], gs[i]),
        forall|i: int, j: int|
            0 <= i < k && 0 <= j < fs[i].args.len() ==> p.sk.blocks.contains(
                (#[trigger] fs[i].args[j]).0,
            ) && fs[i].args[j].1.0 < p.base(),
    ensures
        alike(
            p,
            State { vals: merged(m, fs, b, s, k), mem: s.mem, cell: s.cell },
            State { vals: merged(m, gs, p.retarget(b), t, k), mem: t.mem, cell: t.cell },
        ),
    decreases k,
{
    if k > 0 {
        let l = (k - 1) as nat;
        lemma_merged(m, p, fs, gs, b, s, t, l);
        let (f, g) = (fs[k - 1], gs[k - 1]);
        assert(phi_renamed(p, p.clones().1, fs[k - 1], gs[k - 1]));
        assert forall|i: int| 0 <= i < f.args.len() implies p.sk.blocks.contains(
            (#[trigger] f.args[i]).0,
        ) by {
            assert(p.sk.blocks.contains(fs[k - 1].args[i].0));
        }
        lemma_taken(p, f, g, b, f.args.len());
        if let Some(v) = taken(f.args, b, f.args.len()) {
            let n = taken(g.args, p.retarget(b), g.args.len())->0;
            let i = choose|i: int| 0 <= i < f.args.len() && (#[trigger] f.args[i]).1 == v;
            assert(fs[k - 1].args[i].1.0 < p.base());
            lemma_get(m, p, s, t, v, n);
            lemma_set(
                p,
                State { vals: merged(m, fs, b, s, l), mem: s.mem, cell: s.cell },
                State { vals: merged(m, gs, p.retarget(b), t, l), mem: t.mem, cell: t.cell },
                f.dst,
                g.dst,
                get(m, s, v),
            );
        }
    }
}

// ---------------------------------------------------------------------------
// The start of a call
// ---------------------------------------------------------------------------

proof fn lemma_push<A, W>(m: Meaning<A, W>, code: Seq<InstV>, i: InstV, s: State<A, W>)
    ensures
        run(m, code.push(i), code.len() + 1, s) == (match run(m, code, code.len(), s) {
            Some(t) => step(m, i, t),
            None => None,
        }),
{
    lemma_run_prefix(m, code, code.push(i), code.len(), s);
}

/// The first `k` captured values are loaded; beside them there are only numbers below the
/// bound.
spec fn loaded<A, W>(
    p: BodyParts,
    s: State<A, W>,
    u: State<A, W>,
    ctx: A,
    k: int,
    bound: nat,
) -> bool {
    &&& u.mem == s.mem
    &&& u.cell == s.cell
    &&& u.vals.dom().contains(p.sk.iv_dst)
    &&& u.vals[p.sk.iv_dst] == s.vals[p.sk.iv_dst]
    &&& u.vals.dom().contains(p.ctx())
    &&& u.vals[p.ctx()] == ctx
    &&& forall|v: ValueId| #[trigger]
        u.vals.dom().contains(v) ==> v == p.sk.iv_dst || p.base() <= v.0 < bound || exists|i: int|
            0 <= i < k && v == ValueId((#[trigger] p.scalars[i]).0)
    &&& forall|i: int|
        0 <= i < k ==> u.vals.dom().contains(ValueId((#[trigger] p.scalars[i]).0))
            && u.vals[ValueId(p.scalars[i].0)] == s.vals[ValueId(p.scalars[i].0)]
}

/// A fresh number can be set.
proof fn lemma_loaded_fresh<A, W>(
    p: BodyParts,
    s: State<A, W>,
    u: State<A, W>,
    ctx: A,
    k: int,
    bound: nat,
    n: nat,
    more: nat,
    x: A,
)
    requires
        bound_names_distinct(p),
        loaded(p, s, u, ctx, k, bound),
        p.base() < n < more <= u32::MAX,
        bound <= more,
        k <= p.scalars.len(),
    ensures
        loaded(p, s, set(u, Some(fresh(n)), x), ctx, k, more),
{
    let t = set(u, Some(fresh(n)), x);
    assert forall|i: int| 0 <= i < k implies t.vals.dom().contains(
        ValueId((#[trigger] p.scalars[i]).0),
    ) && t.vals[ValueId(p.scalars[i].0)] == s.vals[ValueId(p.scalars[i].0)] by {
        assert(p.scalars[i].0 < p.base());
    }
}

/// The words of arrays are loaded.
proof fn lemma_array_loads<A, W>(
    m: Meaning<A, W>,
    p: BodyParts,
    s: State<A, W>,
    ctx: A,
    k: nat,
)
    requires
        bound_names_distinct(p),
        k <= p.arrays.len(),
        p.array_base(k as int) <= u32::MAX,
    ensures
        p.array_loads(k).len() == 4 * k,
        run(m, p.array_loads(k), 4 * k, passed(p, s, ctx)) matches Some(u) && loaded(
            p,
            s,
            u,
            ctx,
            0,
            p.array_base(k as int),
        ),
    decreases k,
{
    if k > 0 {
        lemma_array_loads(m, p, s, ctx, (k - 1) as nat);
        let start = passed(p, s, ctx);
        let b = p.array_base(k - 1);
        let end = p.array_base(k as int);
        let off = p.arrays[k - 1].2 as int;
        let c0 = p.array_loads((k - 1) as nat);
        let i1 = offset_const(fresh(b), off);
        let i2 = import(Some(p.array_ptr(k - 1)), "helix_ld_i64"@, seq![p.ctx(), fresh(b)]);
        let i3 = offset_const(fresh(b + 3), off + 8);
        let i4 = import(Some(p.array_len(k - 1)), "helix_ld_i64"@, seq![p.ctx(), fresh(b + 3)]);
        let c1 = c0.push(i1);
        let c2 = c1.push(i2);
        let c3 = c2.push(i3);
        lemma_push(m, c0, i1, start);
        lemma_push(m, c1, i2, start);
        lemma_push(m, c2, i3, start);
        lemma_push(m, c3, i4, start);
        assert(p.array_loads(k) == c3.push(i4));
        let u0 = run(m, c0, c0.len(), start)->0;
        let u1 = step(m, i1, u0)->0;
        lemma_loaded_fresh(
            p,
            s,
            u0,
            ctx,
            0,
            b,
            b,
            end,
            (m.literal)(Constant::I64(off as i64)),
        );
        let u2 = step(m, i2, u1)->0;
        lemma_loaded_fresh(
            p,
            s,
            u1,
            ctx,
            0,
            end,
            b + 1,
            end,
            (m.captured)("helix_ld_i64"@, get(m, u1, p.ctx()), get(m, u1, fresh(b))),
        );
        let u3 = step(m, i3, u2)->0;
        lemma_loaded_fresh(
            p,
            s,
            u2,
            ctx,
            0,
            end,
            b + 3,
            end,
            (m.literal)(Constant::I64((off + 8) as i64)),
        );
        lemma_loaded_fresh(
            p,
            s,
            u3,
            ctx,
            0,
            end,
            b + 2,
            end,
            (m.captured)("helix_ld_i64"@, get(m, u3, p.ctx()), get(m, u3, fresh(b + 3))),
        );
    }
}

/// Captured values are loaded.
proof fn lemma_scalar_loads<A, W>(
    m: Meaning<A, W>,
    p: BodyParts,
    s: State<A, W>,
    u: State<A, W>,
    ctx: A,
    k: nat,
)
    requires
        bound_names_distinct(p),
        begins(m, p, s, ctx),
        k <= p.scalars.len(),
        p.scalar_base(k as int) <= u32::MAX,
        loaded(p, s, u, ctx, 0, p.scalar_base(0)),
    ensures
        p.scalar_loads(k).len() == 2 * k,
        run(m, p.scalar_loads(k), 2 * k, u) matches Some(t) && loaded(
            p,
            s,
            t,
            ctx,
            k as int,
            p.scalar_base(k as int),
        ),
    decreases k,
{
    if k > 0 {
        lemma_scalar_loads(m, p, s, u, ctx, (k - 1) as nat);
        let i = k - 1;
        let n = p.scalar_base(i);
        let end = p.scalar_base(k as int);
        let (sid, width, float, off) = p.scalars[i];
        let c0 = p.scalar_loads(i as nat);
        let i1 = offset_const(fresh(n), off as int);
        let i2 = import(Some(ValueId(sid)), load_symbol(width, float), seq![p.ctx(), fresh(n)]);
        lemma_push(m, c0, i1, u);
        lemma_push(m, c0.push(i1), i2, u);
        assert(p.scalar_loads(k) == c0.push(i1).push(i2));
        let u0 = run(m, c0, c0.len(), u)->0;
        let u1 = step(m, i1, u0)->0;
        lemma_loaded_fresh(p, s, u0, ctx, i, n, n, end, (m.literal)(Constant::I64(off)));
        assert(u1 == set(u0, Some(fresh(n)), (m.literal)(Constant::I64(off))));
        assert(reads_context(load_symbol(width, float)));
        let t = step(m, i2, u1)->0;
        let x = s.vals[ValueId(sid)];
        assert(p.scalars[i].0 == sid);
        assert(t == set(u1, Some(ValueId(sid)), x));
        assert forall|v: ValueId| #[trigger] t.vals.dom().contains(v) implies v == p.sk.iv_dst
            || p.base() <= v.0 < end || exists|j: int|
            0 <= j < k && v == ValueId((#[trigger] p.scalars[j]).0) by {
            if v == ValueId(sid) {
                assert(v == ValueId(p.scalars[i].0));
            } else {
                assert(u1.vals.dom().contains(v));
            }
        }
        assert forall|j: int| 0 <= j < k implies t.vals.dom().contains(
            ValueId((#[trigger] p.scalars[j]).0),
        ) && t.vals[ValueId(p.scalars[j].0)] == s.vals[ValueId(p.scalars[j].0)] by {
            if j < i {
                assert(p.scalars[j].0 != p.scalars[i].0);
            }
        }
    }
}

/// The body starts with what is given under its own names, and with names of its own.
proof fn lemma_initial(p: BodyParts)
    requires
        bound_names_distinct(p),
        p.initial().next <= u32::MAX,
    ensures
        forall|i: int|
            0 <= i < p.initial().pairs.len() ==> (#[trigger] p.initial().pairs[i]).0
                == p.initial().pairs[i].1 && (p.initial().pairs[i].0.0 < p.base() ==> given(
                p,
                p.initial().pairs[i].0,
            )),
        forall|v: ValueId| #[trigger] given(p, v) ==> has(p.initial(), v, v) && v.0 < p.base(),
{
    let st = p.initial();
    let scalars = p.kept_scalars(p.scalars.len());
    lemma_kept_scalars(p, p.scalars.len());
    lemma_kept_arrays(p, p.arrays.len());
    let arrays = p.kept_arrays(p.arrays.len());
    let n: int = scalars.len() as int + if p.acc is Some {
        1int
    } else {
        0int
    };
    assert forall|i: int| 0 <= i < st.pairs.len() implies (#[trigger] st.pairs[i]).0
        == st.pairs[i].1 && (st.pairs[i].0.0 < p.base() ==> given(p, st.pairs[i].0)) by {
        if i < scalars.len() {
            assert(st.pairs[i] == scalars[i]);
            assert(ValueId(p.scalars[i].0) == st.pairs[i].0);
        } else if i > n + 1 {
            assert(st.pairs[i] == arrays[i - n - 2]);
        }
    }
    assert forall|v: ValueId| #[trigger] given(p, v) implies has(st, v, v) && v.0 < p.base() by {
        if v == p.sk.iv_dst {
            assert(st.pairs[n] == (v, v));
        } else if p.acc is Some && v == (p.acc->0).dst {
            assert(st.pairs[n - 1] == (v, v));
        } else {
            let k = choose|k: int|
                0 <= k < p.scalars.len() && v == ValueId((#[trigger] p.scalars[k]).0);
            assert(st.pairs[k] == scalars[k]);
            assert(st.pairs[k] == (v, v));
        }
    }
}

/// The imports are told apart.
proof fn lemma_imports(width: u64, float: bool)
    ensures
        reads_cell(acc_load_symbol(width, float)),
        !reads_context(acc_load_symbol(width, float)),
        writes_cell(acc_store_symbol(width, float)),
        !reads_context(acc_store_symbol(width, float)),
        !reads_cell(acc_store_symbol(width, float)),
{
    lemma_lengths();
}

/// The imports have long names, of three different lengths.
proof fn lemma_lengths()
    ensures
        forall|c: Seq<char>| #[trigger] reads_context(c) ==> c.len() == 12,
        forall|c: Seq<char>| #[trigger] reads_cell(c) ==> c.len() == 18,
        forall|c: Seq<char>| #[trigger] writes_cell(c) ==> c.len() == 19,
{
    reveal_strlit("helix_ld_i64");
    reveal_strlit("helix_ld_i32");
    reveal_strlit("helix_ld_f64");
    reveal_strlit("helix_ld_f32");
    reveal_strlit("helix_acc_load_i64");
    reveal_strlit("helix_acc_load_i32");
    reveal_strlit("helix_acc_load_f64");
    reveal_strlit("helix_acc_load_f32");
    reveal_strlit("helix_acc_store_i64");
    reveal_strlit("helix_acc_store_i32");
    reveal_strlit("helix_acc_store_f64");
    reveal_strlit("helix_acc_store_f32");
}

/// After its loads the body has what the iteration starts with.
proof fn lemma_preamble<A, W>(m: Meaning<A, W>, p: BodyParts, s: State<A, W>, ctx: A)
    requires
        bound_names_distinct(p),
        distinct_names(p.clones().1),
        p.possible(),
        begins(m, p, s, ctx),
    ensures
        run(m, p.preamble(), p.preamble().len(), passed(p, s, ctx)) matches Some(u) && alike(
            p,
            s,
            u,
        ) && u.cell == s.cell,
{
    let st = p.initial();
    let last = p.clones().1;
    lemma_blocks_grow(p, 0, p.sk.blocks.len());
    lemma_initial(p);
    let start = passed(p, s, ctx);
    let n = p.scalars.len();
    let arrays = p.array_loads(p.arrays.len());
    let scalars = p.scalar_loads(n);
    lemma_array_loads(m, p, s, ctx, p.arrays.len());
    let u0 = run(m, arrays, arrays.len(), start)->0;
    lemma_scalar_loads(m, p, s, u0, ctx, n);
    lemma_run_on(m, arrays, scalars, scalars.len(), start);
    let loads = arrays + scalars;
    let u1 = run(m, loads, loads.len(), start)->0;
    assert(loaded(p, s, u1, ctx, n as int, st.next));
    let u = match p.acc {
        Some(a) => {
            let i = import(Some(a.dst), acc_load_symbol(a.spec.width, a.spec.float), seq![p.ctx()]);
            lemma_push(m, loads, i, start);
            lemma_imports(a.spec.width, a.spec.float);
            set(u1, Some(a.dst), s.cell)
        },
        None => u1,
    };
    assert(run(m, p.preamble(), p.preamble().len(), start) == Some(u));
    assert forall|v: ValueId| given(p, v) implies #[trigger] u.vals.dom().contains(v) && u.vals[v]
        == s.vals[v] by {
        if p.acc is Some && v == (p.acc->0).dst {
        } else if v == p.sk.iv_dst {
        } else {
            let k = choose|k: int|
                0 <= k < p.scalars.len() && v == ValueId((#[trigger] p.scalars[k]).0);
            assert(u1.vals.dom().contains(ValueId(p.scalars[k].0)));
        }
    }
    assert forall|v: ValueId, o: ValueId| #[trigger] has(last, v, o) && v.0 < p.base() implies (
    s.vals.dom().contains(v) <==> u.vals.dom().contains(o)) && (s.vals.dom().contains(v)
        ==> s.vals[v] == u.vals[o]) by {
        let i = choose|i: int| 0 <= i < last.pairs.len() && last.pairs[i] == (v, o);
        if i < st.pairs.len() {
            assert(last.pairs[i] == st.pairs[i]);
            assert(given(p, v));
            assert(u.vals.dom().contains(v));
        } else {
            assert(last.pairs[i].1.0 >= st.next);
            if given(p, v) {
                let j = choose|j: int| 0 <= j < st.pairs.len() && st.pairs[j] == (v, v);
                assert(last.pairs[j] == (v, v));
                assert(last.pairs[j].0 != last.pairs[i].0);
            }
            assert(!s.vals.dom().contains(v));
            if u.vals.dom().contains(o) {
                if p.acc is Some && o == (p.acc->0).dst {
                } else {
                    assert(u1.vals.dom().contains(o));
                    if exists|k: int| 0 <= k < n && o == ValueId((#[trigger] p.scalars[k]).0) {
                        let k = choose|k: int|
                            0 <= k < n && o == ValueId((#[trigger] p.scalars[k]).0);
                        assert(p.scalars[k].0 < p.base());
                    }
                }
            }
        }
    }
}

// ---------------------------------------------------------------------------
// Iterations
// ---------------------------------------------------------------------------

/// The instructions of a loop that may make its calls call no import.
pub proof fn lemma_plain(p: BodyParts, b: BlockId, k: int)
    requires
        calls_allowed(p.ir, p.sk.blocks),
        p.sk.blocks.contains(b),
        0 <= k < p.ir.at(b).insts@.len(),
    ensures
        plain(p.ir.at(b).insts@[k]@),
{
    let q = choose|q: int| 0 <= q < p.sk.blocks.len() && p.sk.blocks[q] == b;
    assert(p.ir.at(p.sk.blocks[q]).insts@[k] == p.ir.at(b).insts@[k]);
    lemma_lengths();
    reveal_strlit("min");
    reveal_strlit("max");
    reveal_strlit("sqrt");
    reveal_strlit("abs");
    reveal_strlit("len");
    reveal_strlit("zeros");
}

/// The instructions of the loop call no import, and mention no number that the function
/// does not use.
proof fn lemma_code(p: BodyParts, b: BlockId)
    requires
        sound(p),
        p.sk.blocks.contains(b),
    ensures
        forall|i: int|
            0 <= i < p.ir.at(b)@.insts.len() ==> plain(#[trigger] p.ir.at(b)@.insts[i]) && below(
                p.ir.at(b)@.insts[i],
                p.base(),
            ),
        b != p.sk.header ==> forall|i: int, j: int|
            0 <= i < p.ir.at(b)@.phis.len() && 0 <= j < p.ir.at(b)@.phis[i].args.len()
                ==> p.sk.blocks.contains((#[trigger] p.ir.at(b)@.phis[i].args[j]).0) && p.ir.at(
                b,
            )@.phis[i].args[j].1.0 < p.base(),
        p.ir.at(b)@.term matches TermV::Branch { cond, .. } ==> cond.0 < p.base(),
{
    let q = choose|q: int| 0 <= q < p.sk.blocks.len() && p.sk.blocks[q] == b;
    assert(p.ir.has_block(p.sk.blocks[q]));
    lemma_mentions_below(p.ir, b);
    let d = p.ir.at(b);
    assert forall|i: int| 0 <= i < d@.insts.len() implies plain(#[trigger] d@.insts[i]) && below(
        d@.insts[i],
        p.base(),
    ) by {
        let inst = d.insts@[i];
        assert(d@.insts[i] == inst@);
        assert(inst_below(inst, p.base()));
        assert(reads(inst@) =~= inst.reads());
        assert(writes(inst@) == inst.def());
        lemma_plain(p, b, i);
    }
    if b != p.sk.header {
        assert forall|i: int, j: int|
            0 <= i < d@.phis.len() && 0 <= j < d@.phis[i].args.len() implies p.sk.blocks.contains(
            (#[trigger] d@.phis[i].args[j]).0,
        ) && d@.phis[i].args[j].1.0 < p.base() by {
            let f = d.phis@[i];
            assert(d@.phis[i] == f@);
            assert(phi_below(f, p.base()));
            assert(crate::ctx::arg_values(f.args@)[j] == f.args@[j].1);
            assert(p.ir.at(p.sk.blocks[q]).phis@[i].args@[j] == f.args@[j]);
        }
    }
    if let Term::Branch { cond, .. } = d.term {
        assert(crate::ctx::condition(d.term)[0] == cond);
    }
}

/// The renaming that clone `k` starts with, and what becomes of it.
proof fn lemma_clone(p: BodyParts, k: int)
    requires
        0 <= k < p.sk.blocks.len(),
    ensures
        p.all_blocks()[k] == p.block(p.blocks(k as nat).1, k).0,
        grows(at_term(p, p.blocks(k as nat).1, k).1, p.clones().1),
{
    let n = p.sk.blocks.len();
    lemma_body_len(p, n);
    lemma_clone_at(p, n, k);
    lemma_block_grows(p, p.blocks(k as nat).1, k);
    lemma_blocks_grow(p, (k + 1) as nat, n);
}

/// The body enters a clone as the loop enters the block.
proof fn lemma_enter<A, W>(
    m: Meaning<A, W>,
    p: BodyParts,
    from: BlockId,
    to: BlockId,
    s: State<A, W>,
    t: State<A, W>,
)
    requires
        sound(p),
        p.sk.blocks.contains(from),
        p.sk.blocks.contains(to),
        to != p.sk.header,
        alike(p, s, t),
    ensures
        ({
            let k = p.retarget(to);
            let st = p.blocks(k.0 as nat).1;
            let s1 = entered(m, p.ir.at(to)@.phis, from, s);
            let t1 = entered(m, p.all_blocks()[k.0 as int].phis, p.retarget(from), t);
            let first = at_first(p, st, k.0 as int).0;
            &&& alike(p, s1, t1)
            &&& t1.cell == t.cell
            &&& run(m, first, first.len(), t1) matches Some(u) && alike(p, s1, u) && u.cell == (
            if to == p.sk.latch && p.acc is Some && !p.stores_late() {
                get(m, s1, (p.acc->0).back)
            } else {
                t.cell
            })
        }),
{
    lemma_place(p, to, from);
    lemma_place(p, from, to);
    let k = p.retarget(to).0 as int;
    let st = p.blocks(k as nat).1;
    lemma_clone(p, k);
    lemma_block_grows(p, st, k);
    lemma_code(p, to);
    let fs = p.ir.at(to)@.phis;
    let (gs, r1) = at_phis(p, st, k);
    let last = p.clones().1;
    lemma_phis(p, st, fs, fs.len());
    lemma_grows_on(r1, at_term(p, st, k).1, last);
    assert forall|i: int| 0 <= i < fs.len() implies phi_renamed(
        p,
        last,
        #[trigger] fs[i],
        gs[i],
    ) by {
        assert(phi_renamed(p, r1, fs[i], gs[i]));
        lemma_phi_still(p, r1, last, fs[i], gs[i]);
    }
    lemma_merged(m, p, fs, gs, from, s, t, fs.len());
    let s1 = entered(m, fs, from, s);
    let t1 = entered(m, gs, p.retarget(from), t);
    assert(alike(p, s1, t1));
    let (first, r2) = at_first(p, st, k);
    if to == p.sk.latch && !p.stores_late() && p.acc is Some {
        let a = p.acc->0;
        let n = r1.name(a.back).0;
        lemma_store(p, r1);
        lemma_grows_on(r2, at_term(p, st, k).1, last);
        lemma_has_still(r2, last, a.back, n);
        lemma_imports(a.spec.width, a.spec.float);
        lemma_get(m, p, s1, t1, a.back, n);
        reveal_with_fuel(run, 2);
        assert(first[0] == import(
            None,
            acc_store_symbol(a.spec.width, a.spec.float),
            seq![p.ctx(), n],
        ));
        let u = State { vals: t1.vals, mem: t1.mem, cell: get(m, t1, n) };
        assert(step(m, first[0], t1) == Some(u));
        assert(run(m, first, 1, t1) == Some(u));
    } else {
        assert(first.len() == 0);
    }
}

/// From the first instruction of a block on, the body does what the loop does.
#[verifier::rlimit(60)]
proof fn lemma_from<A, W>(
    m: Meaning<A, W>,
    p: BodyParts,
    b: BlockId,
    s: State<A, W>,
    t: State<A, W>,
    u: State<A, W>,
    cell: A,
    n: nat,
)
    requires
        sound(p),
        p.sk.blocks.contains(b),
        ({
            let k = p.retarget(b).0 as int;
            let first = at_first(p, p.blocks(k as nat).1, k).0;
            run(m, first, first.len(), t) == Some(u)
        }),
        alike(p, s, u),
        u.cell == (if b == p.sk.latch && p.acc is Some && !p.stores_late() {
            get(m, s, (p.acc->0).back)
        } else {
            cell
        }),
    ensures
        agree(m, p, cell, iterate(m, p, b, s, n), call(m, p.all_blocks(), p.retarget(b), t, n + 1)),
    decreases n, 1nat,
{
    if n > 0 {
        lemma_place(p, b, b);
        let k = p.retarget(b).0 as int;
        let st = p.blocks(k as nat).1;
        let end = at_term(p, st, k).1;
        let last = p.clones().1;
        let data = p.ir.at(b)@;
        lemma_clone(p, k);
        lemma_block_grows(p, st, k);
        lemma_code(p, b);
        let (first, r2) = at_first(p, st, k);
        let (own, r3) = at_insts(p, st, k);
        let (tail, r4) = at_last(p, st, k);
        lemma_insts(r2, data.insts, data.insts.len());
        lemma_grows_on(r3, end, last);
        assert forall|i: int| 0 <= i < data.insts.len() implies plain(#[trigger] data.insts[i])
            && below(data.insts[i], p.base()) && renamed(last, data.insts[i], own[i]) by {
            assert(renamed(r3, data.insts[i], own[i]));
            lemma_renamed_still(r3, last, data.insts[i], own[i]);
        }
        lemma_run(m, p, data.insts, own, data.insts.len(), s, u);
        lemma_run_on(m, first, own, own.len(), t);
        lemma_run_on(m, first + own, tail, tail.len(), t);
        assert(p.all_blocks()[k].insts == first + own + tail);
        if let Some(s1) = run(m, data.insts, data.insts.len(), s) {
            let t1 = run(m, own, own.len(), u)->0;
            assert(run(m, first + own, (first + own).len(), t) == Some(t1));
            let t2 = lemma_tail(m, p, b, s1, t1);
            if b == p.sk.latch {
                assert(p.all_blocks()[k].term == TermV::Return(None));
                assert(p.ir.at(b)@.term is Jump);
                if p.acc is Some && !p.stores_late() {
                    let back = (p.acc->0).back;
                    assert forall|i: int| 0 <= i < data.insts.len() implies writes(
                        #[trigger] data.insts[i],
                    ) != Some(back) by {
                        let inst = p.ir.at(b).insts@[i];
                        assert(data.insts[i] == inst@);
                        assert(writes(inst@) == inst.def());
                    }
                    lemma_run_keeps(m, data.insts, data.insts.len(), s, back);
                }
            } else {
                lemma_goes_on(m, p, b, s1, t2, cell, n);
            }
        }
    }
}

/// What a clone does after its own instructions.
proof fn lemma_tail<A, W>(
    m: Meaning<A, W>,
    p: BodyParts,
    b: BlockId,
    s: State<A, W>,
    t: State<A, W>,
) -> (u: State<A, W>)
    requires
        sound(p),
        p.sk.blocks.contains(b),
        alike(p, s, t),
    ensures
        ({
            let k = p.retarget(b).0 as int;
            let tail = at_last(p, p.blocks(k as nat).1, k).0;
            run(m, tail, tail.len(), t) == Some(u)
        }),
        alike(p, s, u),
        u.cell == (if b == p.sk.latch && p.acc is Some && p.stores_late() {
            get(m, s, (p.acc->0).back)
        } else {
            t.cell
        }),
{
    lemma_place(p, b, b);
    let k = p.retarget(b).0 as int;
    let st = p.blocks(k as nat).1;
    lemma_clone(p, k);
    lemma_block_grows(p, st, k);
    let r3 = at_insts(p, st, k).1;
    let (tail, r4) = at_last(p, st, k);
    if b == p.sk.latch && p.stores_late() {
        let a = p.acc->0;
        let n = r3.name(a.back).0;
        let last = p.clones().1;
        lemma_store(p, r3);
        lemma_grows_on(r4, at_term(p, st, k).1, last);
        lemma_has_still(r4, last, a.back, n);
        lemma_imports(a.spec.width, a.spec.float);
        lemma_get(m, p, s, t, a.back, n);
        reveal_with_fuel(run, 2);
        assert(tail[0] == import(
            None,
            acc_store_symbol(a.spec.width, a.spec.float),
            seq![p.ctx(), n],
        ));
        let u = State { vals: t.vals, mem: t.mem, cell: get(m, t, n) };
        assert(step(m, tail[0], t) == Some(u));
        assert(run(m, tail, 1, t) == Some(u));
        u
    } else {
        assert(tail.len() == 0);
        t
    }
}

/// The trailing block of the body returns at once.
proof fn lemma_exit<A, W>(m: Meaning<A, W>, p: BodyParts, from: BlockId, t: State<A, W>, n: nat)
    requires
        n > 0,
        p.sk.blocks.len() < u32::MAX,
    ensures
        call(
            m,
            p.all_blocks(),
            p.exit(),
            entered(m, p.all_blocks()[p.exit().0 as int].phis, from, t),
            n,
        ) == Returned::Done(t),
{
    lemma_body_len(p, p.sk.blocks.len());
    let last = p.all_blocks()[p.exit().0 as int];
    assert(last == BlockV { phis: seq![], insts: seq![], term: TermV::Return(None) });
    assert(entered(m, last.phis, from, t) == t);
}

/// Behind a block that is not the latch, the body goes where the loop goes.
#[verifier::rlimit(60)]
proof fn lemma_goes_on<A, W>(
    m: Meaning<A, W>,
    p: BodyParts,
    b: BlockId,
    s: State<A, W>,
    t: State<A, W>,
    cell: A,
    n: nat,
)
    requires
        sound(p),
        p.sk.blocks.contains(b),
        b != p.sk.latch,
        alike(p, s, t),
        t.cell == cell,
        n > 0,
    ensures
        ({
            let k = p.retarget(b).0 as int;
            agree(
                m,
                p,
                cell,
                match next(m, p.ir.at(b)@.term, s) {
                    None => Ended::Left(s),
                    Some(to) => if to == p.sk.header {
                        Ended::Back(s)
                    } else if p.sk.blocks.contains(to) {
                        iterate(m, p, to, entered(m, p.ir.at(to)@.phis, b, s), (n - 1) as nat)
                    } else {
                        Ended::Left(s)
                    },
                },
                match next(m, p.all_blocks()[k].term, t) {
                    None => Returned::Done(t),
                    Some(to) => call(
                        m,
                        p.all_blocks(),
                        to,
                        entered(m, p.all_blocks()[to.0 as int].phis, p.retarget(b), t),
                        n,
                    ),
                },
            )
        }),
    decreases n, 0nat,
{
    lemma_place(p, b, b);
    let k = p.retarget(b).0 as int;
    let st = p.blocks(k as nat).1;
    lemma_clone(p, k);
    lemma_block_grows(p, st, k);
    lemma_code(p, b);
    let r4 = at_last(p, st, k).1;
    let term = p.ir.at(b)@.term;
    lemma_term(p, r4, term);
    if let TermV::Branch { cond, .. } = term {
        lemma_has_still(at_term(p, st, k).1, p.clones().1, cond, r4.name(cond).0);
        lemma_get(m, p, s, t, cond, r4.name(cond).0);
    }
    if let Some(to) = next(m, term, s) {
        let q = choose|q: int| 0 <= q < p.sk.blocks.len() && p.sk.blocks[q] == b;
        let targets = p.ir.at(p.sk.blocks[q]).term.targets();
        assert(to != p.sk.header) by {
            match p.ir.at(b).term {
                Term::Jump(x, _) => {
                    assert(targets[0] == to);
                },
                Term::Branch { t: x, f: y, .. } => {
                    assert(targets[0] == x && targets[1] == y);
                },
                Term::Return(_) => {},
            }
        }
        lemma_exit(m, p, p.retarget(b), t, n);
        match term {
            TermV::Branch { t: x, f: y, .. } => {
                if p.sk.blocks.contains(x) {
                    lemma_place(p, x, b);
                } else {
                    lemma_no_place(p, x);
                }
                if p.sk.blocks.contains(y) {
                    lemma_place(p, y, b);
                } else {
                    lemma_no_place(p, y);
                }
            },
            _ => {
                if p.sk.blocks.contains(to) {
                    lemma_place(p, to, b);
                } else {
                    lemma_no_place(p, to);
                }
            },
        }
        assert(next(m, p.all_blocks()[k].term, t) == Some(p.retarget(to)));
        if p.sk.blocks.contains(to) {
            lemma_enter(m, p, b, to, s, t);
            let j = p.retarget(to);
            let s1 = entered(m, p.ir.at(to)@.phis, b, s);
            let t1 = entered(m, p.all_blocks()[j.0 as int].phis, p.retarget(b), t);
            let first = at_first(p, p.blocks(j.0 as nat).1, j.0 as int).0;
            let u = run(m, first, first.len(), t1)->0;
            lemma_from(m, p, to, s1, t1, u, cell, (n - 1) as nat);
        }
    }
}

/// What comes back around the loop is a value of the function.
proof fn lemma_back(ir: FuncIr, header: BlockId, kind: RegionKind)
    requires
        ir.has_block(header),
        region_parts(ir, header, kind) is Some,
    ensures
        (region_parts(ir, header, kind)->0).acc matches Some(a) ==> a.back.0 < ir.first_free(),
{
    let sk = skeleton_of(ir, header)->0;
    if let RegionKind::Reduction(op) = kind {
        let phis = ir.at(header).phis@;
        lemma_mentions_below(ir, header);
        lemma_first_where(phis, merges_other(sk.iv_dst));
        let k = only_where(phis, merges_other(sk.iv_dst))->0;
        let args = phis[k].args@;
        lemma_first_where(args, returns_from(sk.blocks));
        let r = first_where(args, returns_from(sk.blocks))->0;
        assert(accumulator_of(ir, sk, op) is Some);
        assert(phi_below(phis[k], ir.first_free()));
        assert(crate::ctx::arg_values(args)[r] == args[r].1);
    }
}

/// A loop that is taken out goes round.
proof fn lemma_goes_round(ir: FuncIr, header: BlockId, kind: RegionKind)
    requires
        ir.has_block(header),
        region_parts(ir, header, kind) is Some,
    ensures
        goes_round(region_parts(ir, header, kind)->0),
{
    let p = region_parts(ir, header, kind)->0;
    let data = ir.at(header);
    lemma_first_where(data.preds@, goes_back(header, p.sk.blocks));
    if let Some(a) = p.acc {
        if !a.in_latch {
            let q = defines(a.back);
            assert forall|k: int| 0 <= k < ir.at(p.sk.latch).insts@.len() implies (
            #[trigger] ir.at(p.sk.latch).insts@[k]).def() != Some(a.back) by {
                assert(!q(ir.at(p.sk.latch).insts@[k]));
            }
        }
    }
}

/// One call of the body does what one iteration of the loop does, whatever instructions
/// compute.
///
/// The iteration starts at the header with what the loop does not compute itself. It
/// passes no more than `n` blocks; where it takes more, nothing is said. The call ends
/// with an error exactly where the iteration does; otherwise memory is the same
/// afterwards. After a full round the cell holds the accumulator that comes back around
/// the loop, and where the loop is left the cell is as it was.
pub proof fn law_one_call_is_one_iteration<A, W>(
    m: Meaning<A, W>,
    ir: FuncIr,
    header: BlockId,
    kind: RegionKind,
    s: State<A, W>,
    ctx: A,
    n: nat,
)
    requires
        ir.wf(),
        ir.blocks@.len() < u32::MAX,
        ir.has_block(header),
        region_parts(ir, header, kind) is Some,
        begins(m, region_parts(ir, header, kind)->0, s, ctx),
    ensures
        ({
            let p = region_parts(ir, header, kind)->0;
            agree(
                m,
                p,
                s.cell,
                iterate(m, p, header, s, n),
                call(m, p.all_blocks(), BlockId(0), passed(p, s, ctx), n + 1),
            )
        }),
{
    let p = region_parts(ir, header, kind)->0;
    lemma_bound_names(ir, header, kind);
    lemma_names_are_distinct(p);
    lemma_loop_members(ir, header, ir.blocks@.len());
    let blocks = p.sk.blocks;
    assert(blocks == natural_loop(ir, header));
    assert(blocks[0] == header && p.sk.header == header);
    assert forall|i: int| 0 <= i < blocks.len() implies ir.has_block(#[trigger] blocks[i]) by {
        assert(natural_loop(ir, header).contains(blocks[i]));
        assert(in_loop(ir, header, blocks[i]));
    }
    lemma_back(ir, header, kind);
    lemma_goes_round(ir, header, kind);
    assert(sound(p));
    lemma_place(p, header, header);
    lemma_first_where(blocks, is_block(header));
    assert(is_block(header)(blocks[0]));
    assert(p.retarget(header) == BlockId(0));
    lemma_preamble(m, p, s, ctx);
    let start = passed(p, s, ctx);
    let u = run(m, p.preamble(), p.preamble().len(), start)->0;
    lemma_from(m, p, header, s, start, u, s.cell, n);
}

} // verus!
