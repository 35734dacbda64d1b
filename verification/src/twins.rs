//! Two runs of one iteration: they differ only where the accumulator and the elements that
//! the iteration does not touch differ.
//!
//! Instructions mean what they mean to the interpreter. Memory is one value for each
//! element of each array; two arrays have no element in common.
use vstd::prelude::*;

use crate::access::{
    affine_form, combined, constant_form, index_form, lemma_combined, lemma_wraps, turned, wraps_to,
    MAX_CHAIN,
};
use crate::body::BodyParts;
use crate::canon::latch_step;
use crate::ctx::calls_allowed;
use crate::deps::Affine;
use crate::floats::FloatWorld;
use crate::folds::{chain_value, operated, outcome};
use crate::interp::{cast_value, minmax_value, unary_value};
use crate::ir::{
    defines, BlockId, Constant, FuncIr, Inst, InstV, LocalId, Phi, Term, ValueId,
};
use crate::iterate::{
    entered, get, iterate, merged, next, operands, reads, run, shape, step, taken, worked, writes,
    Ended, Meaning, State,
};
use crate::operators::const_value;
use crate::outline::{
    counts_up, from_block, merges_into, never_returns, only_tests, quiet, stays_inside, steady,
    turns,
};
use crate::reduce::{chain_op, strays, Accumulator};
use crate::search::{first_where, lemma_first_where};
use crate::value::Value;

verus! {

// ---------------------------------------------------------------------------
// What instructions mean
// ---------------------------------------------------------------------------

/// The elements of all arrays.
pub type Cells = Map<(LocalId, int), Value>;

/// What the instructions of a loop depend on besides their operands and memory.
pub struct World {
    pub floats: FloatWorld,
    /// The lengths of the arrays.
    pub lens: spec_fn(LocalId) -> int,
    /// What calls other than `min` and `max` give.
    pub other: spec_fn(Seq<char>, Seq<Value>, Seq<LocalId>) -> Option<Value>,
    /// What an import finds in a context at an offset.
    pub context: spec_fn(Seq<char>, Value, Value) -> Value,
}

/// The element that a subscript selects, if there is one.
pub open spec fn placed(o: World, arr: LocalId, v: Value) -> Option<(LocalId, int)> {
    match v {
        Value::I64(x) => if 0 <= x < (o.lens)(arr) {
            Some((arr, x as int))
        } else {
            None
        },
        _ => None,
    }
}

/// What an instruction that does not touch memory computes. Arrays are not made here.
pub open spec fn computed(o: World, i: InstV, xs: Seq<Value>) -> Option<Value> {
    match i {
        InstV::Bin { op, .. } => operated(o.floats, op, xs[0], xs[1]),
        InstV::Unary { op, .. } => outcome(unary_value(o.floats, op, xs[0])),
        InstV::Cast { to, .. } => Some(cast_value(o.floats, xs[0], to)),
        InstV::Call { callee, arr_refs, .. } => if callee == "min"@ || callee == "max"@ {
            outcome(minmax_value(o.floats, callee == "min"@, xs[0], xs[1]))
        } else if callee == "zeros"@ {
            None
        } else {
            (o.other)(callee, xs, arr_refs)
        },
        _ => None,
    }
}

/// What an instruction makes of its operands and of memory.
pub open spec fn worked_out(o: World, i: InstV, xs: Seq<Value>, mem: Cells) -> Option<
    (Value, Cells),
> {
    match i {
        InstV::Load(l) => match placed(o, l.arr, xs[0]) {
            Some(c) => Some((mem[c], mem)),
            None => None,
        },
        InstV::Store { arr, .. } => match placed(o, arr, xs[0]) {
            Some(c) => Some((Value::Unit, mem.insert(c, xs[1]))),
            None => None,
        },
        _ => match computed(o, i, xs) {
            Some(v) => Some((v, mem)),
            None => None,
        },
    }
}

/// Instructions mean what they mean to the interpreter.
pub open spec fn meaning(o: World) -> Meaning<Value, Cells> {
    Meaning {
        unset: Value::Unit,
        literal: |c: Constant| const_value(c),
        holds: |v: Value| v == Value::Bool(true),
        captured: o.context,
        work: |i: InstV, xs: Seq<Value>, mem: Cells| worked_out(o, i, xs, mem),
    }
}

// ---------------------------------------------------------------------------
// Affine values
// ---------------------------------------------------------------------------

/// The affine form of a value, found through at most `d` definitions.
pub open spec fn form(func: FuncIr, blocks: Seq<BlockId>, iv: ValueId, v: ValueId, d: nat) -> Option<
    Affine,
>
    decreases d,
{
    if d == 0 {
        None
    } else if v == iv {
        Some(Affine { a: 1, b: 0 })
    } else if !blocks.contains(func.home(v)) {
        constant_form(func.literal(v))
    } else {
        match func.def_inst(v) {
            Some(Inst::Const { c, .. }) => constant_form(c.int_value()),
            Some(Inst::Bin { op, a, b, .. }) => combined(
                op,
                form(func, blocks, iv, a, (d - 1) as nat),
                form(func, blocks, iv, b, (d - 1) as nat),
            ),
            _ => None,
        }
    }
}

/// More definitions change no form.
proof fn lemma_form_grows(
    func: FuncIr,
    blocks: Seq<BlockId>,
    iv: ValueId,
    v: ValueId,
    d: nat,
    e: nat,
)
    requires
        d <= e,
        form(func, blocks, iv, v, d) is Some,
    ensures
        form(func, blocks, iv, v, e) == form(func, blocks, iv, v, d),
    decreases d,
{
    if d > 0 && v != iv && blocks.contains(func.home(v)) {
        if let Some(Inst::Bin { a, b, .. }) = func.def_inst(v) {
            if form(func, blocks, iv, a, (d - 1) as nat) is Some && form(
                func,
                blocks,
                iv,
                b,
                (d - 1) as nat,
            ) is Some {
                lemma_form_grows(func, blocks, iv, a, (d - 1) as nat, (e - 1) as nat);
                lemma_form_grows(func, blocks, iv, b, (d - 1) as nat, (e - 1) as nat);
            }
        }
    }
}

/// The form is found through some number of definitions.
pub open spec fn has_form(
    func: FuncIr,
    blocks: Seq<BlockId>,
    iv: ValueId,
    v: ValueId,
    g: Affine,
) -> bool {
    exists|d: nat| #[trigger] form(func, blocks, iv, v, d) == Some(g)
}

/// Everything remembered is a form.
spec fn memo_holds(
    func: FuncIr,
    blocks: Seq<BlockId>,
    iv: ValueId,
    memo: Map<u32, Option<Affine>>,
) -> bool {
    forall|k: u32| #[trigger]
        memo.dom().contains(k) ==> (memo[k] matches Some(g) ==> has_form(
            func,
            blocks,
            iv,
            ValueId(k),
            g,
        ))
}

/// What the analysis finds is a form.
proof fn lemma_affine_is_form(
    func: FuncIr,
    blocks: Seq<BlockId>,
    iv: ValueId,
    v: ValueId,
    memo: Map<u32, Option<Affine>>,
    depth: nat,
)
    requires
        memo_holds(func, blocks, iv, memo),
    ensures
        ({
            let (r, after) = affine_form(func, blocks, iv, v, memo, depth);
            &&& r matches Some(g) ==> has_form(func, blocks, iv, v, g)
            &&& memo_holds(func, blocks, iv, after)
        }),
    decreases MAX_CHAIN + 1 - depth,
{
    if depth > MAX_CHAIN {
    } else if memo.dom().contains(v.0) {
        assert(ValueId(v.0) == v);
    } else {
        let (r, after) = affine_form(func, blocks, iv, v, memo, depth);
        if v == iv || !blocks.contains(func.home(v)) {
            if let Some(g) = r {
                assert(form(func, blocks, iv, v, 1) == Some(g));
            }
        } else {
            match func.def_inst(v) {
                Some(Inst::Bin { op, a, b, .. }) => {
                    let (l, m1) = affine_form(func, blocks, iv, a, memo, depth + 1);
                    let (s, m2) = affine_form(func, blocks, iv, b, m1, depth + 1);
                    lemma_affine_is_form(func, blocks, iv, a, memo, depth + 1);
                    lemma_affine_is_form(func, blocks, iv, b, m1, depth + 1);
                    if let Some(g) = r {
                        let da = choose|d: nat| #[trigger] form(func, blocks, iv, a, d) == l;
                        let db = choose|d: nat| #[trigger] form(func, blocks, iv, b, d) == s;
                        let d = if da < db {
                            db
                        } else {
                            da
                        };
                        lemma_form_grows(func, blocks, iv, a, da, d);
                        lemma_form_grows(func, blocks, iv, b, db, d);
                        assert(form(func, blocks, iv, v, d + 1) == Some(g));
                    }
                },
                _ => {
                    if let Some(g) = r {
                        assert(form(func, blocks, iv, v, 1) == Some(g));
                    }
                },
            }
        }
        assert(ValueId(v.0) == v);
    }
}

/// The form of an index is a form.
proof fn lemma_index_form(func: FuncIr, blocks: Seq<BlockId>, iv: ValueId, v: ValueId)
    ensures
        index_form(func, blocks, iv, v) matches Some(g) ==> has_form(func, blocks, iv, v, g),
{
    lemma_affine_is_form(func, blocks, iv, v, Map::empty(), 0);
}

// ---------------------------------------------------------------------------
// What an iteration touches
// ---------------------------------------------------------------------------

/// The instruction may touch the element in iteration `i`.
pub open spec fn inst_touches(p: BodyParts, inst: Inst, i: int, c: (LocalId, int)) -> bool {
    match inst {
        Inst::Load(l) => c.0 == l.arr && (index_form(
            p.ir,
            p.sk.blocks,
            p.sk.iv_dst,
            l.idx,
        ) matches Some(g) ==> c.1 == g.at(i)),
        _ => inst_writes(p, inst, i, c),
    }
}

/// The instruction may write the element in iteration `i`.
pub open spec fn inst_writes(p: BodyParts, inst: Inst, i: int, c: (LocalId, int)) -> bool {
    match inst {
        Inst::Store { arr, idx, .. } => c.0 == arr && (index_form(
            p.ir,
            p.sk.blocks,
            p.sk.iv_dst,
            idx,
        ) matches Some(g) && c.1 == g.at(i)),
        _ => false,
    }
}

/// Iteration `i` may touch the element.
pub open spec fn touched(p: BodyParts, i: int, c: (LocalId, int)) -> bool {
    exists|b: BlockId, k: int|
        p.sk.blocks.contains(b) && 0 <= k < p.ir.at(b).insts@.len() && inst_touches(
            p,
            #[trigger] p.ir.at(b).insts@[k],
            i,
            c,
        )
}

/// Iteration `i` may write the element.
pub open spec fn written(p: BodyParts, i: int, c: (LocalId, int)) -> bool {
    exists|b: BlockId, k: int|
        p.sk.blocks.contains(b) && 0 <= k < p.ir.at(b).insts@.len() && inst_writes(
            p,
            #[trigger] p.ir.at(b).insts@[k],
            i,
            c,
        )
}

/// The analysis can read the subscript of every write, and at iteration `i` no subscript
/// that it can read wraps around.
pub open spec fn readable(p: BodyParts, i: int) -> bool {
    forall|b: BlockId, k: int|
        p.sk.blocks.contains(b) && 0 <= k < p.ir.at(b).insts@.len() ==> match (
        #[trigger] p.ir.at(b).insts@[k]) {
            Inst::Load(l) => index_form(p.ir, p.sk.blocks, p.sk.iv_dst, l.idx) matches Some(g)
                ==> i64::MIN <= g.at(i) <= i64::MAX,
            Inst::Store { idx, .. } => index_form(
                p.ir,
                p.sk.blocks,
                p.sk.iv_dst,
                idx,
            ) matches Some(g) && i64::MIN <= g.at(i) <= i64::MAX,
            _ => true,
        }
}

/// Every value has one definition, which does not read it.
pub open spec fn single(ir: FuncIr) -> bool {
    &&& forall|b: BlockId, k: int|
        ir.has_block(b) && 0 <= k < ir.at(b).insts@.len() ==> ((#[trigger] ir.at(
            b,
        ).insts@[k]).def() matches Some(v) ==> ir.def_inst(v) == Some(ir.at(b).insts@[k])
            && ir.home(v) == b && !ir.at(b).insts@[k].reads().contains(v))
    &&& forall|b: BlockId, k: int|
        ir.has_block(b) && 0 <= k < ir.at(b).phis@.len() ==> ir.def_inst(
            (#[trigger] ir.at(b).phis@[k]).dst,
        ) is None && ir.home(ir.at(b).phis@[k].dst) == b
}

/// The phi of the induction value.
pub open spec fn iv_phi(p: BodyParts) -> Phi {
    let phis = p.ir.at(p.sk.header).phis@;
    phis[first_where(phis, merges_into(p.sk.iv_dst))->0]
}

/// What comes back to the induction value.
pub open spec fn iv_back(p: BodyParts) -> ValueId {
    let args = iv_phi(p).args@;
    args[first_where(args, from_block(p.sk.latch))->0].1
}

/// The accumulator, as the analysis knows it.
pub open spec fn chain_of(p: BodyParts) -> Accumulator {
    Accumulator { phi: p.acc->0.dst, chain: p.acc->0.back }
}

/// The condition of the header.
pub open spec fn header_cond(p: BodyParts) -> ValueId {
    p.ir.at(p.sk.header).term->cond
}

/// What a loop is like that was taken out of its function.
pub open spec fn shaped(p: BodyParts) -> bool {
    let ir = p.ir;
    let h = p.sk.header;
    let blocks = p.sk.blocks;
    &&& forall|k: int| 0 <= k < blocks.len() ==> ir.has_block(#[trigger] blocks[k])
    &&& blocks.contains(h)
    &&& blocks.contains(p.sk.latch)
    &&& p.sk.latch != h
    &&& never_returns(ir, blocks)
    &&& stays_inside(ir, h, blocks)
    &&& turns(ir, h, blocks, p.sk.latch)
    &&& ir.at(h).term matches Term::Branch { cond, t, f } && blocks.contains(t) && !blocks.contains(
        f,
    )
    &&& ir.def_inst(header_cond(p)) matches Some(Inst::Bin { op, a, b, .. }) && op is Lt && a
        == p.sk.iv_dst && b == p.sk.end
    &&& only_tests(ir.at(h), header_cond(p))
    &&& steady(ir, blocks, p.sk.end)
    &&& first_where(ir.at(h).phis@, merges_into(p.sk.iv_dst)) is Some
    &&& counts_up(ir, blocks, p.sk.latch, iv_phi(p))
    &&& calls_allowed(ir, blocks)
    &&& p.acc is Some ==> chain_op(ir, chain_of(p)) == Some(p.acc->0.spec.op) && !strays(ir, blocks, chain_of(p))
        && (exists|k: int|
        0 <= k < ir.at(h).phis@.len() && (#[trigger] ir.at(h).phis@[k]).dst == p.acc->0.dst)
        && p.acc->0.dst != p.sk.iv_dst && blocks.contains(ir.home(p.acc->0.back))
    &&& forall|k: int|
        0 <= k < p.scalars.len() ==> !blocks.contains(
            ir.home(ValueId((#[trigger] p.scalars[k]).0)),
        )
}

/// One iteration of a loop: which one, where the loop ends, what it captures, and how its
/// accumulator is combined.
#[verifier::reject_recursive_types(B)]
pub struct Case<B> {
    pub o: World,
    pub p: BodyParts,
    /// The values from outside the loop.
    pub base: Map<ValueId, Value>,
    pub i: i64,
    pub end: i64,
    /// The value of an accumulator.
    pub e: spec_fn(B) -> Value,
    pub f: spec_fn(B, B) -> B,
    /// The term that an operand of the chain stands for.
    pub g: spec_fn(Value) -> Option<B>,
}

/// The loop ends before `end`; constants from outside are what they are.
pub open spec fn grounded(p: BodyParts, base: Map<ValueId, Value>, end: i64) -> bool {
    &&& match p.ir.literal(p.sk.end) {
        Some(n) => end == n,
        None => base[p.sk.end] == Value::I64(end),
    }
    &&& forall|v: ValueId|
        (#[trigger] p.ir.def_inst(v)) matches Some(Inst::Const { c, .. }) ==> base[v]
            == const_value(c)
}

/// The chain combines the accumulator with a term.
pub open spec fn folds<B>(
    o: World,
    p: BodyParts,
    e: spec_fn(B) -> Value,
    f: spec_fn(B, B) -> B,
    g: spec_fn(Value) -> Option<B>,
) -> bool {
    p.acc is Some ==> forall|x: B, t: Value| #[trigger]
        chain_value(o.floats, p.ir.def_inst(p.acc->0.back)->0, chain_of(p), e(x), t) == (match g(
            t,
        ) {
            Some(n) => Some(e(f(x, n))),
            None => None,
        })
}

impl<B> Case<B> {
    /// What the laws about an iteration rest on.
    pub open spec fn fits(self) -> bool {
        &&& shaped(self.p)
        &&& single(self.p.ir)
        &&& grounded(self.p, self.base, self.end)
        &&& folds(self.o, self.p, self.e, self.f, self.g)
        &&& self.i < self.end ==> readable(self.p, self.i as int)
    }

    pub open spec fn m(self) -> Meaning<Value, Cells> {
        meaning(self.o)
    }

    /// The form of a value.
    pub open spec fn form(self, v: ValueId, d: nat) -> Option<Affine> {
        form(self.p.ir, self.p.sk.blocks, self.p.sk.iv_dst, v, d)
    }

    /// `v` is a version of the accumulator.
    pub open spec fn is_acc(self, v: ValueId) -> bool {
        self.p.acc is Some && chain_of(self.p).is(v)
    }
}

/// What holds of the values that an iteration has computed.
pub open spec fn facts<B>(c: Case<B>, vals: Map<ValueId, Value>) -> bool {
    &&& vals.dom().contains(c.p.sk.iv_dst)
    &&& vals[c.p.sk.iv_dst] == Value::I64(c.i)
    &&& forall|v: ValueId| #[trigger]
        vals.dom().contains(v) ==> (c.p.ir.def_inst(v) matches Some(Inst::Const { c: k, .. })
            ==> vals[v] == const_value(k))
    &&& forall|v: ValueId| #[trigger]
        vals.dom().contains(v) ==> (v != c.p.sk.iv_dst && !c.is_acc(v)
            && !c.p.sk.blocks.contains(c.p.ir.home(v)) ==> vals[v] == c.base[v])
    &&& forall|v: ValueId, d: nat|
        #![trigger vals.dom().contains(v), c.form(v, d)]
        vals.dom().contains(v) && vals[v] is I64 ==> (c.form(v, d) matches Some(g) ==> wraps_to(
            vals[v]->I64_0 as int,
            g.at(c.i as int),
        ))
    &&& vals.dom().contains(header_cond(c.p)) ==> vals[header_cond(c.p)] == Value::Bool(
        c.i < c.end,
    )
    &&& vals.dom().contains(iv_back(c.p)) ==> vals[iv_back(c.p)] == Value::I64(
        c.i.wrapping_add(1),
    )
}

/// The two memories hold the same at the element.
pub open spec fn same(w: Cells, u: Cells, c: (LocalId, int)) -> bool {
    w.dom().contains(c) == u.dom().contains(c) && w[c] == u[c]
}

/// The memories hold the same at every element that the iteration may touch.
pub open spec fn alike(p: BodyParts, i: int, w: Cells, u: Cells) -> bool {
    forall|c: (LocalId, int)| #[trigger] touched(p, i, c) ==> same(w, u, c)
}

/// Only elements that the iteration may write have changed.
pub open spec fn framed(p: BodyParts, i: int, w: Cells, u: Cells) -> bool {
    forall|c: (LocalId, int)| #[trigger] written(p, i, c) || same(w, u, c)
}

/// The chains of two runs come from one term.
pub open spec fn one_term<B>(c: Case<B>, x: B, y: B, v: Value, u: Value) -> bool {
    exists|t: B| v == (c.e)(#[trigger] (c.f)(x, t)) && u == (c.e)((c.f)(y, t))
}

/// Two runs of an iteration, from the accumulators `x` and `y`, are at the same place.
pub open spec fn twin<B>(
    c: Case<B>,
    x: B,
    y: B,
    s: State<Value, Cells>,
    t: State<Value, Cells>,
) -> bool {
    &&& s.vals.dom() == t.vals.dom()
    &&& forall|v: ValueId| #[trigger] s.vals.dom().contains(v) && !c.is_acc(v) ==> s.vals[v] == t.vals[v]
    &&& c.p.acc matches Some(a) ==> {
        &&& s.vals.dom().contains(a.dst)
        &&& s.vals[a.dst] == (c.e)(x)
        &&& t.vals[a.dst] == (c.e)(y)
        &&& s.vals.dom().contains(a.back) ==> one_term(c, x, y, s.vals[a.back], t.vals[a.back])
    }
    &&& alike(c.p, c.i as int, s.mem, t.mem)
}

/// What an instruction of the loop does.
proof fn lemma_work<B>(c: Case<B>, b: BlockId, k: int, s: State<Value, Cells>)
    requires
        c.fits(),
        c.p.sk.blocks.contains(b),
        0 <= k < c.p.ir.at(b).insts@.len(),
    ensures
        ({
            let inst = c.p.ir.at(b).insts@[k];
            let xs = operands(c.m(), s, inst@);
            &&& step(c.m(), inst@, s) == worked(c.m(), inst@, s)
            &&& xs.len() == inst.reads().len()
            &&& forall|j: int| 0 <= j < xs.len() ==> #[trigger] xs[j] == get(
                c.m(),
                s,
                inst.reads()[j],
            )
            &&& inst matches Inst::Const { dst, c: n } ==> step(c.m(), inst@, s) == Some(
                State { vals: s.vals.insert(dst, const_value(n)), mem: s.mem, cell: s.cell },
            )
            &&& !(inst is Const) ==> step(c.m(), inst@, s) == (match worked_out(
                c.o,
                shape(inst@),
                xs,
                s.mem,
            ) {
                Some((v, mem)) => Some(
                    State {
                        vals: match inst.def() {
                            Some(d) => s.vals.insert(d, v),
                            None => s.vals,
                        },
                        mem,
                        cell: s.cell,
                    },
                ),
                None => None,
            })
        }),
{
    let inst = c.p.ir.at(b).insts@[k];
    let q = choose|q: int| 0 <= q < c.p.sk.blocks.len() && c.p.sk.blocks[q] == b;
    assert(c.p.ir.at(c.p.sk.blocks[q]).insts@[k] == inst);
    crate::iterate::lemma_plain(c.p, b, k);
    assert(reads(inst@) =~= inst.reads());
    assert(writes(inst@) == inst.def());
}

/// A value that is a 64-bit integer was computed.
proof fn lemma_set<B>(c: Case<B>, s: State<Value, Cells>, v: ValueId)
    requires
        get(c.m(), s, v) is I64,
    ensures
        s.vals.dom().contains(v),
        get(c.m(), s, v) == s.vals[v],
{
}

/// The form of what an operator computes.
proof fn lemma_form_step<B>(c: Case<B>, b: BlockId, k: int, s: State<Value, Cells>, d: nat)
    requires
        c.fits(),
        c.p.sk.blocks.contains(b),
        0 <= k < c.p.ir.at(b).insts@.len(),
        facts(c, s.vals),
        step(c.m(), c.p.ir.at(b).insts@[k]@, s) is Some,
        c.p.ir.at(b).insts@[k].def() is Some,
    ensures
        ({
            let v = c.p.ir.at(b).insts@[k].def()->0;
            let t = step(c.m(), c.p.ir.at(b).insts@[k]@, s)->0;
            t.vals[v] is I64 ==> (c.form(v, d) matches Some(g) ==> wraps_to(
                t.vals[v]->I64_0 as int,
                g.at(c.i as int),
            ))
        }),
{
    let inst = c.p.ir.at(b).insts@[k];
    let v = inst.def()->0;
    let t = step(c.m(), inst@, s)->0;
    lemma_work(c, b, k, s);
    assert(c.p.ir.has_block(b)) by {
        let q = choose|q: int| 0 <= q < c.p.sk.blocks.len() && c.p.sk.blocks[q] == b;
        assert(c.p.ir.has_block(c.p.sk.blocks[q]));
    }
    lemma_iv_is_phi(c);
    assert(v != c.p.sk.iv_dst);
    if t.vals[v] is I64 && c.form(v, d) is Some {
        let g = c.form(v, d)->0;
        let z = t.vals[v]->I64_0;
        match inst {
            Inst::Const { c: n, .. } => {
                assert(g.at(c.i as int) == z) by {
                    assert(g.a == 0 && g.b == z);
                    assert(0 * (c.i as int) == 0);
                }
                assert(z == turned(g.at(c.i as int), 0));
            },
            Inst::Bin { op, a, b: e, .. } => {
                let xs = operands(c.m(), s, inst@);
                assert(inst.reads()[0] == a && inst.reads()[1] == e);
                assert(xs[0] == get(c.m(), s, a) && xs[1] == get(c.m(), s, e));
                assert(operated(c.o.floats, op, xs[0], xs[1]) == Some(Value::I64(z)));
                let ga = c.form(a, (d - 1) as nat);
                let ge = c.form(e, (d - 1) as nat);
                assert(combined(op, ga, ge) == Some(g));
                assert(xs[0] is I64 && xs[1] is I64);
                lemma_set(c, s, a);
                lemma_set(c, s, e);
                let (za, ze) = (xs[0]->I64_0, xs[1]->I64_0);
                let (ya, ye) = ((ga->0).at(c.i as int), (ge->0).at(c.i as int));
                assert(wraps_to(za as int, ya));
                assert(wraps_to(ze as int, ye));
                lemma_combined(op, ga, ge, ya, ye, c.i as int);
                lemma_wraps(op, za, ze, ya, ye);
            },
            _ => {},
        }
    }
}

/// The induction value and the accumulator are phis of the header.
pub proof fn lemma_iv_is_phi<B>(c: Case<B>)
    requires
        c.fits(),
    ensures
        c.p.ir.has_block(c.p.sk.header),
        c.p.ir.def_inst(c.p.sk.iv_dst) is None,
        c.p.ir.home(c.p.sk.iv_dst) == c.p.sk.header,
        iv_phi(c.p).dst == c.p.sk.iv_dst,
        c.p.acc matches Some(a) ==> c.p.ir.def_inst(a.dst) is None && c.p.ir.home(a.dst)
            == c.p.sk.header && c.p.ir.def_inst(a.back) is Some,
{
    let p = c.p;
    let h = p.sk.header;
    let q = choose|q: int| 0 <= q < p.sk.blocks.len() && p.sk.blocks[q] == h;
    assert(p.ir.has_block(p.sk.blocks[q]));
    let phis = p.ir.at(h).phis@;
    lemma_first_where(phis, merges_into(p.sk.iv_dst));
    let k = first_where(phis, merges_into(p.sk.iv_dst))->0;
    assert(p.ir.at(h).phis@[k].dst == p.sk.iv_dst);
    if let Some(a) = p.acc {
        let j = choose|j: int|
            0 <= j < p.ir.at(h).phis@.len() && (#[trigger] p.ir.at(h).phis@[j]).dst == a.dst;
        assert(p.ir.at(h).phis@[j].dst == a.dst);
    }
}

/// What holds goes on to hold after an instruction.
#[verifier::rlimit(40)]
proof fn lemma_facts_step<B>(c: Case<B>, b: BlockId, k: int, s: State<Value, Cells>)
    requires
        c.fits(),
        c.p.sk.blocks.contains(b),
        0 <= k < c.p.ir.at(b).insts@.len(),
        facts(c, s.vals),
        step(c.m(), c.p.ir.at(b).insts@[k]@, s) is Some,
    ensures
        facts(c, step(c.m(), c.p.ir.at(b).insts@[k]@, s)->0.vals),
{
    let inst = c.p.ir.at(b).insts@[k];
    let t = step(c.m(), inst@, s)->0;
    lemma_work(c, b, k, s);
    lemma_iv_is_phi(c);
    if let Some(v) = inst.def() {
        assert(c.p.ir.has_block(b)) by {
            let q = choose|q: int| 0 <= q < c.p.sk.blocks.len() && c.p.sk.blocks[q] == b;
            assert(c.p.ir.has_block(c.p.sk.blocks[q]));
        }
        assert(c.p.ir.def_inst(v) == Some(inst));
        assert(c.p.ir.home(v) == b);
        let xs = operands(c.m(), s, inst@);
        assert forall|u: ValueId, d: nat|
            #![trigger t.vals.dom().contains(u), c.form(u, d)]
            t.vals.dom().contains(u) && t.vals[u] is I64 implies (c.form(u, d) matches Some(g)
            ==> wraps_to(t.vals[u]->I64_0 as int, g.at(c.i as int))) by {
            if u == v {
                lemma_form_step(c, b, k, s, d);
            } else {
                assert(s.vals.dom().contains(u));
            }
        }
        if v == header_cond(c.p) {
            let a = c.p.sk.iv_dst;
            let e = c.p.sk.end;
            assert(inst.reads()[0] == a && inst.reads()[1] == e);
            assert(xs[0] == get(c.m(), s, a) && xs[1] == get(c.m(), s, e));
            assert(xs[0] == Value::I64(c.i));
            assert(xs[1] is I64);
            lemma_set(c, s, e);
            assert(s.vals[e] == Value::I64(c.end)) by {
                lemma_end_is_no_acc(c);
                if c.p.ir.literal(e) is Some {
                } else {
                    assert(s.vals[e] == c.base[e]);
                }
            }
        }
        if v == iv_back(c.p) {
            lemma_iv_back(c, b, k, s);
        }
    }
}

/// The header computes its condition.
pub proof fn lemma_cond_inst<B>(c: Case<B>) -> (k: int)
    requires
        c.fits(),
    ensures
        0 <= k < c.p.ir.at(c.p.sk.header).insts@.len(),
        c.p.ir.at(c.p.sk.header).insts@[k].def() == Some(header_cond(c.p)),
        c.p.ir.def_inst(header_cond(c.p)) == Some(c.p.ir.at(c.p.sk.header).insts@[k]),
{
    lemma_iv_is_phi(c);
    let insts = c.p.ir.at(c.p.sk.header).insts@;
    let q = defines(header_cond(c.p));
    let k = choose|k: int| 0 <= k < insts.len() && q(#[trigger] insts[k]);
    assert(q(insts[k]));
    assert(c.p.ir.at(c.p.sk.header).insts@[k] == insts[k]);
    k
}

/// No instruction of the loop but the chain reads the accumulator.
proof fn lemma_reads_no_acc<B>(c: Case<B>, b: BlockId, k: int, j: int)
    requires
        c.fits(),
        c.p.sk.blocks.contains(b),
        0 <= k < c.p.ir.at(b).insts@.len(),
        0 <= j < c.p.ir.at(b).insts@[k].reads().len(),
        c.p.acc matches Some(a) ==> c.p.ir.at(b).insts@[k].def() != Some(a.back),
    ensures
        !c.is_acc(c.p.ir.at(b).insts@[k].reads()[j]),
{
    if c.p.acc is Some {
        let acc = chain_of(c.p);
        let inst = c.p.ir.at(b).insts@[k];
        if acc.is(inst.reads()[j]) {
            let q = choose|q: int| 0 <= q < c.p.sk.blocks.len() && c.p.sk.blocks[q] == b;
            assert(crate::reduce::mentions(inst.reads(), acc));
            assert(crate::reduce::inst_strays(c.p.ir.at(b).insts@[k], acc));
            assert(crate::reduce::block_strays(c.p.ir.at(c.p.sk.blocks[q]), acc));
            assert(strays(c.p.ir, c.p.sk.blocks, acc));
        }
    }
}

/// The bound is no version of the accumulator.
proof fn lemma_end_is_no_acc<B>(c: Case<B>)
    requires
        c.fits(),
    ensures
        !c.is_acc(c.p.sk.end),
        c.p.acc matches Some(a) ==> a.back != header_cond(c.p),
{
    let k = lemma_cond_inst(c);
    let inst = c.p.ir.at(c.p.sk.header).insts@[k];
    if let Some(a) = c.p.acc {
        assert(a.back != header_cond(c.p)) by {
            assert(chain_op(c.p.ir, chain_of(c.p)) is Some);
        }
    }
    assert(inst.reads()[1] == c.p.sk.end);
    lemma_reads_no_acc(c, c.p.sk.header, k, 1);
}

/// What comes back to the induction value is one more.
proof fn lemma_iv_back<B>(c: Case<B>, b: BlockId, k: int, s: State<Value, Cells>)
    requires
        c.fits(),
        c.p.sk.blocks.contains(b),
        0 <= k < c.p.ir.at(b).insts@.len(),
        facts(c, s.vals),
        step(c.m(), c.p.ir.at(b).insts@[k]@, s) is Some,
        c.p.ir.at(b).insts@[k].def() == Some(iv_back(c.p)),
    ensures
        step(c.m(), c.p.ir.at(b).insts@[k]@, s)->0.vals[iv_back(c.p)] == Value::I64(
            c.i.wrapping_add(1),
        ),
{
    let inst = c.p.ir.at(b).insts@[k];
    let v = iv_back(c.p);
    lemma_work(c, b, k, s);
    lemma_iv_is_phi(c);
    assert(c.p.ir.has_block(b)) by {
        let q = choose|q: int| 0 <= q < c.p.sk.blocks.len() && c.p.sk.blocks[q] == b;
        assert(c.p.ir.has_block(c.p.sk.blocks[q]));
    }
    assert(latch_step(c.p.ir, iv_phi(c.p), v) == Some(1i64));
    let xs = operands(c.m(), s, inst@);
    if let Inst::Bin { op, a, b: e, .. } = inst {
        assert(inst.reads()[0] == a && inst.reads()[1] == e);
        assert(inst.reads().contains(a) && inst.reads().contains(e));
        assert(xs[0] == get(c.m(), s, a) && xs[1] == get(c.m(), s, e));
        assert(a != v && e != v);
        let other = if a == c.p.sk.iv_dst && c.p.ir.literal(e) is Some {
            e
        } else {
            a
        };
        assert(xs[0] is I64 && xs[1] is I64);
        lemma_set(c, s, a);
        lemma_set(c, s, e);
        assert(s.vals.dom().contains(other));
        assert(c.p.ir.literal(other) == Some(1i64));
    }
}

/// Two runs go on as twins after an instruction, and change nothing but what the
/// iteration may write.
#[verifier::rlimit(60)]
proof fn lemma_twin_step<B>(
    c: Case<B>,
    x: B,
    y: B,
    b: BlockId,
    k: int,
    s: State<Value, Cells>,
    t: State<Value, Cells>,
)
    requires
        c.fits(),
        b == c.p.sk.header || c.i < c.end,
        c.p.sk.blocks.contains(b),
        0 <= k < c.p.ir.at(b).insts@.len(),
        facts(c, s.vals),
        twin(c, x, y, s, t),
        step(c.m(), c.p.ir.at(b).insts@[k]@, s) is Some,
    ensures
        step(c.m(), c.p.ir.at(b).insts@[k]@, t) is Some,
        ({
            let s1 = step(c.m(), c.p.ir.at(b).insts@[k]@, s)->0;
            let t1 = step(c.m(), c.p.ir.at(b).insts@[k]@, t)->0;
            &&& facts(c, s1.vals)
            &&& twin(c, x, y, s1, t1)
            &&& framed(c.p, c.i as int, s.mem, s1.mem)
            &&& framed(c.p, c.i as int, t.mem, t1.mem)
            &&& forall|v: ValueId| #[trigger] s.vals.dom().contains(v) ==> s1.vals.dom().contains(v)
            &&& c.p.ir.at(b).insts@[k].def() matches Some(v) ==> s1.vals.dom().contains(v)
        }),
{
    let inst = c.p.ir.at(b).insts@[k];
    lemma_facts_step(c, b, k, s);
    lemma_work(c, b, k, s);
    lemma_work(c, b, k, t);
    lemma_iv_is_phi(c);
    assert(c.p.ir.has_block(b)) by {
        let q = choose|q: int| 0 <= q < c.p.sk.blocks.len() && c.p.sk.blocks[q] == b;
        assert(c.p.ir.has_block(c.p.sk.blocks[q]));
    }
    let xs = operands(c.m(), s, inst@);
    let ys = operands(c.m(), t, inst@);
    if c.p.acc is Some && inst.def() == Some(c.p.acc->0.back) {
        lemma_twin_chain(c, x, y, b, k, s, t);
    } else {
        assert forall|j: int| 0 <= j < xs.len() implies xs[j] == ys[j] by {
            lemma_reads_no_acc(c, b, k, j);
            assert(xs[j] == get(c.m(), s, inst.reads()[j]));
            assert(ys[j] == get(c.m(), t, inst.reads()[j]));
            assert(s.vals.dom().contains(inst.reads()[j]) == t.vals.dom().contains(
                inst.reads()[j],
            ));
        }
        assert(xs =~= ys);
        match inst {
            Inst::Load(l) => {
                lemma_placed(c, b, k, s);
                let cell = placed(c.o, l.arr, xs[0])->0;
                assert(touched(c.p, c.i as int, cell));
                assert(same(s.mem, t.mem, cell));
            },
            Inst::Store { arr, .. } => {
                lemma_placed(c, b, k, s);
                let cell = placed(c.o, arr, xs[0])->0;
                assert(written(c.p, c.i as int, cell));
            },
            _ => {},
        }
    }
}

/// The element that an access selects is one that the iteration may touch.
proof fn lemma_placed<B>(c: Case<B>, b: BlockId, k: int, s: State<Value, Cells>)
    requires
        c.fits(),
        b == c.p.sk.header || c.i < c.end,
        c.p.sk.blocks.contains(b),
        0 <= k < c.p.ir.at(b).insts@.len(),
        facts(c, s.vals),
        step(c.m(), c.p.ir.at(b).insts@[k]@, s) is Some,
    ensures
        ({
            let inst = c.p.ir.at(b).insts@[k];
            let xs = operands(c.m(), s, inst@);
            &&& inst matches Inst::Load(l) ==> (placed(c.o, l.arr, xs[0]) matches Some(cell)
                && inst_touches(c.p, inst, c.i as int, cell))
            &&& inst matches Inst::Store { arr, .. } ==> (placed(c.o, arr, xs[0]) matches Some(cell)
                && inst_writes(c.p, inst, c.i as int, cell))
        }),
{
    let inst = c.p.ir.at(b).insts@[k];
    lemma_work(c, b, k, s);
    let xs = operands(c.m(), s, inst@);
    let idx = inst.reads()[0];
    if inst is Load || inst is Store {
        assert(c.i < c.end) by {
            if b == c.p.sk.header {
                assert(quiet(c.p.ir.at(b).insts@[k]));
            }
        }
        assert(xs[0] == get(c.m(), s, idx));
        assert(xs[0] is I64);
        lemma_set(c, s, idx);
        lemma_index_form(c.p.ir, c.p.sk.blocks, c.p.sk.iv_dst, idx);
        if let Some(g) = index_form(c.p.ir, c.p.sk.blocks, c.p.sk.iv_dst, idx) {
            let d = choose|d: nat| #[trigger]
                form(c.p.ir, c.p.sk.blocks, c.p.sk.iv_dst, idx, d) == Some(g);
            assert(c.form(idx, d) == Some(g));
            let z = xs[0]->I64_0;
            assert(wraps_to(z as int, g.at(c.i as int)));
            let n = choose|n: int| z == #[trigger] turned(g.at(c.i as int), n);
            assert(i64::MIN <= g.at(c.i as int) <= i64::MAX);
            assert(n == 0);
        }
    }
}

/// The chain combines each accumulator with the same term.
proof fn lemma_twin_chain<B>(
    c: Case<B>,
    x: B,
    y: B,
    b: BlockId,
    k: int,
    s: State<Value, Cells>,
    t: State<Value, Cells>,
)
    requires
        c.fits(),
        c.p.sk.blocks.contains(b),
        0 <= k < c.p.ir.at(b).insts@.len(),
        facts(c, s.vals),
        twin(c, x, y, s, t),
        step(c.m(), c.p.ir.at(b).insts@[k]@, s) is Some,
        c.p.acc is Some,
        c.p.ir.at(b).insts@[k].def() == Some(c.p.acc->0.back),
    ensures
        step(c.m(), c.p.ir.at(b).insts@[k]@, t) is Some,
        ({
            let s1 = step(c.m(), c.p.ir.at(b).insts@[k]@, s)->0;
            let t1 = step(c.m(), c.p.ir.at(b).insts@[k]@, t)->0;
            let a = c.p.acc->0;
            &&& s1.mem == s.mem
            &&& t1.mem == t.mem
            &&& s1.vals == s.vals.insert(a.back, s1.vals[a.back])
            &&& t1.vals == t.vals.insert(a.back, t1.vals[a.back])
            &&& one_term(c, x, y, s1.vals[a.back], t1.vals[a.back])
        }),
{
    let inst = c.p.ir.at(b).insts@[k];
    let a = c.p.acc->0;
    let acc = chain_of(c.p);
    lemma_work(c, b, k, s);
    lemma_work(c, b, k, t);
    lemma_iv_is_phi(c);
    assert(c.p.ir.has_block(b)) by {
        let q = choose|q: int| 0 <= q < c.p.sk.blocks.len() && c.p.sk.blocks[q] == b;
        assert(c.p.ir.has_block(c.p.sk.blocks[q]));
    }
    assert(c.p.ir.def_inst(a.back) == Some(inst));
    let xs = operands(c.m(), s, inst@);
    let ys = operands(c.m(), t, inst@);
    let (u, v) = (inst.reads()[0], inst.reads()[1]);
    assert(inst.reads().len() == 2);
    assert(inst.reads().contains(u) && inst.reads().contains(v));
    assert(u != a.back && v != a.back);
    assert(xs[0] == get(c.m(), s, u) && xs[1] == get(c.m(), s, v));
    assert(ys[0] == get(c.m(), t, u) && ys[1] == get(c.m(), t, v));
    assert(s.vals.dom().contains(u) == t.vals.dom().contains(u));
    assert(s.vals.dom().contains(v) == t.vals.dom().contains(v));
    let term = if acc.is(u) {
        xs[1]
    } else {
        xs[0]
    };
    assert(acc.is(u) ==> !acc.is(v));
    assert(!acc.is(u) ==> acc.is(v));
    assert(computed(c.o, shape(inst@), xs) == chain_value(c.o.floats, inst, acc, (c.e)(x), term));
    assert(computed(c.o, shape(inst@), ys) == chain_value(c.o.floats, inst, acc, (c.e)(y), term));
    let n = (c.g)(term)->0;
    assert((c.e)((c.f)(x, n)) == (c.e)((c.f)(x, n)));
}

/// Frames join.
proof fn lemma_framed(p: BodyParts, i: int, w: Cells, u: Cells, z: Cells)
    requires
        framed(p, i, w, u),
        framed(p, i, u, z),
    ensures
        framed(p, i, w, z),
{
    assert forall|c: (LocalId, int)| #[trigger] written(p, i, c) || same(w, z, c) by {
        assert(written(p, i, c) || same(w, u, c));
        assert(written(p, i, c) || same(u, z, c));
    }
}

/// Two runs go on as twins after the first `n` instructions of a block.
proof fn lemma_twin_run<B>(
    c: Case<B>,
    x: B,
    y: B,
    b: BlockId,
    n: nat,
    s: State<Value, Cells>,
    t: State<Value, Cells>,
)
    requires
        c.fits(),
        b == c.p.sk.header || c.i < c.end,
        c.p.sk.blocks.contains(b),
        n <= c.p.ir.at(b).insts@.len(),
        facts(c, s.vals),
        twin(c, x, y, s, t),
        run(c.m(), c.p.ir.at(b)@.insts, n, s) is Some,
    ensures
        run(c.m(), c.p.ir.at(b)@.insts, n, t) is Some,
        ({
            let s1 = run(c.m(), c.p.ir.at(b)@.insts, n, s)->0;
            let t1 = run(c.m(), c.p.ir.at(b)@.insts, n, t)->0;
            &&& facts(c, s1.vals)
            &&& twin(c, x, y, s1, t1)
            &&& framed(c.p, c.i as int, s.mem, s1.mem)
            &&& framed(c.p, c.i as int, t.mem, t1.mem)
            &&& forall|k: int|
                0 <= k < n ==> ((#[trigger] c.p.ir.at(b).insts@[k]).def() matches Some(v)
                    ==> s1.vals.dom().contains(v))
            &&& (forall|k: int| 0 <= k < n ==> quiet(#[trigger] c.p.ir.at(b).insts@[k]))
                ==> s1.mem == s.mem
        }),
    decreases n,
{
    if n > 0 {
        lemma_twin_run(c, x, y, b, (n - 1) as nat, s, t);
        let s0 = run(c.m(), c.p.ir.at(b)@.insts, (n - 1) as nat, s)->0;
        let t0 = run(c.m(), c.p.ir.at(b)@.insts, (n - 1) as nat, t)->0;
        let inst = c.p.ir.at(b).insts@[n - 1];
        assert(c.p.ir.at(b)@.insts[n - 1] == inst@);
        lemma_twin_step(c, x, y, b, n - 1, s0, t0);
        let s1 = step(c.m(), inst@, s0)->0;
        let t1 = step(c.m(), inst@, t0)->0;
        lemma_framed(c.p, c.i as int, s.mem, s0.mem, s1.mem);
        lemma_framed(c.p, c.i as int, t.mem, t0.mem, t1.mem);
        if forall|k: int| 0 <= k < n ==> quiet(#[trigger] c.p.ir.at(b).insts@[k]) {
            assert(quiet(inst));
            lemma_work(c, b, n - 1, s0);
            assert(s1.mem == s0.mem);
        }
    }
}

/// What a phi takes is one of its arguments.
proof fn lemma_taken(args: Seq<(BlockId, ValueId)>, from: BlockId, k: nat) -> (j: int)
    requires
        taken(args, from, k) is Some,
    ensures
        0 <= j < k,
        args[j].1 == taken(args, from, k)->0,
    decreases k,
{
    if taken(args, from, (k - 1) as nat) is Some {
        lemma_taken(args, from, (k - 1) as nat)
    } else {
        k - 1
    }
}

/// Two runs go on as twins into another block of the loop.
#[verifier::rlimit(40)]
proof fn lemma_twin_merged<B>(
    c: Case<B>,
    x: B,
    y: B,
    from: BlockId,
    to: BlockId,
    s: State<Value, Cells>,
    t: State<Value, Cells>,
    k: nat,
)
    requires
        c.fits(),
        c.p.sk.blocks.contains(to),
        to != c.p.sk.header,
        k <= c.p.ir.at(to).phis@.len(),
        facts(c, s.vals),
        twin(c, x, y, s, t),
    ensures
        ({
            let phis = c.p.ir.at(to)@.phis;
            let s1 = State { vals: merged(c.m(), phis, from, s, k), mem: s.mem, cell: s.cell };
            let t1 = State { vals: merged(c.m(), phis, from, t, k), mem: t.mem, cell: t.cell };
            &&& facts(c, s1.vals)
            &&& twin(c, x, y, s1, t1)
        }),
    decreases k,
{
    if k > 0 {
        lemma_twin_merged(c, x, y, from, to, s, t, (k - 1) as nat);
        let phis = c.p.ir.at(to)@.phis;
        let phi = c.p.ir.at(to).phis@[k - 1];
        assert(phis[k - 1] == phi@);
        lemma_iv_is_phi(c);
        let q = choose|q: int| 0 <= q < c.p.sk.blocks.len() && c.p.sk.blocks[q] == to;
        assert(c.p.ir.has_block(c.p.sk.blocks[q]));
        assert(c.p.ir.def_inst(c.p.ir.at(to).phis@[k - 1].dst) is None);
        assert(c.p.ir.home(phi.dst) == to);
        if taken(phi@.args, from, phi@.args.len()) is Some {
            let v = taken(phi@.args, from, phi@.args.len())->0;
            let j = lemma_taken(phi@.args, from, phi@.args.len());
            assert(phi.args@[j].1 == v);
            if c.is_acc(v) {
                let acc = chain_of(c.p);
                assert(crate::reduce::phi_mentions(phi.args@, acc));
                assert(crate::reduce::phi_strays(c.p.ir.at(to).phis@[k - 1], acc));
                assert(crate::reduce::block_strays(c.p.ir.at(c.p.sk.blocks[q]), acc));
                assert(false);
            }
            assert(s.vals.dom().contains(v) == t.vals.dom().contains(v));
            assert(get(c.m(), s, v) == get(c.m(), t, v));
            let before = merged(c.m(), phis, from, s, (k - 1) as nat);
            let other = merged(c.m(), phis, from, t, (k - 1) as nat);
            let now = before.insert(phi.dst, get(c.m(), s, v));
            let also = other.insert(phi.dst, get(c.m(), t, v));
            assert forall|u: ValueId, d: nat|
                #![trigger now.dom().contains(u), c.form(u, d)]
                now.dom().contains(u) && now[u] is I64 implies (c.form(u, d) matches Some(g)
                ==> wraps_to(now[u]->I64_0 as int, g.at(c.i as int))) by {
                if u == phi.dst {
                    assert(c.form(u, d) is None);
                } else {
                    assert(before.dom().contains(u));
                }
            }
            assert(header_cond(c.p) != phi.dst);
            assert(iv_back(c.p) != phi.dst);
            assert(now.dom() =~= also.dom());
        }
    }
}

/// Two runs of an iteration end alike: a round that comes back comes back in both, as
/// twins; the loop is left only by its header, where its bound is reached.
#[verifier::rlimit(40)]
pub proof fn lemma_twins<B>(
    c: Case<B>,
    x: B,
    y: B,
    b: BlockId,
    s: State<Value, Cells>,
    t: State<Value, Cells>,
    n: nat,
)
    requires
        c.fits(),
        b == c.p.sk.header || c.i < c.end,
        c.p.sk.blocks.contains(b),
        facts(c, s.vals),
        twin(c, x, y, s, t),
    ensures
        match iterate(c.m(), c.p, b, s, n) {
            Ended::Back(s1) => iterate(c.m(), c.p, b, t, n) matches Ended::Back(t1) && facts(
                c,
                s1.vals,
            ) && twin(c, x, y, s1, t1) && framed(c.p, c.i as int, s.mem, s1.mem) && framed(
                c.p,
                c.i as int,
                t.mem,
                t1.mem,
            ) && (b == c.p.sk.header ==> c.i < c.end),
            Ended::Left(s1) => b == c.p.sk.header && c.i >= c.end && s1.mem == s.mem,
            _ => true,
        },
    decreases n,
{
    let m = c.m();
    let p = c.p;
    if n > 0 {
        let data = p.ir.at(b)@;
        assert(data.insts.len() == p.ir.at(b).insts@.len());
        if run(m, data.insts, data.insts.len(), s) is Some {
            lemma_twin_run(c, x, y, b, data.insts.len(), s, t);
            let s1 = run(m, data.insts, data.insts.len(), s)->0;
            let t1 = run(m, data.insts, data.insts.len(), t)->0;
            let q = choose|q: int| 0 <= q < p.sk.blocks.len() && p.sk.blocks[q] == b;
            assert(!(p.ir.at(p.sk.blocks[q]).term is Return));
            let term = p.ir.at(b).term;
            if let Term::Branch { cond, t: yes, f: no } = term {
                if c.is_acc(cond) {
                    assert(crate::reduce::block_strays(p.ir.at(p.sk.blocks[q]), chain_of(p)));
                    assert(false);
                }
                assert(s1.vals.dom().contains(cond) == t1.vals.dom().contains(cond));
                assert(term.targets()[0] == yes && term.targets()[1] == no);
            } else if let Term::Jump(to, _) = term {
                assert(term.targets()[0] == to);
            }
            assert(next(m, data.term, s1) == next(m, data.term, t1));
            let to = next(m, data.term, s1)->0;
            assert(term.targets().contains(to));
            let e = choose|e: int| 0 <= e < term.targets().len() && term.targets()[e] == to;
            assert(p.ir.at(p.sk.blocks[q]).term.targets()[e] == to);
            if b == p.sk.header {
                let k = lemma_cond_inst(c);
                assert(p.ir.at(b).insts@[k].def() == Some(header_cond(p)));
                assert(s1.vals.dom().contains(header_cond(p)));
            }
            if to != p.sk.header && p.sk.blocks.contains(to) {
                let phis = p.ir.at(to)@.phis;
                lemma_twin_merged(c, x, y, b, to, s1, t1, phis.len());
                let s2 = entered(m, phis, b, s1);
                let t2 = entered(m, phis, b, t1);
                lemma_twins(c, x, y, to, s2, t2, (n - 1) as nat);
                if let Ended::Back(s3) = iterate(m, p, to, s2, (n - 1) as nat) {
                    let t3 = iterate(m, p, to, t2, (n - 1) as nat)->Back_0;
                    lemma_framed(p, c.i as int, s.mem, s1.mem, s3.mem);
                    lemma_framed(p, c.i as int, t.mem, t1.mem, t3.mem);
                }
            }
        }
    }
}

} // verus!
