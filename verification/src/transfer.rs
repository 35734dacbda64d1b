//! Blocks of machine code: what they compute, what they hand on, and what they are
//! entered with.
use vstd::prelude::*;

use crate::clif::{
    float_cond, int_cond, scalar_ty, BinaryOp, ClifBlockV, ClifInstV, ClifTy, OpV, UnaryOp, Val,
};
use crate::error::Span;
use crate::floats::FloatWorld;
use crate::interp::{binary_value, cast_value, unary_value, Flow};
use crate::ir::{BinOp, BlockId, Constant, FuncIr, Inst, Phi, Term, UnOp, ValueId};
use crate::lower::{
    const_op, conversion, edge_arg, float_op, int_op, is_float, zero_op, Low, SelfUse,
};
use crate::machine::{added, roomy};
use crate::operators::{const_value, machine_value, scalar, type_of, valued};
use crate::parallel::HookV;
use crate::value::Value;

verus! {

/// What an instruction that neither fails nor touches memory defines, and as what, in the
/// words of the interpreter.
pub open spec fn defined(w: FloatWorld, vals: Map<u32, Value>, i: Inst, span: Span) -> Option<
    (ValueId, Value),
> {
    match i {
        Inst::Const { dst, c } => Some((dst, const_value(c))),
        Inst::Bin { op, dst, a, b } => if !vals.dom().contains(a.0) || !vals.dom().contains(b.0)
            || ((op == BinOp::Div || op == BinOp::Rem) && !is_float(type_of(vals[a.0]))) {
            None
        } else {
            match binary_value(w, op, vals[a.0], vals[b.0], span) {
                Flow::Done(v) => Some((dst, v)),
                _ => None,
            }
        },
        Inst::Unary { op, dst, a } => if !vals.dom().contains(a.0) {
            None
        } else {
            match unary_value(w, op, vals[a.0]) {
                Flow::Done(v) => Some((dst, v)),
                _ => None,
            }
        },
        Inst::Cast { dst, val, to } => if !vals.dom().contains(val.0) {
            None
        } else {
            Some((dst, cast_value(w, vals[val.0], to)))
        },
        _ => None,
    }
}

/// The values after the first `k` instructions; `None` where one of them fails, touches
/// memory, defines a value of another type than the function says, or one that is read by
/// its own definition.
pub open spec fn straight(
    w: FloatWorld,
    l: Low,
    vals: Map<u32, Value>,
    code: Seq<Inst>,
    k: nat,
    span: Span,
) -> Option<Map<u32, Value>>
    decreases k,
{
    if k == 0 {
        Some(vals)
    } else {
        match straight(w, l, vals, code, (k - 1) as nat, span) {
            Some(now) => match defined(w, now, code[k - 1], span) {
                Some((dst, v)) => if l.source_ty(dst) == type_of(v) && scalar(v)
                    && !l.repairs.dom().contains(dst.0) {
                    Some(now.insert(dst.0, v))
                } else {
                    None
                },
                None => None,
            },
            None => None,
        }
    }
}

/// Every value is known to the machine, by one name, and has its type.
pub open spec fn known(l: Low, env: Map<usize, Value>, vals: Map<u32, Value>) -> bool {
    forall|v: u32| #[trigger]
        vals.dom().contains(v) ==> l.vals.dom().contains(v) && !l.repairs.dom().contains(v)
            && env[l.vals[v].0] == vals[v] && l.source_ty(ValueId(v)) == type_of(vals[v]) && scalar(
            vals[v],
        )
}

/// The values after the code that was added to the current block.
pub open spec fn machine_values(w: FloatWorld, l: Low, s: Low, env: Map<usize, Value>) -> Map<
    usize,
    Value,
> {
    valued(w, env, added(l, s, l.cur), added(l, s, l.cur).len())
}

/// The instruction only computes.
pub open spec fn pure(op: OpV) -> bool {
    !(op is Load) && !(op is Store) && !(op is Call) && !(op is Brif) && !(op is Jump) && !(
    op is Return)
}

/// Code that only computes was added to the current block and nothing else; what was there
/// keeps its value.
pub open spec fn adds(w: FloatWorld, l: Low, s: Low, env: Map<usize, Value>, most: nat) -> bool {
    &&& s.wf()
    &&& s.cur == l.cur
    &&& s.vals == l.vals
    &&& s.repairs == l.repairs
    &&& s.ir == l.ir
    &&& s.blocks.len() == l.blocks.len()
    &&& l.tys.len() <= s.tys.len() <= l.tys.len() + most
    &&& forall|k: int| 0 <= k < l.tys.len() ==> #[trigger] s.tys[k] == l.tys[k]
    &&& l.blocks[l.cur as int].insts.len() <= s.blocks[l.cur as int].insts.len()
    &&& forall|k: int|
        0 <= k < l.blocks[l.cur as int].insts.len() ==> #[trigger] s.blocks[l.cur as int].insts[k]
            == l.blocks[l.cur as int].insts[k]
    &&& forall|k: int|
        l.blocks[l.cur as int].insts.len() <= k < s.blocks[l.cur as int].insts.len() ==> pure(
            (#[trigger] s.blocks[l.cur as int].insts[k]).op,
        )
    &&& forall|k: usize| k < l.tys.len() ==> #[trigger] machine_values(w, l, s, env)[k] == env[k]
}

pub proof fn lemma_adds_none(w: FloatWorld, l: Low, env: Map<usize, Value>)
    requires
        l.wf(),
    ensures
        adds(w, l, l, env, 0),
        machine_values(w, l, l, env) == env,
{
    assert(added(l, l, l.cur) =~= seq![]);
}

pub proof fn lemma_adds_one(w: FloatWorld, l: Low, op: OpV, t: ClifTy, env: Map<usize, Value>)
    requires
        l.wf(),
        pure(op),
        l.tys.len() + 16 <= usize::MAX,
    ensures
        adds(w, l, l.ins(op, t), env, 1),
        machine_values(w, l, l.ins(op, t), env) == env.insert(
            l.next().0,
            machine_value(w, op, env),
        ),
{
    let s = l.ins(op, t);
    let made = ClifInstV { op, first: l.tys.len() as usize, count: 1 };
    assert(s.blocks[l.cur as int].insts == l.blocks[l.cur as int].insts.push(made));
    let code = added(l, s, l.cur);
    assert(code =~= seq![made]);
    reveal_with_fuel(valued, 2);
}

/// Values after code that follows.
proof fn lemma_valued_on(
    w: FloatWorld,
    env: Map<usize, Value>,
    a: Seq<ClifInstV>,
    b: Seq<ClifInstV>,
    k: nat,
)
    requires
        k <= b.len(),
    ensures
        valued(w, env, a + b, a.len() + k) == valued(w, valued(w, env, a, a.len()), b, k),
    decreases k,
{
    if k == 0 {
        lemma_valued_prefix(w, env, a, a + b, a.len());
    } else {
        lemma_valued_on(w, env, a, b, (k - 1) as nat);
        assert((a + b)[a.len() + k - 1] == b[k - 1]);
    }
}

pub proof fn lemma_valued_prefix(
    w: FloatWorld,
    env: Map<usize, Value>,
    a: Seq<ClifInstV>,
    b: Seq<ClifInstV>,
    k: nat,
)
    requires
        k <= a.len(),
        k <= b.len(),
        forall|i: int| 0 <= i < k ==> a[i] == b[i],
    ensures
        valued(w, env, a, k) == valued(w, env, b, k),
    decreases k,
{
    if k > 0 {
        lemma_valued_prefix(w, env, a, b, (k - 1) as nat);
    }
}

/// Code after code.
pub proof fn lemma_adds_on(
    w: FloatWorld,
    l: Low,
    s: Low,
    t: Low,
    env: Map<usize, Value>,
    m: nat,
    n: nat,
)
    requires
        adds(w, l, s, env, m),
        adds(w, s, t, machine_values(w, l, s, env), n),
    ensures
        adds(w, l, t, env, m + n),
        machine_values(w, l, t, env) == machine_values(w, s, t, machine_values(w, l, s, env)),
{
    let here = l.cur as int;
    let a = added(l, s, l.cur);
    let b = added(s, t, l.cur);
    assert forall|k: int| 0 <= k < l.blocks[here].insts.len() implies
        #[trigger] t.blocks[here].insts[k] == l.blocks[here].insts[k] by {
        assert(s.blocks[here].insts[k] == l.blocks[here].insts[k]);
    }
    assert(added(l, t, l.cur) =~= a + b) by {
        assert forall|k: int| 0 <= k < a.len() implies (a + b)[k] == added(l, t, l.cur)[k] by {
            let j = k + l.blocks[here].insts.len();
            assert(t.blocks[here].insts[j] == s.blocks[here].insts[j]);
        }
    }
    lemma_valued_on(w, env, a, b, b.len());
    assert forall|k: int| 0 <= k < l.tys.len() implies #[trigger] t.tys[k] == l.tys[k] by {
        assert(s.tys[k] == l.tys[k]);
    }
    assert forall|k: int|
        l.blocks[here].insts.len() <= k < t.blocks[here].insts.len() implies pure(
        (#[trigger] t.blocks[here].insts[k]).op,
    ) by {
        if k < s.blocks[here].insts.len() {
            assert(t.blocks[here].insts[k] == s.blocks[here].insts[k]);
        }
    }
    assert forall|k: usize| k < l.tys.len() implies #[trigger] machine_values(w, l, t, env)[k]
        == env[k] by {
        assert(machine_values(w, l, s, env)[k] == env[k]);
        assert(machine_values(w, s, t, machine_values(w, l, s, env))[k] == machine_values(
            w,
            l,
            s,
            env,
        )[k]);
    }
}

/// A new name for a machine value changes no code.
proof fn lemma_bind(w: FloatWorld, l: Low, s: Low, env: Map<usize, Value>, dst: ValueId, q: Val)
    requires
        adds(w, l, s, env, 2),
        s.has(q),
    ensures
        s.bind(dst, q).wf(),
        machine_values(w, l, s.bind(dst, q), env) == machine_values(w, l, s, env),
        added(l, s.bind(dst, q), l.cur) == added(l, s, l.cur),
{
}

/// One instruction of straight code.
#[verifier::rlimit(40)]
pub proof fn lemma_straight_step(
    w: FloatWorld,
    l: Low,
    i: Inst,
    vals: Map<u32, Value>,
    env: Map<usize, Value>,
    span: Span,
)
    requires
        l.wf(),
        roomy(l),
        known(l, env, vals),
        defined(w, vals, i, span) matches Some((dst, v)) && l.source_ty(dst) == type_of(v)
            && scalar(v),
    ensures
        l.inst(i) matches Ok(s) && {
            let (dst, v) = defined(w, vals, i, span)->0;
            let (t, q) = made(l, i);
            &&& s == t.bind(dst, q)
            &&& adds(w, l, t, env, 2)
            &&& t.has(q)
            &&& machine_values(w, l, t, env)[q.0] == v
        },
{
    let (dst, v) = defined(w, vals, i, span)->0;
    match i {
        Inst::Const { c, .. } => {
            lemma_adds_one(w, l, const_op(c).0, const_op(c).1, env);
            if let Constant::I32(n) = c {
                assert((n as i64) as i32 == n) by (bit_vector);
            }
        },
        Inst::Bin { op, a, b, .. } => {
            let (x, y) = (l.vals[a.0], l.vals[b.0]);
            assert(vals.dom().contains(a.0) && vals.dom().contains(b.0));
            assert(l.source_ty(a) == type_of(vals[a.0]));
            let t = l.ty_of(x);
            match int_cond(op) {
                Some(c) => if is_float(l.source_ty(a)) {
                    lemma_adds_one(
                        w,
                        l,
                        OpV::FloatCompare(float_cond(op)->0, x, y),
                        ClifTy::I8,
                        env,
                    );
                } else {
                    lemma_adds_one(w, l, OpV::IntCompare(c, x, y), ClifTy::I8, env);
                },
                None => if is_float(l.source_ty(a)) {
                    lemma_adds_one(w, l, OpV::Binary(float_op(op)->0, x, y), t, env);
                } else {
                    lemma_adds_one(w, l, OpV::Binary(int_op(op)->0, x, y), t, env);
                },
            }
        },
        Inst::Unary { op, a, .. } => {
            let x = l.vals[a.0];
            assert(vals.dom().contains(a.0));
            assert(l.has(x));
            let t = l.ty_of(x);
            match op {
                UnOp::Neg => {
                    let o = if is_float(l.source_ty(dst)) {
                        UnaryOp::Fneg
                    } else {
                        UnaryOp::Ineg
                    };
                    lemma_adds_one(w, l, OpV::Unary(o, x), t, env);
                },
                UnOp::Not => {
                    let one = OpV::Iconst(ClifTy::I8, 1);
                    let s1 = l.ins(one, ClifTy::I8);
                    lemma_adds_one(w, l, one, ClifTy::I8, env);
                    let e1 = machine_values(w, l, s1, env);
                    let flip = OpV::Binary(BinaryOp::Bxor, x, l.next());
                    lemma_adds_one(w, s1, flip, t, e1);
                    lemma_adds_on(w, l, s1, s1.ins(flip, t), env, 1, 1);
                },
            }
        },
        Inst::Cast { val, to, .. } => {
            let x = l.vals[val.0];
            assert(vals.dom().contains(val.0));
            assert(l.source_ty(val) == type_of(vals[val.0]));
            match conversion(l.source_ty(val), to) {
                Some((o, t)) => {
                    lemma_adds_one(w, l, OpV::Convert(o, t, x), t, env);
                },
                None => {
                    lemma_adds_none(w, l, env);
                },
            }
        },
        _ => {},
    }
}

/// What an instruction of straight code is lowered to, and the machine value that it
/// defines.
pub open spec fn made(l: Low, i: Inst) -> (Low, Val) {
    match i {
        Inst::Const { c, .. } => (l.ins(const_op(c).0, const_op(c).1), l.next()),
        Inst::Bin { op, dst, a, b } => l.bin(op, l.source_ty(dst), a, b)->Ok_0,
        Inst::Unary { op, dst, a } => l.unary(op, l.source_ty(dst), l.lookup(a)->Ok_0),
        Inst::Cast { val, to, .. } => l.cast(l.source_ty(val), to, l.lookup(val)->Ok_0),
        _ => (l, l.next()),
    }
}

/// Straight code keeps its meaning: wherever the interpreter's operators give values for
/// a list of instructions that neither fail nor touch memory, lowering appends to the
/// current block code that gives the machine the same values.
pub proof fn law_straight_code_agrees(
    w: FloatWorld,
    l: Low,
    code: Seq<Inst>,
    k: nat,
    vals: Map<u32, Value>,
    env: Map<usize, Value>,
    span: Span,
    out: Map<u32, Value>,
)
    requires
        l.wf(),
        l.tys.len() + 2 * k + 32 <= usize::MAX,
        l.blocks.len() + 32 <= usize::MAX,
        known(l, env, vals),
        k <= code.len(),
        straight(w, l, vals, code, k, span) == Some(out),
    ensures
        l.insts(code, k) matches Ok(s) && s.cur == l.cur && known(
            s,
            machine_values(w, l, s, env),
            out,
        ),
{
    lemma_straight(w, l, code, k, vals, env, span);
}

proof fn lemma_straight(
    w: FloatWorld,
    l: Low,
    code: Seq<Inst>,
    k: nat,
    vals: Map<u32, Value>,
    env: Map<usize, Value>,
    span: Span,
)
    requires
        l.wf(),
        l.tys.len() + 2 * k + 32 <= usize::MAX,
        l.blocks.len() + 32 <= usize::MAX,
        known(l, env, vals),
        k <= code.len(),
        straight(w, l, vals, code, k, span) is Some,
    ensures
        l.insts(code, k) matches Ok(s) && {
            &&& known(s, machine_values(w, l, s, env), straight(w, l, vals, code, k, span)->0)
            &&& adds(w, l, Low { vals: l.vals, ..s }, env, 2 * k)
            &&& s.wf()
        },
    decreases k,
{
    if k == 0 {
        lemma_adds_none(w, l, env);
        assert(Low { vals: l.vals, ..l } == l);
    } else {
        lemma_straight(w, l, code, (k - 1) as nat, vals, env, span);
        let s = l.insts(code, (k - 1) as nat)->Ok_0;
        let plain = Low { vals: l.vals, ..s };
        let e = machine_values(w, l, s, env);
        assert(added(l, plain, l.cur) == added(l, s, l.cur));
        let now = straight(w, l, vals, code, (k - 1) as nat, span)->0;
        let i = code[k - 1];
        let (dst, v) = defined(w, now, i, span)->0;
        assert(s.source_ty(dst) == l.source_ty(dst));
        lemma_straight_step(w, s, i, now, e, span);
        let (t, q) = made(s, i);
        let u = t.bind(dst, q);
        lemma_bind(w, s, t, e, dst, q);
        let bare = Low { vals: l.vals, ..t };
        assert(added(plain, bare, l.cur) == added(s, t, l.cur));
        assert(adds(w, plain, bare, e, 2));
        lemma_adds_on(w, l, plain, bare, env, (2 * (k - 1)) as nat, 2);
        assert(Low { vals: l.vals, ..u } == bare);
        assert(added(l, u, l.cur) == added(l, bare, l.cur));
        let after_all = machine_values(w, l, u, env);
        assert(after_all == machine_values(w, s, t, e));
        let out = now.insert(dst.0, v);
        assert forall|x: u32| #[trigger] out.dom().contains(x) implies u.vals.dom().contains(x)
            && !u.repairs.dom().contains(x) && after_all[u.vals[x].0] == out[x] && u.source_ty(
            ValueId(x),
        ) == type_of(out[x])
            && scalar(out[x]) by {
            if x != dst.0 {
                assert(now.dom().contains(x));
                assert(s.has(s.vals[x]));
            } else {
                assert(ValueId(x) == dst);
            }
        }
    }
}

// ---------------------------------------------------------------------------
// Edges
// ---------------------------------------------------------------------------

/// What an edge hands on: for every phi whose argument has a value, that value.
pub open spec fn carries(
    ir: FuncIr,
    a: BlockId,
    b: BlockId,
    args: Seq<Val>,
    env: Map<usize, Value>,
    vals: Map<u32, Value>,
) -> bool {
    &&& args.len() == ir.at(b).phis@.len()
    &&& forall|k: int|
        #![trigger args[k]]
        0 <= k < args.len() && vals.dom().contains((edge_arg(ir, a, b, k)->0).0)
            ==> env[args[k].0] == vals[(edge_arg(ir, a, b, k)->0).0]
}

/// The arguments of an edge.
pub proof fn lemma_edge(
    w: FloatWorld,
    l: Low,
    a: BlockId,
    b: BlockId,
    k: nat,
    env: Map<usize, Value>,
    vals: Map<u32, Value>,
)
    requires
        l.wf(),
        l.tys.len() + k + 16 <= usize::MAX,
        known(l, env, vals),
    ensures
        ({
            let (s, args) = l.edge(a, b, k);
            &&& adds(w, l, s, env, k)
            &&& args.len() == k
            &&& forall|i: int| 0 <= i < k ==> s.has(#[trigger] args[i])
            &&& forall|i: int|
                #![trigger args[i]]
                0 <= i < k && vals.dom().contains((edge_arg(l.ir, a, b, i)->0).0)
                    ==> (args[i].0 as int) < l.tys.len() && env[args[i].0] == vals[(edge_arg(
                    l.ir,
                    a,
                    b,
                    i,
                )->0).0]
        }),
    decreases k,
{
    if k == 0 {
        lemma_adds_none(w, l, env);
    } else {
        lemma_edge(w, l, a, b, (k - 1) as nat, env, vals);
        let (s, before) = l.edge(a, b, (k - 1) as nat);
        let p = l.ir.at(b).phis@[k - 1];
        let v = edge_arg(l.ir, a, b, k - 1)->0;
        let t = scalar_ty(l.source_ty(p.dst));
        let (s1, x) = s.edge_value(v, t);
        let e = machine_values(w, l, s, env);
        if s.vals.dom().contains(v.0) || s.repairs.dom().contains(v.0) {
            lemma_adds_none(w, s, e);
            lemma_adds_on(w, l, s, s, env, (k - 1) as nat, 0);
        } else {
            lemma_adds_one(w, s, zero_op(t), t, e);
            lemma_adds_on(w, l, s, s1, env, (k - 1) as nat, 1);
        }
        let args = before.push(x);
        assert forall|i: int|
            #![trigger args[i]]
            0 <= i < k && vals.dom().contains((edge_arg(l.ir, a, b, i)->0).0) implies (
        args[i].0 as int) < l.tys.len() && env[args[i].0] == vals[(edge_arg(l.ir, a, b, i)->0).0] by {
            if i < k - 1 {
                assert(args[i] == before[i]);
            } else {
                assert(l.vals.dom().contains(v.0));
                assert(l.has(l.vals[v.0]));
            }
        }
    }
}

/// No value of the block is read by its own definition.
pub open spec fn no_own_uses(su: Seq<SelfUse>, b: usize) -> bool {
    forall|k: int| 0 <= k < su.len() ==> (#[trigger] su[k]).block != b
}

proof fn lemma_no_extras(l: Low, su: Seq<SelfUse>, b: usize, k: nat)
    requires
        no_own_uses(su, b),
        k <= su.len(),
    ensures
        l.extras(su, b, k) == Ok::<Seq<Val>, Seq<char>>(seq![]),
    decreases k,
{
    if k > 0 {
        lemma_no_extras(l, su, b, (k - 1) as nat);
    }
}

/// How a lowered block ends, in the words of the values that it has computed: it goes
/// where the block goes, with the values of the phis there, or gives back what the block
/// gives back.
pub open spec fn leaves_as(
    ir: FuncIr,
    b: BlockId,
    op: OpV,
    env: Map<usize, Value>,
    vals: Map<u32, Value>,
) -> bool {
    match ir.at(b).term {
        Term::Jump(t, _) => op matches OpV::Jump(to, args) && to == t.0 && carries(
            ir,
            b,
            t,
            args,
            env,
            vals,
        ),
        Term::Branch { cond, t, f } => op matches OpV::Brif(c, x, xs, y, ys) && env[c.0]
            == vals[cond.0] && x == t.0 && carries(ir, b, t, xs, env, vals) && y == f.0 && carries(
            ir,
            b,
            f,
            ys,
            env,
            vals,
        ),
        Term::Return(Some(v)) => op matches OpV::Return(xs) && xs.len() == 1 && env[xs[0].0]
            == vals[v.0],
        Term::Return(None) => op == OpV::Return(seq![]),
    }
}

/// The value that the end of the block itself reads, if there is one, is known.
pub open spec fn end_known(ir: FuncIr, b: BlockId, vals: Map<u32, Value>) -> bool {
    match ir.at(b).term {
        Term::Branch { cond, .. } => vals.dom().contains(cond.0),
        Term::Return(Some(v)) => vals.dom().contains(v.0),
        _ => true,
    }
}

/// How many arguments the edges out of the block have.
pub open spec fn handed_on(ir: FuncIr, b: BlockId) -> nat {
    match ir.at(b).term {
        Term::Jump(t, _) => ir.at(t).phis@.len(),
        Term::Branch { t, f, .. } => ir.at(t).phis@.len() + ir.at(f).phis@.len(),
        Term::Return(_) => 0,
    }
}

/// Without the last instruction of a block.
pub open spec fn unended(s: Low, c: usize) -> Low {
    let block = s.blocks[c as int];
    Low {
        blocks: s.blocks.update(
            c as int,
            (ClifBlockV { insts: block.insts.drop_last(), ..block }),
        ),
        ..s
    }
}

/// The end of a block.
#[verifier::rlimit(40)]
pub proof fn lemma_term(
    w: FloatWorld,
    l: Low,
    su: Seq<SelfUse>,
    b: usize,
    env: Map<usize, Value>,
    vals: Map<u32, Value>,
)
    requires
        l.wf(),
        no_own_uses(su, b),
        b <= u32::MAX,
        l.tys.len() + handed_on(l.ir, BlockId(b as u32)) + 16 <= usize::MAX,
        known(l, env, vals),
        end_known(l.ir, BlockId(b as u32), vals),
    ensures
        l.term(su, b) matches Ok(s) && {
            let end = s.blocks[l.cur as int].insts.last();
            let before = unended(s, l.cur);
            &&& adds(w, l, before, env, handed_on(l.ir, BlockId(b as u32)))
            &&& s.blocks.len() == l.blocks.len()
            &&& s.blocks[l.cur as int].insts.len() > 0
            &&& end.count == 0
            &&& leaves_as(l.ir, BlockId(b as u32), end.op, machine_values(w, l, before, env), vals)
        },
{
    let me = BlockId(b as u32);
    lemma_no_extras(l, su, b, su.len());
    match l.ir.at(me).term {
        Term::Jump(t, _) => {
            let n = l.ir.at(t).phis@.len();
            lemma_edge(w, l, me, t, n, env, vals);
            let (s, args) = l.whole_edge(me, t);
            assert(args + Seq::<Val>::empty() =~= args);
            lemma_ended(s, OpV::Jump(t.0 as usize, args));
            let e = machine_values(w, l, s, env);
            assert forall|k: int|
                #![trigger args[k]]
                0 <= k < args.len() && vals.dom().contains(
                    (edge_arg(l.ir, me, t, k)->0).0,
                ) implies e[args[k].0] == vals[(edge_arg(l.ir, me, t, k)->0).0] by {
                assert(e[args[k].0] == env[args[k].0]);
            }
        },
        Term::Branch { cond, t, f } => {
            let n = l.ir.at(t).phis@.len();
            let m = l.ir.at(f).phis@.len();
            assert(vals.dom().contains(cond.0));
            let c = l.vals[cond.0];
            assert(l.has(c));
            lemma_edge(w, l, me, t, n, env, vals);
            let (s1, xs) = l.whole_edge(me, t);
            let e1 = machine_values(w, l, s1, env);
            assert forall|v: u32| #[trigger] vals.dom().contains(v) implies s1.vals.dom().contains(v)
                && !s1.repairs.dom().contains(v) && e1[s1.vals[v].0] == vals[v] && s1.source_ty(
                ValueId(v),
            ) == type_of(vals[v])
                && scalar(vals[v]) by {
                assert(l.has(l.vals[v]));
                assert(e1[l.vals[v].0] == env[l.vals[v].0]);
            }
            lemma_edge(w, s1, me, f, m, e1, vals);
            let (s2, ys) = s1.whole_edge(me, f);
            let e2 = machine_values(w, s1, s2, e1);
            lemma_adds_on(w, l, s1, s2, env, n, m);
            assert(xs + Seq::<Val>::empty() =~= xs);
            assert(ys + Seq::<Val>::empty() =~= ys);
            lemma_ended(s2, OpV::Brif(c, t.0 as usize, xs, f.0 as usize, ys));
            assert forall|k: int|
                #![trigger xs[k]]
                0 <= k < xs.len() && vals.dom().contains((edge_arg(l.ir, me, t, k)->0).0) implies
                e2[xs[k].0] == vals[(edge_arg(l.ir, me, t, k)->0).0] by {
                assert(e1[xs[k].0] == env[xs[k].0]);
                assert(e2[xs[k].0] == e1[xs[k].0]);
            }
            assert forall|k: int|
                #![trigger ys[k]]
                0 <= k < ys.len() && vals.dom().contains((edge_arg(l.ir, me, f, k)->0).0) implies
                e2[ys[k].0] == vals[(edge_arg(l.ir, me, f, k)->0).0] by {
                assert(e2[ys[k].0] == e1[ys[k].0]);
            }
            assert(e1[c.0] == env[c.0]);
            assert(e2[c.0] == e1[c.0]);
        },
        Term::Return(v) => {
            lemma_adds_none(w, l, env);
            match v {
                Some(v) => {
                    assert(vals.dom().contains(v.0));
                    lemma_ended(l, OpV::Return(seq![l.vals[v.0]]));
                },
                None => {
                    lemma_ended(l, OpV::Return(seq![]));
                },
            }
        },
    }
}

/// An instruction without results at the end of the current block; without it the
/// function is as it was.
proof fn lemma_ended(l: Low, op: OpV)
    requires
        l.wf(),
    ensures
        ({
            let s = l.end(op);
            let insts = s.blocks[l.cur as int].insts;
            &&& s.blocks.len() == l.blocks.len()
            &&& insts.len() > 0
            &&& insts.last() == (ClifInstV { op, first: l.tys.len() as usize, count: 0 })
            &&& unended(s, l.cur) == l
        }),
{
    let s = l.end(op);
    let insts = s.blocks[l.cur as int].insts;
    assert(insts.drop_last() =~= l.blocks[l.cur as int].insts);
    assert(s.tys =~= l.tys);
    assert(s.blocks.update(
        l.cur as int,
        (ClifBlockV { insts: insts.drop_last(), ..s.blocks[l.cur as int] }),
    ) =~= l.blocks);
}

/// Blocks of straight code agree: wherever the interpreter's operators give values for the
/// instructions of a block, its lowered code gives the same values, and then goes where
/// the block goes with the values that the phis there get, or gives back the value that
/// the block gives back. The machine knows all values that the block has computed.
#[verifier::rlimit(60)]
pub proof fn law_straight_blocks_agree(
    w: FloatWorld,
    l: Low,
    su: Seq<SelfUse>,
    hook: Option<HookV>,
    b: usize,
    vals: Map<u32, Value>,
    env: Map<usize, Value>,
    span: Span,
    out: Map<u32, Value>,
)
    requires
        l.wf(),
        (b as int) < l.ir.blocks@.len() <= u32::MAX,
        no_own_uses(su, b),
        hook matches Some(h) ==> h.header != BlockId(b as u32),
        l.tys.len() + 2 * l.ir.blocks@[b as int].insts@.len() + handed_on(
            l.ir,
            BlockId(b as u32),
        ) + 32 <= usize::MAX,
        l.blocks.len() + 32 <= usize::MAX,
        known(l, env, vals),
        straight(
            w,
            l,
            vals,
            l.ir.blocks@[b as int].insts@,
            l.ir.blocks@[b as int].insts@.len(),
            span,
        ) == Some(out),
        end_known(l.ir, BlockId(b as u32), out),
    ensures
        l.filled(su, hook, b) matches Ok(s) && {
            let code = added(l, s, l.cur);
            &&& s.cur == l.cur
            &&& code.len() > 0
            &&& leaves_as(
                l.ir,
                BlockId(b as u32),
                code.last().op,
                valued(w, env, code, (code.len() - 1) as nat),
                out,
            )
            &&& known(s, valued(w, env, code, (code.len() - 1) as nat), out)
        },
{
    let me = BlockId(b as u32);
    let here = l.cur as int;
    let insts = l.ir.blocks@[b as int].insts@;
    lemma_straight(w, l, insts, insts.len(), vals, env, span);
    let s3 = l.insts(insts, insts.len())->Ok_0;
    let plain = Low { vals: l.vals, ..s3 };
    let e3 = machine_values(w, l, s3, env);
    assert(added(l, plain, l.cur) == added(l, s3, l.cur));
    lemma_term(w, s3, su, b, e3, out);
    let s = s3.term(su, b)->Ok_0;
    let last = s.blocks[here].insts;
    let before = unended(s, l.cur);
    assert(before.blocks[here].insts == last.drop_last());
    let bare = Low { vals: l.vals, ..before };
    assert(added(plain, bare, l.cur) == added(s3, before, l.cur));
    assert(adds(w, plain, bare, e3, handed_on(l.ir, me)));
    lemma_adds_on(w, l, plain, bare, env, 2 * insts.len(), handed_on(l.ir, me));
    let code = added(l, s, l.cur);
    let short = added(l, bare, l.cur);
    assert(code =~= short.push(last.last()));
    lemma_valued_prefix(w, env, code, short, short.len());
    let end = valued(w, env, code, short.len());
    assert forall|v: u32| #[trigger] out.dom().contains(v) implies s.vals.dom().contains(v)
        && !s.repairs.dom().contains(v) && end[s.vals[v].0] == out[v] && s.source_ty(ValueId(v))
        == type_of(out[v]) && scalar(out[v]) by {
        assert(s3.has(s3.vals[v]));
        assert(s.vals == s3.vals);
        assert(machine_values(w, plain, bare, e3)[s3.vals[v].0] == e3[s3.vals[v].0]);
    }
}

// ---------------------------------------------------------------------------
// Entering a block
// ---------------------------------------------------------------------------

/// The values after the first `k` phis were given theirs.
pub open spec fn entered_vals(
    phis: Seq<Phi>,
    vals: Map<u32, Value>,
    given: Seq<Value>,
    k: nat,
) -> Map<u32, Value>
    decreases k,
{
    if k == 0 {
        vals
    } else {
        entered_vals(phis, vals, given, (k - 1) as nat).insert(phis[k - 1].dst.0, given[k - 1])
    }
}

/// The machine's values after the first `k` parameters were given theirs.
pub open spec fn entered_env(
    params: Seq<Val>,
    env: Map<usize, Value>,
    given: Seq<Value>,
    k: nat,
) -> Map<usize, Value>
    decreases k,
{
    if k == 0 {
        env
    } else {
        entered_env(params, env, given, (k - 1) as nat).insert(params[k - 1].0, given[k - 1])
    }
}

/// Values may be handed to the block: they have the types of its phis, which are not read
/// by their own definitions.
pub open spec fn enters(l: Low, b: usize, given: Seq<Value>) -> bool {
    let phis = l.ir.blocks@[b as int].phis@;
    &&& given.len() == phis.len()
    &&& forall|k: int|
        #![trigger phis[k]]
        0 <= k < phis.len() ==> l.source_ty(phis[k].dst) == type_of(given[k]) && scalar(given[k])
            && !l.repairs.dom().contains(phis[k].dst.0)
}

/// The parameters of the block are its own: no two are the same, and none stands for
/// another value that is known.
pub open spec fn own_params(l: Low, b: usize, vals: Map<u32, Value>) -> bool {
    let params = l.blocks[b as int].params;
    let phis = l.ir.blocks@[b as int].phis@;
    &&& phis.len() <= params.len()
    &&& forall|k: int| 0 <= k < phis.len() ==> l.has(#[trigger] params[k])
    &&& forall|j: int, k: int|
        0 <= j < k < phis.len() ==> (#[trigger] params[j]) != (#[trigger] params[k])
    &&& forall|v: u32, k: int|
        #![trigger vals.dom().contains(v), params[k]]
        vals.dom().contains(v) && 0 <= k < phis.len() && l.vals[v] == params[k] ==> exists|j: int|
            0 <= j < phis.len() && (#[trigger] phis[j]).dst.0 == v
}

/// No two phis of the block define one value.
pub open spec fn own_phis(ir: FuncIr, b: usize) -> bool {
    let phis = ir.blocks@[b as int].phis@;
    forall|j: int, k: int|
        0 <= j < k < phis.len() ==> (#[trigger] phis[j]).dst.0 != (#[trigger] phis[k]).dst.0
}

/// Parameters that were given their values have them.
proof fn lemma_entered_env(
    params: Seq<Val>,
    env: Map<usize, Value>,
    given: Seq<Value>,
    k: nat,
    x: usize,
)
    requires
        k <= params.len(),
        forall|i: int, j: int| 0 <= i < j < k ==> (#[trigger] params[i]) != (#[trigger] params[j]),
    ensures
        (forall|i: int| 0 <= i < k ==> (#[trigger] params[i]).0 != x) ==> entered_env(
            params,
            env,
            given,
            k,
        )[x] == env[x],
        forall|i: int|
            0 <= i < k && (#[trigger] params[i]).0 == x ==> entered_env(params, env, given, k)[x]
                == given[i],
    decreases k,
{
    if k > 0 {
        lemma_entered_env(params, env, given, (k - 1) as nat, x);
        if params[k - 1].0 == x {
            assert forall|i: int| 0 <= i < k && (#[trigger] params[i]).0 == x implies i == k - 1 by {
                if i < k - 1 {
                    assert(params[i] != params[k - 1]);
                }
            }
        }
    }
}

/// Phis that were given their values have them, and the names that the block gives them.
proof fn lemma_entered(
    l: Low,
    b: usize,
    vals: Map<u32, Value>,
    given: Seq<Value>,
    k: nat,
    v: u32,
)
    requires
        own_phis(l.ir, b),
        k <= l.ir.blocks@[b as int].phis@.len(),
    ensures
        l.bind_phis(b, k) == (Low { vals: l.bind_phis(b, k).vals, ..l }),
        ({
            let phis = l.ir.blocks@[b as int].phis@;
            let params = l.blocks[b as int].params;
            let s = l.bind_phis(b, k);
            let now = entered_vals(phis, vals, given, k);
            &&& forall|i: int|
                0 <= i < k && (#[trigger] phis[i]).dst.0 == v ==> s.vals.dom().contains(v)
                    && s.vals[v] == params[i] && now.dom().contains(v) && now[v] == given[i]
            &&& (forall|i: int| 0 <= i < k ==> (#[trigger] phis[i]).dst.0 != v) ==> s.vals.dom().contains(
                v,
            ) == l.vals.dom().contains(v) && s.vals[v] == l.vals[v] && now.dom().contains(v)
                == vals.dom().contains(v) && now[v] == vals[v]
        }),
    decreases k,
{
    let phis = l.ir.blocks@[b as int].phis@;
    if k > 0 {
        lemma_entered(l, b, vals, given, (k - 1) as nat, v);
        if phis[k - 1].dst.0 == v {
            assert forall|i: int| 0 <= i < k && (#[trigger] phis[i]).dst.0 == v implies i == k
                - 1 by {
                if i < k - 1 {
                    assert(phis[i].dst.0 != phis[k - 1].dst.0);
                }
            }
        }
    }
}

/// A block that is entered with the values of its phis knows them, and goes on knowing all
/// others.
pub proof fn law_entered_blocks_know_their_phis(
    l: Low,
    b: usize,
    vals: Map<u32, Value>,
    env: Map<usize, Value>,
    given: Seq<Value>,
)
    requires
        l.wf(),
        (b as int) < l.ir.blocks@.len(),
        known(l, env, vals),
        enters(l, b, given),
        own_params(l, b, vals),
        own_phis(l.ir, b),
    ensures
        known(
            l.bind_phis(b, given.len()),
            entered_env(l.blocks[b as int].params, env, given, given.len()),
            entered_vals(l.ir.blocks@[b as int].phis@, vals, given, given.len()),
        ),
{
    let phis = l.ir.blocks@[b as int].phis@;
    let params = l.blocks[b as int].params;
    let s = l.bind_phis(b, given.len());
    let now = entered_vals(phis, vals, given, given.len());
    let e = entered_env(params, env, given, given.len());
    assert forall|v: u32| #[trigger] now.dom().contains(v) implies s.vals.dom().contains(v)
        && !s.repairs.dom().contains(v) && e[s.vals[v].0] == now[v] && s.source_ty(ValueId(v))
        == type_of(now[v]) && scalar(now[v]) by {
        lemma_entered(l, b, vals, given, given.len(), v);
        lemma_entered_env(params, env, given, given.len(), s.vals[v].0);
        if exists|i: int| 0 <= i < phis.len() && (#[trigger] phis[i]).dst.0 == v {
            let i = choose|i: int| 0 <= i < phis.len() && (#[trigger] phis[i]).dst.0 == v;
            assert(phis[i].dst == ValueId(v));
            assert(params[i].0 == s.vals[v].0);
        } else {
            assert(vals.dom().contains(v));
            assert forall|i: int| 0 <= i < given.len() implies (#[trigger] params[i]).0
                != s.vals[v].0 by {
                if params[i].0 == s.vals[v].0 {
                    assert(params[i] == l.vals[v]);
                }
            }
        }
    }
}

} // verus!
