//! Lowered code does what instructions do: it computes what they compute, reaches the memory
//! that they reach, calls what they call, and reports the errors that they end with.
use vstd::prelude::*;

use crate::acts::{
    act, act_bin, act_call, address_at, arguments, declared, extreme, pair, returns_of, subscript,
    told, Act, Src, Stage,
};
use crate::clif::{
    element_bytes, element_ty, scalar_ty, BinaryOp, ClifInstV, ClifTy, ConvertOp, FloatCond,
    IntCond, OpV, UnaryOp, Val,
};
use crate::cpu::{
    comes, lemma_comes, lemma_comes_on, passed_on, read, tick, ticks, values, Config, Machine,
    Reply, Scene,
};
use crate::error::Span;
use crate::floats::FloatWorld;
use crate::interp::{abs_value, binary_value, sqrt_value, Flow};
use crate::ir::{BinOp, Call, ElemTy, Inst, Load, LocalId, Ty, ValueId};
use crate::lays::{
    emits, grows, lays, lemma_divrem_emits, lemma_emit, lemma_emit_call, lemma_grows_on,
    lemma_grows_self, lemma_guard, lemma_import, lemma_ins, lemma_lays_on, lemma_load_emits,
    lemma_one_result, lemma_put, lemma_store_emits, one_result, room, sound,
};
use crate::lower::{const_op, conversion, is_float, is_local, least_of, print_symbol, FatPtr, Low};
use crate::machine::added;
use crate::operators::{machine_value, scalar, type_of, valued, whole};
use crate::search::{first_where, lemma_first_where};
use crate::traps::{BOUNDS, DIV_BY_ZERO, DIV_OVERFLOW};
use crate::transfer::{
    adds, known, lemma_adds_none, lemma_adds_on, lemma_adds_one, lemma_straight_step,
    machine_values, made, pure,
};
use crate::value::Value;

verus! {

/// A run is where the next code of the lowering will be.
pub open spec fn at<H>(l: Low, env: Map<usize, Value>, sc: Scene<H>) -> Config<H> {
    Config::At(l.cur as int, l.blocks[l.cur as int].insts.len() as int, env, sc)
}

/// Code that only computes, instruction by instruction.
proof fn lemma_code_ticks<H>(
    m: Machine<H>,
    p: Low,
    b: int,
    k: int,
    code: Seq<ClifInstV>,
    j: nat,
    env: Map<usize, Value>,
    sc: Scene<H>,
)
    requires
        0 <= b < p.blocks.len(),
        0 <= k,
        j <= code.len(),
        k + code.len() <= p.blocks[b].insts.len(),
        forall|i: int|
            0 <= i < code.len() ==> p.blocks[b].insts[k + i] == #[trigger] code[i] && pure(
                code[i].op,
            ),
    ensures
        ticks(m, p, Config::At(b, k, env, sc), j) == Config::At(
            b,
            k + j,
            valued(m.floats, env, code, j),
            sc,
        ),
    decreases j,
{
    if j > 0 {
        lemma_code_ticks(m, p, b, k, code, (j - 1) as nat, env, sc);
        let e = valued(m.floats, env, code, (j - 1) as nat);
        let i = p.blocks[b].insts[k + j - 1];
        assert(i == code[j - 1]);
        assert(tick(m, p, Config::At(b, k + j - 1, e, sc)) == Config::At(
            b,
            k + j,
            e.insert(i.first, machine_value(m.floats, i.op, e)),
            sc,
        ));
    }
}

/// Code that only computes.
pub proof fn lemma_computes<H>(
    m: Machine<H>,
    fin: Low,
    l: Low,
    s: Low,
    env: Map<usize, Value>,
    n: nat,
    sc: Scene<H>,
)
    requires
        l.wf(),
        adds(m.floats, l, s, env, n),
        grows(s, fin),
    ensures
        comes(m, fin, at(l, env, sc), at(s, machine_values(m.floats, l, s, env), sc)),
{
    let b = l.cur as int;
    let k = l.blocks[b].insts.len() as int;
    let code = added(l, s, l.cur);
    assert forall|i: int| 0 <= i < code.len() implies fin.blocks[b].insts[k + i]
        == #[trigger] code[i] && pure(code[i].op) by {
        assert(code[i] == s.blocks[b].insts[k + i]);
        assert(fin.blocks[b].insts[k + i] == s.blocks[b].insts[k + i]);
    }
    assert(fin.blocks[b].params == s.blocks[b].params);
    lemma_code_ticks(m, fin, b, k, code, code.len(), env, sc);
    assert(ticks(m, fin, at(l, env, sc), code.len()) == at(
        s,
        machine_values(m.floats, l, s, env),
        sc,
    ));
}

/// One instruction more that only computes.
pub proof fn lemma_adds_ins(
    w: FloatWorld,
    l: Low,
    s: Low,
    op: OpV,
    t: ClifTy,
    env: Map<usize, Value>,
    n: nat,
)
    requires
        adds(w, l, s, env, n),
        pure(op),
        s.tys.len() + 16 <= usize::MAX,
    ensures
        adds(w, l, s.ins(op, t), env, n + 1),
        machine_values(w, l, s.ins(op, t), env) == machine_values(w, l, s, env).insert(
            s.next().0,
            machine_value(w, op, machine_values(w, l, s, env)),
        ),
{
    let e = machine_values(w, l, s, env);
    lemma_adds_one(w, s, op, t, e);
    lemma_adds_on(w, l, s, s.ins(op, t), env, n, 1);
}

/// The machine knows what was computed.
pub open spec fn meets<H>(c: Stage<H>, l: Low, env: Map<usize, Value>, st: Src<H>) -> bool {
    &&& sound(l)
    &&& l.ir == c.ir
    &&& l.unchecked == c.unchecked
    &&& l.callees == c.callees
    &&& l.prebind == c.prebind
    &&& known(l, env, st.vals)
    &&& forall|v: u32| #[trigger]
        st.vals.dom().contains(v) ==> l.ty_of(l.vals[v]) == scalar_ty(type_of(st.vals[v]))
    &&& forall|a: u32| #[trigger]
        st.arrs.dom().contains(a) ==> l.arrays.dom().contains(a) && env[l.arrays[a].data.0]
            == Value::I64(st.arrs[a].0) && env[l.arrays[a].len.0] == Value::I64(st.arrs[a].1)
            && l.ty_of(l.arrays[a].data) == ClifTy::I64 && l.ty_of(l.arrays[a].len) == ClifTy::I64
    &&& c.prebind.len() > 0 ==> l.arrays == Map::<u32, FatPtr>::empty()
}

/// What was there keeps its value.
pub open spec fn frames(l: Low, env: Map<usize, Value>, e: Map<usize, Value>) -> bool {
    forall|k: usize| k < l.tys.len() ==> #[trigger] e[k] == env[k]
}

/// New code leaves what the machine knows.
pub proof fn lemma_meets_on<H>(
    c: Stage<H>,
    l: Low,
    s: Low,
    env: Map<usize, Value>,
    e: Map<usize, Value>,
    st: Src<H>,
    sc: Scene<H>,
)
    requires
        meets(c, l, env, st),
        lays(l, s),
        s.vals == l.vals,
        s.arrays == l.arrays,
        frames(l, env, e),
    ensures
        meets(c, s, e, Src { vals: st.vals, arrs: st.arrs, scene: sc }),
{
    assert forall|v: u32| #[trigger] st.vals.dom().contains(v) implies s.vals.dom().contains(v)
        && !s.repairs.dom().contains(v) && e[s.vals[v].0] == st.vals[v] && s.source_ty(ValueId(v))
        == type_of(st.vals[v]) && scalar(st.vals[v]) && s.ty_of(s.vals[v]) == scalar_ty(
        type_of(st.vals[v]),
    ) by {
        assert(l.vals.dom().contains(v));
        assert(l.has(l.vals[v]));
        assert(e[l.vals[v].0] == env[l.vals[v].0]);
        assert(s.tys[l.vals[v].0 as int] == l.tys[l.vals[v].0 as int]);
    }
    assert forall|a: u32| #[trigger] st.arrs.dom().contains(a) implies s.arrays.dom().contains(a)
        && e[s.arrays[a].data.0] == Value::I64(st.arrs[a].0) && e[s.arrays[a].len.0] == Value::I64(
        st.arrs[a].1,
    ) && s.ty_of(s.arrays[a].data) == ClifTy::I64 && s.ty_of(s.arrays[a].len) == ClifTy::I64 by {
        let p = l.arrays[a];
        assert(l.arrays.dom().contains(a));
        assert(e[p.data.0] == env[p.data.0] && e[p.len.0] == env[p.len.0]);
        assert(s.tys[p.data.0 as int] == l.tys[p.data.0 as int]);
        assert(s.tys[p.len.0 as int] == l.tys[p.len.0 as int]);
    }
}

/// New code defines a value.
pub proof fn lemma_defines<H>(
    c: Stage<H>,
    l: Low,
    s: Low,
    env: Map<usize, Value>,
    e: Map<usize, Value>,
    st: Src<H>,
    sc: Scene<H>,
    dst: ValueId,
    v: Value,
    q: Val,
)
    requires
        meets(c, l, env, st),
        lays(l, s),
        s.vals == l.vals,
        s.arrays == l.arrays,
        frames(l, env, e),
        s.has(q),
        e[q.0] == v,
        s.ty_of(q) == scalar_ty(type_of(v)),
        declared(c.ir, dst) == type_of(v),
        scalar(v),
    ensures
        meets(
            c,
            s.bind(dst, q),
            e,
            Src { vals: st.vals.insert(dst.0, v), arrs: st.arrs, scene: sc },
        ),
{
    lemma_meets_on(c, l, s, env, e, st, sc);
    let now = st.vals.insert(dst.0, v);
    let t = s.bind(dst, q);
    assert(ValueId(dst.0) == dst);
    assert forall|x: u32| #[trigger] now.dom().contains(x) implies t.vals.dom().contains(x)
        && !t.repairs.dom().contains(x) && e[t.vals[x].0] == now[x] && t.source_ty(ValueId(x))
        == type_of(now[x]) && scalar(now[x]) && t.ty_of(t.vals[x]) == scalar_ty(
        type_of(now[x]),
    ) by {
        if x != dst.0 {
            assert(st.vals.dom().contains(x));
        }
    }
}

/// The pair of an array is known.
pub proof fn lemma_pair_known<H>(
    c: Stage<H>,
    l: Low,
    env: Map<usize, Value>,
    st: Src<H>,
    a: LocalId,
)
    requires
        meets(c, l, env, st),
        pair(c, st, a) is Some,
    ensures
        l.lookup_array(a) matches Ok(p) && l.has(p.data) && l.has(p.len) && env[p.data.0]
            == Value::I64((pair(c, st, a)->0).0) && env[p.len.0] == Value::I64(
            (pair(c, st, a)->0).1,
        ) && l.ty_of(p.data) == ClifTy::I64 && l.ty_of(p.len) == ClifTy::I64,
{
    lemma_first_where(c.prebind, is_local(a));
    if st.arrs.dom().contains(a.0) {
        assert(l.arrays.dom().contains(a.0));
    } else {
        let k = first_where(c.prebind, is_local(a))->0;
        assert(st.vals.dom().contains(c.prebind[k].1.0));
        assert(st.vals.dom().contains(c.prebind[k].2.0));
    }
}

/// The arguments of a call are known.
pub proof fn lemma_arguments_known<H>(
    c: Stage<H>,
    l: Low,
    env: Map<usize, Value>,
    st: Src<H>,
    args: Seq<ValueId>,
    k: nat,
)
    requires
        meets(c, l, env, st),
        k <= args.len(),
        arguments(c, st, args, k) is Some,
    ensures
        ({
            let xs = arguments(c, st, args, k)->0;
            &&& l.marshal(args, k) matches Ok(m)
            &&& m.len() == xs.len()
            &&& values(m, env) == xs
            &&& forall|j: int|
                0 <= j < m.len() ==> l.has(#[trigger] m[j]) && l.ty_of(m[j]) == scalar_ty(
                    type_of(xs[j]),
                ) && scalar(xs[j])
            &&& k > 0 && !(declared(c.ir, args[0]) is Array) ==> m.len() > 0
                && st.vals.dom().contains(args[0].0) && xs[0] == st.vals[args[0].0] && m[0]
                == l.vals[args[0].0]
            &&& k > 0 && declared(c.ir, args[0]) is Array ==> pair(
                c,
                st,
                LocalId(args[0].0),
            ) is Some && m.len() > 1 && xs[1] == Value::I64(
                (pair(c, st, LocalId(args[0].0))->0).1,
            )
        }),
    decreases k,
{
    if k > 0 {
        lemma_arguments_known(c, l, env, st, args, (k - 1) as nat);
        let before = arguments(c, st, args, (k - 1) as nat)->0;
        let m0 = l.marshal(args, (k - 1) as nat)->Ok_0;
        let xs = arguments(c, st, args, k)->0;
        let v = args[k - 1];
        assert(l.source_ty(v) == declared(c.ir, v));
        if declared(c.ir, v) is Array {
            lemma_pair_known(c, l, env, st, LocalId(v.0));
        } else {
            assert(st.vals.dom().contains(v.0));
            assert(l.has(l.vals[v.0]));
        }
        let m = l.marshal(args, k)->Ok_0;
        assert(values(m, env) =~= xs) by {
            assert forall|j: int| 0 <= j < m.len() implies values(m, env)[j] == xs[j] by {
                if j < m0.len() {
                    assert(values(m0, env)[j] == before[j]);
                }
            }
        }
        assert forall|j: int| 0 <= j < m.len() implies l.has(#[trigger] m[j]) && l.ty_of(m[j])
            == scalar_ty(type_of(xs[j])) && scalar(xs[j]) by {
            if j < m0.len() {
                assert(m[j] == m0[j]);
                assert(xs[j] == before[j]);
            }
        }
    } else {
        assert(values(Seq::<Val>::empty(), env) =~= Seq::<Value>::empty());
    }
}

/// A run comes to the block that reports errors, with the code and the details.
pub open spec fn alarms<H>(
    m: Machine<H>,
    fin: Low,
    from: Config<H>,
    e: Map<usize, Value>,
    code: i64,
    x: i64,
    y: i64,
    sc: Scene<H>,
) -> bool {
    let q = fin.blocks[fin.panic->0 as int].params;
    &&& fin.panic is Some
    &&& comes(m, fin, from, Config::At(fin.panic->0 as int, 0, e, sc))
    &&& q.len() == 3
    &&& e[q[0].0] == Value::I64(code)
    &&& e[q[1].0] == Value::I64(x)
    &&& e[q[2].0] == Value::I64(y)
}

/// The code behind `l` does what was done, and leaves the run behind `s`.
pub open spec fn follows<H>(
    c: Stage<H>,
    fin: Low,
    l: Low,
    s: Low,
    env: Map<usize, Value>,
    st: Src<H>,
    r: Act<H>,
    e: Map<usize, Value>,
) -> bool {
    let from = at(l, env, st.scene);
    match r {
        Act::Done(now) => comes(c.machine, fin, from, at(s, e, now.scene)) && meets(c, s, e, now),
        Act::Fails(code, x, y, sc) => alarms(c.machine, fin, from, e, code, x, y, sc),
        Act::Stopped(sc) => comes(c.machine, fin, from, Config::Stopped(sc)),
        Act::Odd => true,
    }
}

/// A guard goes on where its condition holds, and reports an error elsewhere.
pub proof fn lemma_guarded<H>(
    m: Machine<H>,
    fin: Low,
    l: Low,
    ok: Val,
    code: Val,
    a: Val,
    b: Val,
    env: Map<usize, Value>,
    sc: Scene<H>,
) -> (e: Map<usize, Value>)
    requires
        sound(l),
        room(l, 16),
        l.guard(ok, code, a, b) is Ok,
        grows(l.guard(ok, code, a, b)->Ok_0, fin),
    ensures
        ({
            let g = l.guard(ok, code, a, b)->Ok_0;
            let q = fin.blocks[fin.panic->0 as int].params;
            if env[ok.0] == Value::Bool(true) {
                comes(m, fin, at(l, env, sc), at(g, env, sc))
            } else {
                &&& fin.panic is Some
                &&& comes(m, fin, at(l, env, sc), Config::At(fin.panic->0 as int, 0, e, sc))
                &&& q.len() == 3
                &&& e[q[0].0] == env[code.0]
                &&& e[q[1].0] == env[a.0]
                &&& e[q[2].0] == env[b.0]
            }
        }),
{
    lemma_guard(l, ok, code, a, b);
    let g = l.guard(ok, code, a, b)->Ok_0;
    let here = l.cur as int;
    let k = l.blocks[here].insts.len() as int;
    assert(fin.blocks[here].params == g.blocks[here].params);
    assert(fin.blocks[here].insts[k] == g.blocks[here].insts[k]);
    let p = g.panic->0;
    assert(g.blocks[p as int].params.len() == 3);
    assert(fin.blocks[p as int].params == g.blocks[p as int].params);
    let q = fin.blocks[p as int].params;
    let args = seq![code, a, b];
    let e = passed_on(q, args, env, 3);
    reveal_with_fuel(passed_on, 4);
    assert(passed_on(fin.blocks[g.cur as int].params, Seq::<Val>::empty(), env, 0) == env);
    lemma_comes(m, fin, at(l, env, sc));
    assert(q[0] != q[1] && q[0] != q[2] && q[1] != q[2]);
    assert(args.len() == 3);
    e
}

/// The value that a plain instruction defines has the machine type that it should have.
#[verifier::rlimit(40)]
proof fn lemma_plain_emits<H>(c: Stage<H>, l: Low, env: Map<usize, Value>, st: Src<H>, i: Inst, span: Span)
    requires
        meets(c, l, env, st),
        room(l, 64),
        i is Const || i is Bin || i is Unary || i is Cast,
        i matches Inst::Bin { op, a, .. } ==> !((op is Div || op is Rem) && !is_float(
            type_of(st.vals[a.0]),
        )),
        act(c, st, i, span) is Done,
        l.inst(i) is Ok,
    ensures
        ({
            let (t, q) = made(l, i);
            let d = i.def()->0;
            let v = act(c, st, i, span)->Done_0.vals[d.0];
            &&& i.def() is Some
            &&& emits(l, t, 20)
            &&& t.has(q)
            &&& t.ty_of(q) == scalar_ty(type_of(v))
            &&& crate::transfer::defined(c.machine.floats, st.vals, i, span) == Some((d, v))
            &&& l.source_ty(d) == type_of(v)
            &&& scalar(v)
            &&& act(c, st, i, span)->Done_0 == (Src {
                vals: st.vals.insert(d.0, v),
                arrs: st.arrs,
                scene: st.scene,
            })
        }),
{
    lemma_grows_self(l);
    let w = c.machine.floats;
    match i {
        Inst::Const { dst, c: k } => {
            lemma_emit(l, l, 0, const_op(k).0, const_op(k).1);
            lemma_ins(l, const_op(k).0, const_op(k).1);
        },
        Inst::Bin { op, dst, a, b } => {
            assert(st.vals.dom().contains(a.0) && st.vals.dom().contains(b.0));
            crate::lays::lemma_bin_emits(l, op, l.source_ty(dst), a, b);
            let (t, q) = l.bin(op, l.source_ty(dst), a, b)->Ok_0;
            let x = l.vals[a.0];
            let y = l.vals[b.0];
            assert(l.lookup(a) == Ok::<Val, Seq<char>>(x));
            assert forall|o: OpV, k: ClifTy| (#[trigger] l.ins(o, k)).ty_of(l.next()) == k by {
                lemma_ins(l, o, k);
            }
            assert(l.source_ty(a) == type_of(st.vals[a.0]));
        },
        Inst::Unary { op, dst, a } => {
            assert(st.vals.dom().contains(a.0));
            let x = l.vals[a.0];
            assert(l.lookup(a) == Ok::<Val, Seq<char>>(x));
            crate::lays::lemma_unary_emits(l, op, l.source_ty(dst), x);
            let one = OpV::Iconst(ClifTy::I8, 1);
            lemma_emit(l, l, 0, one, ClifTy::I8);
            let s1 = l.ins(one, ClifTy::I8);
            assert forall|o: OpV, k: ClifTy| (#[trigger] l.ins(o, k)).ty_of(l.next()) == k by {
                lemma_ins(l, o, k);
            }
            assert forall|o: OpV, k: ClifTy| (#[trigger] s1.ins(o, k)).ty_of(s1.next()) == k by {
                lemma_ins(s1, o, k);
            }
        },
        Inst::Cast { dst, val, to } => {
            assert(st.vals.dom().contains(val.0));
            let x = l.vals[val.0];
            assert(l.lookup(val) == Ok::<Val, Seq<char>>(x));
            assert(l.source_ty(val) == type_of(st.vals[val.0]));
            if let Some((o, t)) = conversion(l.source_ty(val), to) {
                lemma_emit(l, l, 0, OpV::Convert(o, t, x), t);
                lemma_ins(l, OpV::Convert(o, t, x), t);
            }
        },
        _ => {},
    }
}

/// Constants, operators that cannot fail, and conversions.
pub proof fn lemma_act_plain<H>(
    c: Stage<H>,
    fin: Low,
    l: Low,
    env: Map<usize, Value>,
    st: Src<H>,
    i: Inst,
    span: Span,
) -> (e: Map<usize, Value>)
    requires
        meets(c, l, env, st),
        room(l, 64),
        i is Const || i is Bin || i is Unary || i is Cast,
        i matches Inst::Bin { op, a, .. } ==> !((op is Div || op is Rem) && !is_float(
            type_of(st.vals[a.0]),
        )),
        act(c, st, i, span) is Done,
        l.inst(i) is Ok,
        grows(l.inst(i)->Ok_0, fin),
    ensures
        follows(c, fin, l, l.inst(i)->Ok_0, env, st, act(c, st, i, span), e),
{
    let w = c.machine.floats;
    lemma_plain_emits(c, l, env, st, i, span);
    lemma_straight_step(w, l, i, st.vals, env, span);
    let (t, q) = made(l, i);
    let d = i.def()->0;
    let v = act(c, st, i, span)->Done_0.vals[d.0];
    let e = machine_values(w, l, t, env);
    assert(grows(t, fin));
    lemma_computes(c.machine, fin, l, t, env, 2, st.scene);
    lemma_defines(c, l, t, env, e, st, st.scene, d, v, q);
    e
}

/// The least integer of a type, as a value of it.
proof fn lemma_narrow()
    ensures
        (-1i64) as i32 == -1i32,
        (i32::MIN as i64) as i32 == i32::MIN,
        0i64 as i32 == 0i32,
{
    assert((-1i64) as i32 == -1i32) by (bit_vector);
    assert((-2147483648i64) as i32 == -2147483648i32) by (bit_vector);
}

/// Divisions and remainders of integers.
#[verifier::rlimit(80)]
pub proof fn lemma_act_div<H>(
    c: Stage<H>,
    fin: Low,
    l: Low,
    env: Map<usize, Value>,
    st: Src<H>,
    rem: bool,
    dst: ValueId,
    a: ValueId,
    b: ValueId,
    span: Span,
) -> (e: Map<usize, Value>)
    requires
        meets(c, l, env, st),
        room(l, 64),
        st.vals.dom().contains(a.0),
        st.vals.dom().contains(b.0),
        st.vals[a.0] is I32 && st.vals[b.0] is I32 || st.vals[a.0] is I64 && st.vals[b.0] is I64,
        declared(c.ir, dst) == type_of(st.vals[a.0]),
        l.divrem(l.vals[a.0], l.vals[b.0], l.source_ty(dst), rem) is Ok,
        ({
            let (s, q) = l.divrem(l.vals[a.0], l.vals[b.0], l.source_ty(dst), rem)->Ok_0;
            grows(s.bind(dst, q), fin)
        }),
    ensures
        ({
            let op = if rem {
                BinOp::Rem
            } else {
                BinOp::Div
            };
            let (s, q) = l.divrem(l.vals[a.0], l.vals[b.0], l.source_ty(dst), rem)->Ok_0;
            follows(c, fin, l, s.bind(dst, q), env, st, act_bin(c, st, op, dst, a, b, span), e)
        }),
{
    let w = c.machine.floats;
    let m = c.machine;
    let sc = st.scene;
    let x = l.vals[a.0];
    let y = l.vals[b.0];
    let va = st.vals[a.0];
    let vb = st.vals[b.0];
    let ty = l.source_ty(dst);
    let op = if rem {
        BinOp::Rem
    } else {
        BinOp::Div
    };
    lemma_narrow();
    assert(l.has(x) && l.has(y));
    lemma_divrem_emits(l, x, y, ty, rem);
    let t = l.ty_of(x);
    assert(t == scalar_ty(type_of(va)));
    let i8t = ClifTy::I8;
    let i64t = ClifTy::I64;
    lemma_grows_self(l);
    lemma_adds_none(w, l, env);
    let zero = l.next();
    let o1 = OpV::Iconst(t, 0);
    lemma_emit(l, l, 0, o1, t);
    lemma_adds_ins(w, l, l, o1, t, env, 0);
    let s1 = l.ins(o1, t);
    let e1 = machine_values(w, l, s1, env);
    let minus_one = s1.next();
    let o2 = OpV::Iconst(t, (-1) as i64);
    lemma_emit(l, s1, 1, o2, t);
    lemma_adds_ins(w, l, s1, o2, t, env, 1);
    let s2 = s1.ins(o2, t);
    let e2 = machine_values(w, l, s2, env);
    let least = s2.next();
    let o3 = OpV::Iconst(t, least_of(ty));
    lemma_emit(l, s2, 2, o3, t);
    lemma_adds_ins(w, l, s2, o3, t, env, 2);
    let s3 = s2.ins(o3, t);
    let e3 = machine_values(w, l, s3, env);
    assert(whole(e3[zero.0]) == 0);
    assert(whole(e3[minus_one.0]) == -1);
    assert(whole(e3[least.0]) == least_of(ty));
    let nonzero = s3.next();
    let o4 = OpV::IntCompare(IntCond::NotEqual, y, zero);
    lemma_emit(l, s3, 3, o4, i8t);
    lemma_adds_ins(w, l, s3, o4, i8t, env, 3);
    let s4 = s3.ins(o4, i8t);
    let e4 = machine_values(w, l, s4, env);
    assert(e3[y.0] == vb && e3[x.0] == va);
    assert(e4[nonzero.0] == Value::Bool(whole(vb) != 0));
    let not_least = s4.next();
    let o5 = OpV::IntCompare(IntCond::NotEqual, x, least);
    lemma_emit(l, s4, 4, o5, i8t);
    lemma_adds_ins(w, l, s4, o5, i8t, env, 4);
    let s5 = s4.ins(o5, i8t);
    let e5 = machine_values(w, l, s5, env);
    assert(e4[x.0] == va && e4[least.0] == e3[least.0]);
    assert(e5[not_least.0] == Value::Bool(whole(va) != least_of(ty)));
    let not_minus_one = s5.next();
    let o6 = OpV::IntCompare(IntCond::NotEqual, y, minus_one);
    lemma_emit(l, s5, 5, o6, i8t);
    lemma_adds_ins(w, l, s5, o6, i8t, env, 5);
    let s6 = s5.ins(o6, i8t);
    let e6 = machine_values(w, l, s6, env);
    assert(e5[y.0] == vb && e5[minus_one.0] == e3[minus_one.0]);
    assert(e6[not_minus_one.0] == Value::Bool(whole(vb) != -1));
    assert(e6[not_least.0] == e5[not_least.0]);
    let fits = s6.next();
    let o7 = OpV::Binary(BinaryOp::Bor, not_least, not_minus_one);
    lemma_emit(l, s6, 6, o7, i8t);
    lemma_adds_ins(w, l, s6, o7, i8t, env, 6);
    let s7 = s6.ins(o7, i8t);
    let e7 = machine_values(w, l, s7, env);
    let fine = whole(va) != least_of(ty) || whole(vb) != -1;
    assert(e7[fits.0] == Value::Bool(fine));
    assert(e7[nonzero.0] == e4[nonzero.0]);
    let ok = s7.next();
    let o8 = OpV::Binary(BinaryOp::Band, nonzero, fits);
    lemma_emit(l, s7, 7, o8, i8t);
    lemma_adds_ins(w, l, s7, o8, i8t, env, 7);
    let s8 = s7.ins(o8, i8t);
    let e8 = machine_values(w, l, s8, env);
    assert(e8[ok.0] == Value::Bool(whole(vb) != 0 && fine));
    assert(e8[nonzero.0] == e4[nonzero.0]);
    let overflow = s8.next();
    let o9 = OpV::Iconst(i64t, DIV_OVERFLOW);
    lemma_emit(l, s8, 8, o9, i64t);
    lemma_adds_ins(w, l, s8, o9, i64t, env, 8);
    let s9 = s8.ins(o9, i64t);
    let e9 = machine_values(w, l, s9, env);
    let by_zero = s9.next();
    let o10 = OpV::Iconst(i64t, DIV_BY_ZERO);
    lemma_emit(l, s9, 9, o10, i64t);
    lemma_adds_ins(w, l, s9, o10, i64t, env, 9);
    let s10 = s9.ins(o10, i64t);
    let e10 = machine_values(w, l, s10, env);
    assert(e10[nonzero.0] == e4[nonzero.0] && e10[ok.0] == e8[ok.0]);
    assert(e10[overflow.0] == Value::I64(DIV_OVERFLOW) && e10[by_zero.0] == Value::I64(
        DIV_BY_ZERO,
    ));
    let code = s10.next();
    let o11 = OpV::Select(nonzero, overflow, by_zero);
    lemma_emit(l, s10, 10, o11, i64t);
    lemma_adds_ins(w, l, s10, o11, i64t, env, 10);
    let s11 = s10.ins(o11, i64t);
    let e11 = machine_values(w, l, s11, env);
    let none = s11.next();
    let o12 = OpV::Iconst(i64t, 0);
    lemma_emit(l, s11, 11, o12, i64t);
    lemma_adds_ins(w, l, s11, o12, i64t, env, 11);
    let s12 = s11.ins(o12, i64t);
    let e12 = machine_values(w, l, s12, env);
    assert(e12[ok.0] == e8[ok.0]);
    assert(e12[code.0] == Value::I64(
        if whole(vb) != 0 {
            DIV_OVERFLOW
        } else {
            DIV_BY_ZERO
        },
    ));
    assert(e12[none.0] == Value::I64(0));
    assert(e12[x.0] == va && e12[y.0] == vb);
    let (s, q) = l.divrem(x, y, ty, rem)->Ok_0;
    assert(s12.guard(ok, code, none, none) is Ok);
    let g = s12.guard(ok, code, none, none)->Ok_0;
    lemma_guard(s12, ok, code, none, none);
    lemma_lays_on(l, s12, g);
    let last = OpV::Binary(
        if rem {
            BinaryOp::Srem
        } else {
            BinaryOp::Sdiv
        },
        x,
        y,
    );
    lemma_ins(g, last, t);
    assert(s == g.ins(last, t) && q == g.next());
    assert(grows(s, fin));
    lemma_grows_on(g, s, fin);
    lemma_grows_on(s12, g, fin);
    lemma_computes(m, fin, l, s12, env, 12, sc);
    let alarm = lemma_guarded(m, fin, s12, ok, code, none, none, e12, sc);
    if whole(vb) != 0 && fine {
        lemma_comes_on(m, fin, at(l, env, sc), at(s12, e12, sc), at(g, e12, sc));
        lemma_adds_none(w, g, e12);
        lemma_adds_ins(w, g, g, last, t, e12, 0);
        let e = machine_values(w, g, s, e12);
        lemma_computes(m, fin, g, s, e12, 1, sc);
        lemma_comes_on(m, fin, at(l, env, sc), at(g, e12, sc), at(s, e, sc));
        let v = machine_value(w, last, e12);
        assert(binary_value(w, op, va, vb, span) == Flow::Done(v));
        assert(frames(l, env, e)) by {
            assert forall|k: usize| k < l.tys.len() implies #[trigger] e[k] == env[k] by {
                assert(e12[k] == env[k]);
            }
        }
        lemma_defines(c, l, s, env, e, st, sc, dst, v, q);
        e
    } else {
        lemma_comes_on(
            m,
            fin,
            at(l, env, sc),
            at(s12, e12, sc),
            Config::At(fin.panic->0 as int, 0, alarm, sc),
        );
        alarm
    }
}

/// The code in front of an access: it goes on exactly where the access may be made, with the
/// address of the element.
#[verifier::rlimit(80)]
pub proof fn lemma_accesses<H>(
    c: Stage<H>,
    fin: Low,
    l: Low,
    env: Map<usize, Value>,
    st: Src<H>,
    arr: LocalId,
    idx_id: ValueId,
    el: ElemTy,
) -> (e: Map<usize, Value>)
    requires
        meets(c, l, env, st),
        room(l, 64),
        pair(c, st, arr) is Some,
        subscript(st, idx_id) is Some,
        ({
            let p = l.lookup_array(arr)->Ok_0;
            let (s1, idx) = l.widened(l.lookup(idx_id)->Ok_0, l.source_ty(idx_id));
            let s2 = s1.bounds_guard(idx, p.len)->Ok_0;
            let (s3, addr) = s2.address(p.data, idx, element_bytes(el));
            &&& s1.bounds_guard(idx, p.len) is Ok
            &&& emits(l, s1, 1)
            &&& emits(l, s2, 10)
            &&& emits(l, s3, 13)
            &&& grows(s3, fin)
        }),
    ensures
        ({
            let p = l.lookup_array(arr)->Ok_0;
            let (base, len) = pair(c, st, arr)->0;
            let x = subscript(st, idx_id)->0;
            let (s1, idx) = l.widened(l.lookup(idx_id)->Ok_0, l.source_ty(idx_id));
            let s2 = s1.bounds_guard(idx, p.len)->Ok_0;
            let (s3, addr) = s2.address(p.data, idx, element_bytes(el));
            if c.unchecked || 0 <= x < len {
                &&& comes(c.machine, fin, at(l, env, st.scene), at(s3, e, st.scene))
                &&& frames(l, env, e)
                &&& e[addr.0] == Value::I64(address_at(base, x, el))
                &&& s3.has(addr)
            } else {
                alarms(c.machine, fin, at(l, env, st.scene), e, BOUNDS, x, len, st.scene)
            }
        }),
{
    let w = c.machine.floats;
    let m = c.machine;
    let sc = st.scene;
    lemma_pair_known(c, l, env, st, arr);
    let p = l.lookup_array(arr)->Ok_0;
    let (base, len) = pair(c, st, arr)->0;
    let x = subscript(st, idx_id)->0;
    assert(st.vals.dom().contains(idx_id.0));
    let from = l.source_ty(idx_id);
    assert(from == type_of(st.vals[idx_id.0]));
    let i0 = l.vals[idx_id.0];
    assert(l.has(i0));
    assert(l.lookup(idx_id) == Ok::<Val, Seq<char>>(i0));
    let (s1, idx) = l.widened(i0, from);
    let s2 = s1.bounds_guard(idx, p.len)->Ok_0;
    let size = element_bytes(el);
    let (s3, addr) = s2.address(p.data, idx, size);
    let i8t = ClifTy::I8;
    let i64t = ClifTy::I64;
    lemma_grows_self(l);
    lemma_adds_none(w, l, env);
    if from == Ty::I32 {
        lemma_adds_ins(w, l, l, OpV::Convert(ConvertOp::Sextend, i64t, i0), i64t, env, 0);
    }
    let e1 = machine_values(w, l, s1, env);
    assert(adds(w, l, s1, env, 1));
    assert(e1[idx.0] == Value::I64(x) && s1.has(idx));
    assert(e1[p.len.0] == Value::I64(len) && e1[p.data.0] == Value::I64(base));
    // from the guard on to the address
    let scale = s2.next();
    let a1 = OpV::Iconst(i64t, size);
    lemma_ins(s2, a1, i64t);
    let t1 = s2.ins(a1, i64t);
    let off = t1.next();
    let a2 = OpV::Binary(BinaryOp::Imul, idx, scale);
    lemma_ins(t1, a2, t1.ty_of(idx));
    let t2 = t1.ins(a2, t1.ty_of(idx));
    let a3 = OpV::Binary(BinaryOp::Iadd, p.data, off);
    lemma_ins(t2, a3, t2.ty_of(p.data));
    assert(s3 == t2.ins(a3, t2.ty_of(p.data)) && addr == t2.next());
    lemma_lays_on(s2, t1, t2);
    lemma_lays_on(s2, t2, s3);
    lemma_grows_on(s2, s3, fin);
    if c.unchecked {
        assert(s2 == s1);
        lemma_computes(m, fin, l, s1, env, 1, sc);
        lemma_addressed(m, fin, l, s2, p.data, idx, size, base, x, env, e1, sc)
    } else {
        lemma_adds_none(w, s1, e1);
        let below = s1.next();
        let o1 = OpV::IntCompare(IntCond::LessThan, idx, p.len);
        lemma_emit(l, s1, 1, o1, i8t);
        lemma_adds_ins(w, s1, s1, o1, i8t, e1, 0);
        let g1 = s1.ins(o1, i8t);
        let f1 = machine_values(w, s1, g1, e1);
        let zero = g1.next();
        let o2 = OpV::Iconst(i64t, 0);
        lemma_emit(l, g1, 2, o2, i64t);
        lemma_adds_ins(w, s1, g1, o2, i64t, e1, 1);
        let g2 = g1.ins(o2, i64t);
        let f2 = machine_values(w, s1, g2, e1);
        let above = g2.next();
        let o3 = OpV::IntCompare(IntCond::GreaterThanOrEqual, idx, zero);
        lemma_emit(l, g2, 3, o3, i8t);
        lemma_adds_ins(w, s1, g2, o3, i8t, e1, 2);
        let g3 = g2.ins(o3, i8t);
        let f3 = machine_values(w, s1, g3, e1);
        assert(f1[below.0] == Value::Bool(x < len));
        assert(f2[zero.0] == Value::I64(0) && f2[idx.0] == Value::I64(x));
        assert(f3[above.0] == Value::Bool(x >= 0));
        assert(f3[below.0] == f1[below.0]);
        let ok = g3.next();
        let o4 = OpV::Binary(BinaryOp::Band, below, above);
        lemma_emit(l, g3, 4, o4, i8t);
        lemma_adds_ins(w, s1, g3, o4, i8t, e1, 3);
        let g4 = g3.ins(o4, i8t);
        let f4 = machine_values(w, s1, g4, e1);
        assert(f4[ok.0] == Value::Bool(x < len && x >= 0));
        let code = g4.next();
        let o5 = OpV::Iconst(i64t, BOUNDS);
        lemma_emit(l, g4, 5, o5, i64t);
        lemma_adds_ins(w, s1, g4, o5, i64t, e1, 4);
        let g5 = g4.ins(o5, i64t);
        let f5 = machine_values(w, s1, g5, e1);
        assert(f5[ok.0] == f4[ok.0] && f5[code.0] == Value::I64(BOUNDS));
        assert(f5[idx.0] == e1[idx.0] && f5[p.len.0] == e1[p.len.0]);
        assert(f5[p.data.0] == e1[p.data.0]);
        assert(g5.guard(ok, code, idx, p.len) == Ok::<Low, Seq<char>>(s2));
        lemma_guard(g5, ok, code, idx, p.len);
        lemma_grows_on(g5, s2, fin);
        assert(lays(s1, g5)) by {
            lemma_ins(s1, o1, i8t);
            lemma_ins(g1, o2, i64t);
            lemma_ins(g2, o3, i8t);
            lemma_ins(g3, o4, i8t);
            lemma_ins(g4, o5, i64t);
            lemma_lays_on(s1, g1, g2);
            lemma_lays_on(s1, g2, g3);
            lemma_lays_on(s1, g3, g4);
            lemma_lays_on(s1, g4, g5);
        }
        lemma_grows_on(s1, g5, fin);
        lemma_computes(m, fin, l, s1, env, 1, sc);
        lemma_computes(m, fin, s1, g5, e1, 5, sc);
        lemma_comes_on(m, fin, at(l, env, sc), at(s1, e1, sc), at(g5, f5, sc));
        let alarm = lemma_guarded(m, fin, g5, ok, code, idx, p.len, f5, sc);
        if 0 <= x < len {
            lemma_comes_on(m, fin, at(l, env, sc), at(g5, f5, sc), at(s2, f5, sc));
            assert(frames(l, env, f5)) by {
                assert forall|k: usize| k < l.tys.len() implies #[trigger] f5[k] == env[k] by {
                    assert(e1[k] == env[k]);
                    assert(f5[k] == e1[k]);
                }
            }
            lemma_addressed(m, fin, l, s2, p.data, idx, size, base, x, env, f5, sc)
        } else {
            lemma_comes_on(
                m,
                fin,
                at(l, env, sc),
                at(g5, f5, sc),
                Config::At(fin.panic->0 as int, 0, alarm, sc),
            );
            alarm
        }
    }
}

/// The code that computes an address.
#[verifier::rlimit(40)]
proof fn lemma_addressed<H>(
    m: Machine<H>,
    fin: Low,
    l: Low,
    s: Low,
    data: Val,
    idx: Val,
    size: i64,
    base: i64,
    x: i64,
    env: Map<usize, Value>,
    e0: Map<usize, Value>,
    sc: Scene<H>,
) -> (e: Map<usize, Value>)
    requires
        sound(s),
        l.tys.len() <= s.tys.len(),
        room(s, 32),
        s.has(data),
        s.has(idx),
        e0[data.0] == Value::I64(base),
        e0[idx.0] == Value::I64(x),
        comes(m, fin, at(l, env, sc), at(s, e0, sc)),
        frames(l, env, e0),
        grows(s.address(data, idx, size).0, fin),
    ensures
        ({
            let (s3, addr) = s.address(data, idx, size);
            &&& comes(m, fin, at(l, env, sc), at(s3, e, sc))
            &&& frames(l, env, e)
            &&& e[addr.0] == Value::I64(base.wrapping_add(x.wrapping_mul(size)))
            &&& s3.has(addr)
        }),
{
    let w = m.floats;
    let i64t = ClifTy::I64;
    lemma_adds_none(w, s, e0);
    let scale = s.next();
    let a1 = OpV::Iconst(i64t, size);
    lemma_adds_ins(w, s, s, a1, i64t, e0, 0);
    let t1 = s.ins(a1, i64t);
    let e1 = machine_values(w, s, t1, e0);
    let off = t1.next();
    let a2 = OpV::Binary(BinaryOp::Imul, idx, scale);
    let k2 = t1.ty_of(idx);
    lemma_adds_ins(w, s, t1, a2, k2, e0, 1);
    let t2 = t1.ins(a2, k2);
    let e2 = machine_values(w, s, t2, e0);
    assert(e1[idx.0] == Value::I64(x) && e1[scale.0] == Value::I64(size));
    assert(e2[off.0] == Value::I64(x.wrapping_mul(size)));
    assert(e2[data.0] == Value::I64(base));
    let a3 = OpV::Binary(BinaryOp::Iadd, data, off);
    let k3 = t2.ty_of(data);
    lemma_adds_ins(w, s, t2, a3, k3, e0, 2);
    let t3 = t2.ins(a3, k3);
    let e3 = machine_values(w, s, t3, e0);
    lemma_computes(m, fin, s, t3, e0, 3, sc);
    lemma_comes_on(m, fin, at(l, env, sc), at(s, e0, sc), at(t3, e3, sc));
    assert forall|k: usize| k < l.tys.len() implies #[trigger] e3[k] == env[k] by {
        assert(e0[k] == env[k]);
        assert(e3[k] == e0[k]);
    }
    e3
}

/// Loads.
pub proof fn lemma_act_load<H>(
    c: Stage<H>,
    fin: Low,
    l: Low,
    env: Map<usize, Value>,
    st: Src<H>,
    load: Load,
    span: Span,
) -> (e: Map<usize, Value>)
    requires
        meets(c, l, env, st),
        room(l, 64),
        l.load(load) is Ok,
        grows(l.load(load)->Ok_0, fin),
        !(act(c, st, Inst::Load(load), span) is Odd),
    ensures
        follows(c, fin, l, l.load(load)->Ok_0, env, st, act(c, st, Inst::Load(load), span), e),
{
    let m = c.machine;
    let sc = st.scene;
    lemma_load_emits(l, load);
    let p = l.lookup_array(load.arr)->Ok_0;
    let el = l.ir.types.element_type(load.arr)->0;
    let (s1, idx) = l.widened(l.lookup(load.idx)->Ok_0, l.source_ty(load.idx));
    let s2 = s1.bounds_guard(idx, p.len)->Ok_0;
    let (s3, addr) = s2.address(p.data, idx, element_bytes(el));
    let op = OpV::Load(element_ty(el), addr);
    let t = element_ty(el);
    let s4 = s3.ins(op, t);
    lemma_ins(s3, op, t);
    assert(grows(s4, fin));
    lemma_grows_on(s3, s4, fin);
    let e = lemma_accesses(c, fin, l, env, st, load.arr, load.idx, el);
    if act(c, st, Inst::Load(load), span) is Done {
        let b = s3.cur as int;
        let k = s3.blocks[b].insts.len() as int;
        assert(fin.blocks[b].insts[k] == s4.blocks[b].insts[k]);
        assert(fin.blocks[b].params == s4.blocks[b].params);
        let (base, len) = pair(c, st, load.arr)->0;
        let x = subscript(st, load.idx)->0;
        let v = read(sc.mem, address_at(base, x, el) as int, t)->0;
        let q = s3.next();
        let e2 = e.insert(q.0, v);
        lemma_comes(m, fin, at(s3, e, sc));
        assert(tick(m, fin, at(s3, e, sc)) == at(s4, e2, sc));
        lemma_comes_on(m, fin, at(l, env, sc), at(s3, e, sc), at(s4, e2, sc));
        assert(frames(l, env, e2)) by {
            assert forall|k: usize| k < l.tys.len() implies #[trigger] e2[k] == env[k] by {
                assert(e[k] == env[k]);
            }
        }
        lemma_defines(c, l, s4, env, e2, st, sc, load.dst, v, q);
        e2
    } else {
        e
    }
}

/// Stores.
pub proof fn lemma_act_store<H>(
    c: Stage<H>,
    fin: Low,
    l: Low,
    env: Map<usize, Value>,
    st: Src<H>,
    arr: LocalId,
    idx_id: ValueId,
    val: ValueId,
    span: Span,
) -> (e: Map<usize, Value>)
    requires
        meets(c, l, env, st),
        room(l, 64),
        l.store(arr, idx_id, val) is Ok,
        grows(l.store(arr, idx_id, val)->Ok_0, fin),
        !(act(c, st, Inst::Store { arr, idx: idx_id, val }, span) is Odd),
    ensures
        follows(
            c,
            fin,
            l,
            l.store(arr, idx_id, val)->Ok_0,
            env,
            st,
            act(c, st, Inst::Store { arr, idx: idx_id, val }, span),
            e,
        ),
{
    let m = c.machine;
    let sc = st.scene;
    let i = Inst::Store { arr, idx: idx_id, val };
    lemma_store_emits(l, arr, idx_id, val);
    let p = l.lookup_array(arr)->Ok_0;
    let el = l.ir.types.element_type(arr)->0;
    let (s1, idx) = l.widened(l.lookup(idx_id)->Ok_0, l.source_ty(idx_id));
    let s2 = s1.bounds_guard(idx, p.len)->Ok_0;
    let (s3, addr) = s2.address(p.data, idx, element_bytes(el));
    let x0 = l.lookup(val)->Ok_0;
    let op = OpV::Store(x0, addr);
    let s4 = s3.end(op);
    lemma_put(s3, op, seq![]);
    lemma_grows_on(s3, s4, fin);
    let e = lemma_accesses(c, fin, l, env, st, arr, idx_id, el);
    if act(c, st, i, span) is Done {
        let b = s3.cur as int;
        let k = s3.blocks[b].insts.len() as int;
        assert(fin.blocks[b].insts[k] == s4.blocks[b].insts[k]);
        assert(fin.blocks[b].params == s4.blocks[b].params);
        assert(st.vals.dom().contains(val.0));
        assert(l.has(x0) && x0 == l.vals[val.0]);
        assert(e[x0.0] == env[x0.0]);
        let now = act(c, st, i, span)->Done_0.scene;
        lemma_comes(m, fin, at(s3, e, sc));
        assert(tick(m, fin, at(s3, e, sc)) == at(s4, e, now));
        lemma_comes_on(m, fin, at(l, env, sc), at(s3, e, sc), at(s4, e, now));
        lemma_meets_on(c, l, s4, env, e, st, now);
    }
    e
}

/// A call hands its arguments to the host, and goes on with what the host gives back.
pub proof fn lemma_called<H>(
    m: Machine<H>,
    fin: Low,
    s: Low,
    f: usize,
    name: Seq<char>,
    args: Seq<Val>,
    env: Map<usize, Value>,
    sc: Scene<H>,
)
    requires
        sound(s),
        room(s, 16),
        (f as int) < s.imports.len(),
        s.callees[s.imports[f as int] as int].name == name,
        s.import_sig(f).returns.len() <= 1,
        grows(s.call(f, args), fin),
    ensures
        match (m.host)(name, values(args, env), sc) {
            Reply::Gives(rs, now) => rs.len() == s.import_sig(f).returns.len() ==> comes(
                m,
                fin,
                at(s, env, sc),
                at(
                    s.call(f, args),
                    if rs.len() == 0 {
                        env
                    } else {
                        env.insert(s.next().0, rs[0])
                    },
                    now,
                ),
            ),
            Reply::Stops(now) => comes(m, fin, at(s, env, sc), Config::Stopped(now)),
        },
{
    let t = s.call(f, args);
    lemma_put(s, OpV::Call(f, args), s.import_sig(f).returns);
    let b = s.cur as int;
    let k = s.blocks[b].insts.len() as int;
    assert(fin.blocks[b].params == t.blocks[b].params);
    assert(fin.blocks[b].insts[k] == t.blocks[b].insts[k]);
    assert(fin.imports[f as int] == t.imports[f as int]);
    lemma_comes(m, fin, at(s, env, sc));
}

/// `zeros`.
proof fn lemma_act_zeros<H>(
    c: Stage<H>,
    fin: Low,
    l: Low,
    env: Map<usize, Value>,
    st: Src<H>,
    call: Call,
) -> (e: Map<usize, Value>)
    requires
        meets(c, l, env, st),
        room(l, 64),
        one_result(l),
        call.callee@ == "zeros"@,
        l.call_inst(call) is Ok,
        grows(l.call_inst(call)->Ok_0, fin),
        !(act_call(c, st, call) is Odd),
    ensures
        follows(c, fin, l, l.call_inst(call)->Ok_0, env, st, act_call(c, st, call), e),
{
    let m = c.machine;
    let w = m.floats;
    let sc = st.scene;
    let xs = arguments(c, st, call.args@, call.args@.len())->0;
    lemma_arguments_known(c, l, env, st, call.args@, call.args@.len());
    let v = l.marshal(call.args@, call.args@.len())->Ok_0;
    let name = "helix_zeros"@;
    let a = call.arr_refs@[0];
    let el = l.ir.types.element_type(a)->0;
    lemma_grows_self(l);
    lemma_import(l, name);
    let (s, f) = l.import(name)->Ok_0;
    let o = OpV::Iconst(ClifTy::I64, element_bytes(el));
    assert(emits(l, s, 1));
    lemma_emit(l, s, 1, o, ClifTy::I64);
    lemma_ins(s, o, ClifTy::I64);
    let s1 = s.ins(o, ClifTy::I64);
    let args = seq![v[0], s.next()];
    let t = s1.call(f, args);
    lemma_one_result(l, name);
    lemma_put(s1, OpV::Call(f, args), s1.import_sig(f).returns);
    assert(grows(t, fin));
    lemma_grows_on(s1, t, fin);
    lemma_lays_on(l, s1, t);
    assert(at(l, env, sc) == at(s, env, sc));
    lemma_adds_none(w, s, env);
    lemma_adds_ins(w, s, s, o, ClifTy::I64, env, 0);
    let e1 = machine_values(w, s, s1, env);
    lemma_computes(m, fin, s, s1, env, 1, sc);
    assert(l.has(v[0]));
    assert(values(v, env)[0] == xs[0]);
    assert(e1[v[0].0] == env[v[0].0]);
    assert(values(args, e1) =~= seq![xs[0], Value::I64(element_bytes(el))]);
    lemma_called(m, fin, s1, f, name, args, e1, sc);
    match (m.host)(name, values(args, e1), sc) {
        Reply::Gives(rs, now) => {
            let e2 = e1.insert(s1.next().0, rs[0]);
            lemma_comes_on(m, fin, at(l, env, sc), at(s1, e1, sc), at(t, e2, now));
            assert(frames(l, env, e2)) by {
                assert forall|k: usize| k < l.tys.len() implies #[trigger] e2[k] == env[k] by {
                    assert(e1[k] == env[k]);
                }
            }
            lemma_meets_on(c, l, t, env, e2, st, now);
            let fp = FatPtr { data: s1.next(), len: v[0] };
            let u = t.bind_array(a, fp);
            assert(t.ty_of(s1.next()) == ClifTy::I64);
            assert(t.tys[v[0].0 as int] == l.tys[v[0].0 as int]);
            assert(sound(u));
            assert(l.call_inst(call) == Ok::<Low, Seq<char>>(u));
            assert(at(u, e2, now) == at(t, e2, now));
            assert(meets(c, u, e2, act_call(c, st, call)->Done_0));
            e2
        },
        Reply::Stops(now) => {
            lemma_comes_on(m, fin, at(l, env, sc), at(s1, e1, sc), Config::Stopped(now));
            e1
        },
    }
}

/// `print`.
proof fn lemma_act_print<H>(
    c: Stage<H>,
    fin: Low,
    l: Low,
    env: Map<usize, Value>,
    st: Src<H>,
    call: Call,
) -> (e: Map<usize, Value>)
    requires
        meets(c, l, env, st),
        room(l, 64),
        one_result(l),
        call.callee@ == "print"@,
        "print"@ != "zeros"@,
        "print"@ != "len"@,
        l.call_inst(call) is Ok,
        grows(l.call_inst(call)->Ok_0, fin),
        !(act_call(c, st, call) is Odd),
    ensures
        follows(c, fin, l, l.call_inst(call)->Ok_0, env, st, act_call(c, st, call), e),
{
    let m = c.machine;
    let w = m.floats;
    let sc = st.scene;
    let xs = arguments(c, st, call.args@, call.args@.len())->0;
    lemma_arguments_known(c, l, env, st, call.args@, call.args@.len());
    let v = l.marshal(call.args@, call.args@.len())->Ok_0;
    let ty = l.source_ty(call.args@[0]);
    assert(ty == declared(c.ir, call.args@[0]));
    assert(type_of(xs[0]) == ty) by {
        assert(st.vals.dom().contains(call.args@[0].0));
    }
    let name = print_symbol(ty);
    let i64t = ClifTy::I64;
    lemma_grows_self(l);
    lemma_adds_none(w, l, env);
    let o = OpV::Convert(
        if ty == Ty::I32 {
            ConvertOp::Sextend
        } else {
            ConvertOp::Uextend
        },
        i64t,
        v[0],
    );
    let wide = ty == Ty::I32 || ty == Ty::Bool;
    lemma_emit(l, l, 0, o, i64t);
    lemma_adds_ins(w, l, l, o, i64t, env, 0);
    let s = if wide {
        l.ins(o, i64t)
    } else {
        l
    };
    let arg = if wide {
        l.next()
    } else {
        v[0]
    };
    let e1 = machine_values(w, l, s, env);
    assert(adds(w, l, s, env, 1));
    assert(emits(l, s, 1));
    assert(values(v, env)[0] == xs[0]);
    assert(e1[arg.0] == told(xs[0]));
    lemma_one_result(l, name);
    lemma_emit_call(l, s, 1, name, seq![arg]);
    lemma_import(s, name);
    let (s1, f) = s.import(name)->Ok_0;
    let t = s1.call(f, seq![arg]);
    assert(l.call_inst(call) == Ok::<Low, Seq<char>>(t));
    lemma_put(s1, OpV::Call(f, seq![arg]), s1.import_sig(f).returns);
    lemma_grows_on(s1, t, fin);
    lemma_grows_on(s, s1, fin);
    lemma_computes(m, fin, l, s, env, 1, sc);
    assert(at(s, e1, sc) == at(s1, e1, sc));
    assert(values(seq![arg], e1) =~= seq![told(xs[0])]);
    lemma_called(m, fin, s1, f, name, seq![arg], e1, sc);
    assert(s1.import_sig(f).returns == returns_of(c.callees, name));
    match (m.host)(name, values(seq![arg], e1), sc) {
        Reply::Gives(rs, now) => {
            lemma_comes_on(m, fin, at(l, env, sc), at(s, e1, sc), at(t, e1, now));
            lemma_meets_on(c, l, t, env, e1, st, now);
        },
        Reply::Stops(now) => {
            lemma_comes_on(m, fin, at(l, env, sc), at(s, e1, sc), Config::Stopped(now));
        },
    }
    e1
}

/// Functions of the program and of the host.
proof fn lemma_act_user<H>(
    c: Stage<H>,
    fin: Low,
    l: Low,
    env: Map<usize, Value>,
    st: Src<H>,
    call: Call,
) -> (e: Map<usize, Value>)
    requires
        meets(c, l, env, st),
        room(l, 64),
        one_result(l),
        call.callee@ != "zeros"@,
        call.callee@ != "len"@,
        call.callee@ != "print"@,
        call.callee@ != "sqrt"@,
        call.callee@ != "abs"@,
        call.callee@ != "min"@,
        call.callee@ != "max"@,
        l.call_inst(call) is Ok,
        grows(l.call_inst(call)->Ok_0, fin),
        !(act_call(c, st, call) is Odd),
    ensures
        follows(c, fin, l, l.call_inst(call)->Ok_0, env, st, act_call(c, st, call), e),
{
    let m = c.machine;
    let sc = st.scene;
    let xs = arguments(c, st, call.args@, call.args@.len())->0;
    lemma_arguments_known(c, l, env, st, call.args@, call.args@.len());
    let v = l.marshal(call.args@, call.args@.len())->Ok_0;
    let name = call.callee@;
    lemma_grows_self(l);
    lemma_one_result(l, name);
    lemma_emit_call(l, l, 0, name, v);
    lemma_import(l, name);
    let (s1, f) = l.import(name)->Ok_0;
    let t = s1.call(f, v);
    lemma_put(s1, OpV::Call(f, v), s1.import_sig(f).returns);
    assert(grows(t, fin));
    assert(at(l, env, sc) == at(s1, env, sc));
    lemma_called(m, fin, s1, f, name, v, env, sc);
    match (m.host)(name, xs, sc) {
        Reply::Gives(rs, now) => {
            let e = if rs.len() == 0 {
                env
            } else {
                env.insert(s1.next().0, rs[0])
            };
            match call.dst {
                Some(d) => {
                    assert(t.ty_of(s1.next()) == s1.import_sig(f).returns[0]);
                    lemma_defines(c, l, t, env, e, st, now, d, rs[0], s1.next());
                    assert(at(t.bind(d, s1.next()), e, now) == at(t, e, now));
                },
                None => {
                    lemma_meets_on(c, l, t, env, e, st, now);
                },
            }
            e
        },
        Reply::Stops(now) => env,
    }
}

/// `sqrt`, `abs`, `min`, `max` and `len`.
#[verifier::rlimit(80)]
proof fn lemma_act_builtin<H>(
    c: Stage<H>,
    fin: Low,
    l: Low,
    env: Map<usize, Value>,
    st: Src<H>,
    call: Call,
) -> (e: Map<usize, Value>)
    requires
        meets(c, l, env, st),
        room(l, 64),
        call.callee@ != "zeros"@,
        call.callee@ != "print"@,
        "sqrt"@ != "len"@,
        "abs"@ != "len"@,
        "min"@ != "len"@,
        "max"@ != "len"@,
        call.callee@ == "len"@ || call.callee@ == "sqrt"@ || call.callee@ == "abs"@ || call.callee@
            == "min"@ || call.callee@ == "max"@,
        l.call_inst(call) is Ok,
        grows(l.call_inst(call)->Ok_0, fin),
        !(act_call(c, st, call) is Odd),
    ensures
        follows(c, fin, l, l.call_inst(call)->Ok_0, env, st, act_call(c, st, call), e),
{
    let m = c.machine;
    let w = m.floats;
    let sc = st.scene;
    let name = call.callee@;
    let xs = arguments(c, st, call.args@, call.args@.len())->0;
    lemma_arguments_known(c, l, env, st, call.args@, call.args@.len());
    let v = l.marshal(call.args@, call.args@.len())->Ok_0;
    let s = l.call_inst(call)->Ok_0;
    lemma_grows_self(l);
    lemma_adds_none(w, l, env);
    if name == "len"@ {
        let a = LocalId(call.args@[0].0);
        lemma_pair_known(c, l, env, st, a);
        let p = l.lookup_array(a)->Ok_0;
        lemma_comes(m, fin, at(l, env, sc));
        match call.dst {
            Some(d) => {
                lemma_defines(c, l, l, env, env, st, sc, d, xs[1], p.len);
                assert(at(s, env, sc) == at(l, env, sc));
            },
            None => {},
        }
        env
    } else {
        assert(values(v, env)[0] == xs[0]);
        let x = v[0];
        assert(l.has(x) && env[x.0] == xs[0]);
        assert(l.source_ty(call.args@[0]) == type_of(xs[0])) by {
            assert(st.vals.dom().contains(call.args@[0].0));
        }
        let float = is_float(l.source_ty(call.args@[0]));
        let t = l.ty_of(x);
        let (r, q) = if name == "sqrt"@ {
            (l.ins(OpV::Unary(UnaryOp::Sqrt, x), t), l.next())
        } else if name == "abs"@ {
            l.abs(float, x)
        } else {
            l.minmax(name == "min"@, float, x, v[1])
        };
        let val = if name == "sqrt"@ {
            sqrt_value(w, xs[0])->Done_0
        } else if name == "abs"@ {
            abs_value(w, xs[0])->Done_0
        } else {
            extreme(w, name == "min"@, xs[0], xs[1])->Done_0
        };
        if name == "sqrt"@ {
            let o = OpV::Unary(UnaryOp::Sqrt, x);
            lemma_emit(l, l, 0, o, t);
            lemma_ins(l, o, t);
            lemma_adds_ins(w, l, l, o, t, env, 0);
        } else if name == "abs"@ {
            lemma_abs_runs(w, l, x, xs[0], env);
        } else {
            assert(values(v, env)[1] == xs[1]);
            lemma_minmax_runs(w, l, name == "min"@, x, v[1], xs[0], xs[1], env);
        }
        let e = machine_values(w, l, r, env);
        assert(s == r.bind_result(call.dst, q));
        assert(grows(r, fin));
        lemma_computes(m, fin, l, r, env, 6, sc);
        match call.dst {
            Some(d) => {
                lemma_defines(c, l, r, env, e, st, sc, d, val, q);
                assert(at(s, e, sc) == at(r, e, sc));
            },
            None => {
                lemma_meets_on(c, l, r, env, e, st, sc);
            },
        }
        e
    }
}

/// The code of `abs`.
#[verifier::rlimit(40)]
proof fn lemma_abs_runs(w: FloatWorld, l: Low, x: Val, a: Value, env: Map<usize, Value>)
    requires
        sound(l),
        room(l, 64),
        l.has(x),
        env[x.0] == a,
        l.ty_of(x) == scalar_ty(type_of(a)),
        abs_value(w, a) is Done,
    ensures
        ({
            let (r, q) = l.abs(is_float(type_of(a)), x);
            let v = abs_value(w, a)->Done_0;
            &&& adds(w, l, r, env, 6)
            &&& emits(l, r, 20)
            &&& r.has(q)
            &&& machine_values(w, l, r, env)[q.0] == v
            &&& r.ty_of(q) == scalar_ty(type_of(v))
        }),
{
    let float = is_float(type_of(a));
    let t = l.ty_of(x);
    lemma_narrow();
    crate::lays::lemma_abs_emits(l, float, x);
    lemma_grows_self(l);
    lemma_adds_none(w, l, env);
    if float {
        let o = OpV::Unary(UnaryOp::Fabs, x);
        lemma_ins(l, o, t);
        lemma_adds_ins(w, l, l, o, t, env, 0);
    } else {
        let neg = l.next();
        let o1 = OpV::Unary(UnaryOp::Ineg, x);
        lemma_emit(l, l, 0, o1, t);
        lemma_adds_ins(w, l, l, o1, t, env, 0);
        let s1 = l.ins(o1, t);
        let zero = s1.next();
        let o2 = OpV::Iconst(t, 0);
        lemma_emit(l, s1, 1, o2, t);
        lemma_adds_ins(w, l, s1, o2, t, env, 1);
        let s2 = s1.ins(o2, t);
        let e2 = machine_values(w, l, s2, env);
        let below = s2.next();
        let o3 = OpV::IntCompare(IntCond::LessThan, x, zero);
        lemma_emit(l, s2, 2, o3, ClifTy::I8);
        lemma_adds_ins(w, l, s2, o3, ClifTy::I8, env, 2);
        let s3 = s2.ins(o3, ClifTy::I8);
        let e3 = machine_values(w, l, s3, env);
        assert(e2[x.0] == a && whole(e2[zero.0]) == 0);
        assert(e3[below.0] == Value::Bool(whole(a) < 0));
        assert(e3[neg.0] == e2[neg.0] && e3[x.0] == a);
        let o4 = OpV::Select(below, neg, x);
        lemma_emit(l, s3, 3, o4, t);
        lemma_ins(s3, o4, t);
        lemma_adds_ins(w, l, s3, o4, t, env, 3);
    }
}

/// The code of `min` and `max`.
#[verifier::rlimit(60)]
proof fn lemma_minmax_runs(
    w: FloatWorld,
    l: Low,
    min: bool,
    x: Val,
    y: Val,
    a: Value,
    b: Value,
    env: Map<usize, Value>,
)
    requires
        sound(l),
        room(l, 64),
        l.has(x),
        l.has(y),
        env[x.0] == a,
        env[y.0] == b,
        l.ty_of(x) == scalar_ty(type_of(a)),
        l.ty_of(y) == scalar_ty(type_of(b)),
        extreme(w, min, a, b) is Done,
    ensures
        ({
            let (r, q) = l.minmax(min, is_float(type_of(a)), x, y);
            let v = extreme(w, min, a, b)->Done_0;
            &&& adds(w, l, r, env, 6)
            &&& emits(l, r, 20)
            &&& r.has(q)
            &&& machine_values(w, l, r, env)[q.0] == v
            &&& r.ty_of(q) == scalar_ty(type_of(v))
        }),
{
    let float = is_float(type_of(a));
    crate::lays::lemma_minmax_emits(l, min, float, x, y);
    lemma_grows_self(l);
    lemma_adds_none(w, l, env);
    let i8t = ClifTy::I8;
    let tx = l.ty_of(x);
    let ty = l.ty_of(y);
    let wins = l.next();
    if float {
        let c = if min {
            FloatCond::LessThan
        } else {
            FloatCond::GreaterThan
        };
        let o1 = OpV::FloatCompare(c, x, y);
        lemma_emit(l, l, 0, o1, i8t);
        lemma_adds_ins(w, l, l, o1, i8t, env, 0);
        let s1 = l.ins(o1, i8t);
        let e1 = machine_values(w, l, s1, env);
        assert(e1[x.0] == a && e1[y.0] == b);
        let base = s1.next();
        let o2 = OpV::Select(wins, x, y);
        lemma_emit(l, s1, 1, o2, tx);
        lemma_adds_ins(w, l, s1, o2, tx, env, 1);
        let s2 = s1.ins(o2, tx);
        let e2 = machine_values(w, l, s2, env);
        assert(e2[x.0] == a && e2[y.0] == b);
        let x_nan = s2.next();
        let o3 = OpV::FloatCompare(FloatCond::Unordered, x, x);
        lemma_emit(l, s2, 2, o3, i8t);
        lemma_adds_ins(w, l, s2, o3, i8t, env, 2);
        let s3 = s2.ins(o3, i8t);
        let e3 = machine_values(w, l, s3, env);
        assert(e3[x.0] == a && e3[y.0] == b && e3[base.0] == e2[base.0]);
        let y_nan = s3.next();
        let o4 = OpV::FloatCompare(FloatCond::Unordered, y, y);
        lemma_emit(l, s3, 3, o4, i8t);
        lemma_adds_ins(w, l, s3, o4, i8t, env, 3);
        let s4 = s3.ins(o4, i8t);
        let e4 = machine_values(w, l, s4, env);
        assert(e4[x.0] == a && e4[y.0] == b && e4[base.0] == e2[base.0] && e4[x_nan.0]
            == e3[x_nan.0]);
        let chosen = s4.next();
        let o5 = OpV::Select(x_nan, y, base);
        lemma_emit(l, s4, 4, o5, ty);
        lemma_adds_ins(w, l, s4, o5, ty, env, 4);
        let s5 = s4.ins(o5, ty);
        let e5 = machine_values(w, l, s5, env);
        assert(e5[x.0] == a && e5[y_nan.0] == e4[y_nan.0]);
        let o6 = OpV::Select(y_nan, x, chosen);
        lemma_emit(l, s5, 5, o6, tx);
        lemma_ins(s5, o6, tx);
        lemma_adds_ins(w, l, s5, o6, tx, env, 5);
    } else {
        let c = if min {
            IntCond::LessThan
        } else {
            IntCond::GreaterThan
        };
        let o1 = OpV::IntCompare(c, x, y);
        lemma_emit(l, l, 0, o1, i8t);
        lemma_adds_ins(w, l, l, o1, i8t, env, 0);
        let s1 = l.ins(o1, i8t);
        let e1 = machine_values(w, l, s1, env);
        assert(e1[x.0] == a && e1[y.0] == b);
        let o2 = OpV::Select(wins, x, y);
        lemma_emit(l, s1, 1, o2, tx);
        lemma_ins(s1, o2, tx);
        lemma_adds_ins(w, l, s1, o2, tx, env, 1);
    }
}

/// The names of built-in functions differ.
proof fn lemma_builtin_names()
    ensures
        "print"@ != "zeros"@,
        "print"@ != "len"@,
        "sqrt"@ != "len"@,
        "abs"@ != "len"@,
        "min"@ != "len"@,
        "max"@ != "len"@,
        "zeros"@ != "len"@,
        "sqrt"@ != "zeros"@,
        "sqrt"@ != "print"@,
        "abs"@ != "zeros"@,
        "abs"@ != "print"@,
        "min"@ != "zeros"@,
        "min"@ != "print"@,
        "max"@ != "zeros"@,
        "max"@ != "print"@,
{
    reveal_strlit("print");
    reveal_strlit("zeros");
    reveal_strlit("len");
    reveal_strlit("sqrt");
    reveal_strlit("abs");
    reveal_strlit("min");
    reveal_strlit("max");
    assert("print"@[0] == 'p' && "zeros"@[0] == 'z' && "len"@[0] == 'l' && "sqrt"@[0] == 's'
        && "abs"@[0] == 'a' && "min"@[0] == 'm' && "max"@[0] == 'm');
}

/// One instruction: its code does what it does.
pub proof fn lemma_act<H>(
    c: Stage<H>,
    fin: Low,
    l: Low,
    env: Map<usize, Value>,
    st: Src<H>,
    i: Inst,
    span: Span,
) -> (e: Map<usize, Value>)
    requires
        meets(c, l, env, st),
        room(l, 64),
        one_result(l),
        l.inst(i) is Ok,
        grows(l.inst(i)->Ok_0, fin),
        !(act(c, st, i, span) is Odd),
    ensures
        follows(c, fin, l, l.inst(i)->Ok_0, env, st, act(c, st, i, span), e),
{
    match i {
        Inst::Load(load) => lemma_act_load(c, fin, l, env, st, load, span),
        Inst::Store { arr, idx, val } => lemma_act_store(c, fin, l, env, st, arr, idx, val, span),
        Inst::Call(call) => {
            lemma_builtin_names();
            let name = call.callee@;
            if name == "zeros"@ {
                lemma_act_zeros(c, fin, l, env, st, call)
            } else if name == "print"@ {
                lemma_act_print(c, fin, l, env, st, call)
            } else if name == "len"@ || name == "sqrt"@ || name == "abs"@ || name == "min"@ || name
                == "max"@ {
                lemma_act_builtin(c, fin, l, env, st, call)
            } else {
                lemma_act_user(c, fin, l, env, st, call)
            }
        },
        Inst::Bin { op, dst, a, b } => {
            if (op is Div || op is Rem) && !is_float(type_of(st.vals[a.0])) {
                assert(st.vals.dom().contains(a.0) && st.vals.dom().contains(b.0));
                assert(l.lookup(a) == Ok::<Val, Seq<char>>(l.vals[a.0]));
                assert(l.lookup(b) == Ok::<Val, Seq<char>>(l.vals[b.0]));
                assert(l.source_ty(dst) == declared(c.ir, dst));
                lemma_act_div(c, fin, l, env, st, op is Rem, dst, a, b, span)
            } else {
                lemma_act_plain(c, fin, l, env, st, i, span)
            }
        },
        _ => lemma_act_plain(c, fin, l, env, st, i, span),
    }
}

} // verus!
