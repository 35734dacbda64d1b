//! How a region is handed to the host: the machine code at its header tells the host what
//! the body captures, has it run the iterations from the start of the loop to its end, and
//! goes on behind the loop.
use vstd::prelude::*;

use crate::acts::{declared, pair, returns_of, subscript, Src, Stage};
use crate::clif::{scalar_ty, ClifTy, ConvertOp, OpV, Val};
use crate::cpu::{comes, lemma_comes, lemma_comes_on, tick, values, Config, Machine, Reply, Scene};
use crate::drives::{
    at, frames, lemma_adds_ins, lemma_called, lemma_computes, lemma_defines, lemma_meets_on,
    lemma_pair_known, meets,
};
use crate::faithful::lemma_edge_lays;
use crate::floats::{FloatOp, FloatWorld, Precision};
use crate::ir::{LocalId, ValueId};
use crate::lays::{
    emits, grows, lays, lemma_emit, lemma_emit_call, lemma_grows_on, lemma_grows_self, lemma_import,
    lemma_lays_on, lemma_one_result, lemma_put, one_result, room, sound, within,
};
use crate::lower::{edge_arg, Low};
use crate::operators::{scalar, type_of};
use crate::outline::RKind;
use crate::parallel::HookV;
use crate::transfer::{adds, lemma_adds_none, lemma_edge, machine_values};
use crate::value::Value;

verus! {

/// A number at full width: integers as 64-bit integers, floating-point numbers at double
/// precision.
pub open spec fn full(w: FloatWorld, v: Value) -> Value {
    match v {
        Value::I32(x) => Value::I64(x as i64),
        Value::F32(b) => Value::F64(
            (w.ops)(FloatOp::FromOther, Precision::Double, b as u64, 0),
        ),
        v => v,
    }
}

/// The number is of the kind.
pub open spec fn of_kind(v: Value, float: bool) -> bool {
    match v {
        Value::I64(_) | Value::I32(_) => !float,
        Value::F64(_) | Value::F32(_) => float,
        _ => false,
    }
}

/// The captured values are there, and are numbers of their kinds.
pub open spec fn scalars_there<H>(st: Src<H>, scalars: Seq<(u32, u64, bool, i64)>) -> bool {
    forall|k: int|
        0 <= k < scalars.len() ==> st.vals.dom().contains((#[trigger] scalars[k]).0) && of_kind(
            st.vals[scalars[k].0],
            scalars[k].2,
        )
}

/// The captured arrays are there.
pub open spec fn arrays_there<H>(
    c: Stage<H>,
    st: Src<H>,
    arrays: Seq<(LocalId, i64, i64)>,
) -> bool {
    forall|k: int| 0 <= k < arrays.len() ==> pair(c, st, (#[trigger] arrays[k]).0) is Some
}

/// What is left after the host was told the first `k` captured values, each at full width
/// with the word of its offset; `None` where it answers.
pub open spec fn after_scalars<H>(
    m: Machine<H>,
    st: Src<H>,
    scalars: Seq<(u32, u64, bool, i64)>,
    k: nat,
) -> Option<Scene<H>>
    decreases k,
{
    if k == 0 {
        Some(st.scene)
    } else {
        match after_scalars(m, st, scalars, (k - 1) as nat) {
            Some(sc) => {
                let (v, _, float, off) = scalars[k - 1];
                match (m.host)(
                    if float {
                        "helix_stash_f"@
                    } else {
                        "helix_stash_i"@
                    },
                    seq![Value::I64((off / 8) as i64), full(m.floats, st.vals[v])],
                    sc,
                ) {
                    Reply::Gives(rs, now) => if rs.len() == 0 {
                        Some(now)
                    } else {
                        None
                    },
                    Reply::Stops(_) => None,
                }
            },
            None => None,
        }
    }
}

/// What is left after the host was told address and length of the first `k` arrays, each
/// with the number of its slot; `None` where it answers.
pub open spec fn after_arrays<H>(
    c: Stage<H>,
    st: Src<H>,
    arrays: Seq<(LocalId, i64, i64)>,
    k: nat,
) -> Option<Scene<H>>
    decreases k,
{
    if k == 0 {
        Some(st.scene)
    } else {
        match after_arrays(c, st, arrays, (k - 1) as nat) {
            Some(sc) => {
                let (base, len) = pair(c, st, arrays[k - 1].0)->0;
                match (c.machine.host)(
                    "helix_stash_arr"@,
                    seq![Value::I64((k - 1) as i64), Value::I64(base), Value::I64(len)],
                    sc,
                ) {
                    Reply::Gives(rs, now) => if rs.len() == 0 {
                        Some(now)
                    } else {
                        None
                    },
                    Reply::Stops(_) => None,
                }
            },
            None => None,
        }
    }
}

/// The same values and arrays with another scene.
pub open spec fn moved<H>(st: Src<H>, sc: Scene<H>) -> Src<H> {
    Src { vals: st.vals, arrs: st.arrs, scene: sc }
}

/// A call behind code that only computes: the host is told what was computed.
#[verifier::rlimit(30)]
proof fn lemma_speaks<H>(
    c: Stage<H>,
    fin: Low,
    l: Low,
    s: Low,
    n: nat,
    name: Seq<char>,
    args: Seq<Val>,
    env: Map<usize, Value>,
    st: Src<H>,
) -> (e: Map<usize, Value>)
    requires
        meets(c, l, env, st),
        room(l, 64),
        n <= 8,
        one_result(l),
        emits(l, s, n as int),
        adds(c.machine.floats, l, s, env, n),
        s.import(name) is Ok,
        grows((s.import(name)->Ok_0).0.call((s.import(name)->Ok_0).1, args), fin),
    ensures
        ({
            let (s1, f) = s.import(name)->Ok_0;
            let t = s1.call(f, args);
            let told = values(args, machine_values(c.machine.floats, l, s, env));
            &&& emits(l, t, n as int + 2)
            &&& t.cur == l.cur
            &&& s1.import_sig(f).returns == returns_of(c.callees, name)
            &&& s1.next() == s.next()
            &&& match (c.machine.host)(name, told, st.scene) {
                Reply::Gives(rs, now) => rs.len() == returns_of(c.callees, name).len() ==> {
                    &&& comes(c.machine, fin, at(l, env, st.scene), at(t, e, now))
                    &&& frames(l, env, e)
                    &&& meets(c, t, e, moved(st, now))
                    &&& rs.len() == 1 ==> e[s.next().0] == rs[0] && t.has(s.next()) && t.ty_of(
                        s.next(),
                    ) == returns_of(c.callees, name)[0]
                },
                Reply::Stops(now) => comes(
                    c.machine,
                    fin,
                    at(l, env, st.scene),
                    Config::Stopped(now),
                ),
            }
        }),
{
    let m = c.machine;
    let w = m.floats;
    let sc = st.scene;
    let (s1, f) = s.import(name)->Ok_0;
    let t = s1.call(f, args);
    let mid = machine_values(w, l, s, env);
    let told = values(args, mid);
    lemma_one_result(l, name);
    lemma_emit_call(l, s, n as int, name, args);
    lemma_import(s, name);
    lemma_put(s1, OpV::Call(f, args), s1.import_sig(f).returns);
    lemma_grows_on(s1, t, fin);
    lemma_grows_on(s, s1, fin);
    lemma_computes(m, fin, l, s, env, n, sc);
    assert(at(s, mid, sc) == at(s1, mid, sc));
    lemma_called(m, fin, s1, f, name, args, mid, sc);
    match (m.host)(name, told, sc) {
        Reply::Gives(rs, now) => {
            let e = if rs.len() == 0 {
                mid
            } else {
                mid.insert(s1.next().0, rs[0])
            };
            if rs.len() == returns_of(c.callees, name).len() {
                lemma_comes_on(m, fin, at(l, env, sc), at(s, mid, sc), at(t, e, now));
                assert forall|k: usize| k < l.tys.len() implies #[trigger] e[k] == env[k] by {
                    assert(mid[k] == env[k]);
                }
                lemma_meets_on(c, l, t, env, e, st, now);
            }
            e
        },
        Reply::Stops(now) => {
            lemma_comes_on(m, fin, at(l, env, sc), at(s, mid, sc), Config::Stopped(now));
            env
        },
    }
}

/// A captured value adds so much.
proof fn lemma_scalar_emits(l: Low, s: (u32, u64, bool, i64))
    requires
        sound(l),
        room(l, 64),
        one_result(l),
        l.stash_scalar(s) is Ok,
    ensures
        emits(l, l.stash_scalar(s)->Ok_0, 4),
        l.stash_scalar(s)->Ok_0.cur == l.cur,
{
    lemma_grows_self(l);
    let x = l.lookup(ValueId(s.0))->Ok_0;
    let word = OpV::Iconst(ClifTy::I64, (s.3 / 8) as i64);
    lemma_emit(l, l, 0, word, ClifTy::I64);
    let s1 = l.ins(word, ClifTy::I64);
    let t = s1.ty_of(x);
    let name = if s.2 {
        "helix_stash_f"@
    } else {
        "helix_stash_i"@
    };
    lemma_one_result(l, name);
    let up = OpV::Convert(ConvertOp::Fpromote, ClifTy::F64, x);
    let ext = OpV::Convert(ConvertOp::Sextend, ClifTy::I64, x);
    lemma_emit(l, s1, 1, up, ClifTy::F64);
    lemma_emit(l, s1, 1, ext, ClifTy::I64);
    let (s2, y) = if s.2 && t == ClifTy::F32 {
        (s1.ins(up, ClifTy::F64), s1.next())
    } else if !s.2 && t == ClifTy::I32 {
        (s1.ins(ext, ClifTy::I64), s1.next())
    } else {
        (s1, x)
    };
    lemma_emit_call(l, s2, 2, name, seq![l.next(), y]);
    lemma_import(s2, name);
}

/// A captured value is told to the host.
#[verifier::rlimit(30)]
proof fn lemma_scalar_told<H>(
    c: Stage<H>,
    fin: Low,
    l: Low,
    s: (u32, u64, bool, i64),
    env: Map<usize, Value>,
    st: Src<H>,
) -> (e: Map<usize, Value>)
    requires
        meets(c, l, env, st),
        room(l, 64),
        one_result(l),
        l.stash_scalar(s) is Ok,
        grows(l.stash_scalar(s)->Ok_0, fin),
        st.vals.dom().contains(s.0),
        of_kind(st.vals[s.0], s.2),
        returns_of(
            c.callees,
            if s.2 {
                "helix_stash_f"@
            } else {
                "helix_stash_i"@
            },
        ).len() == 0,
    ensures
        ({
            let t = l.stash_scalar(s)->Ok_0;
            match (c.machine.host)(
                if s.2 {
                    "helix_stash_f"@
                } else {
                    "helix_stash_i"@
                },
                seq![Value::I64((s.3 / 8) as i64), full(c.machine.floats, st.vals[s.0])],
                st.scene,
            ) {
                Reply::Gives(rs, now) => rs.len() == 0 ==> comes(
                    c.machine,
                    fin,
                    at(l, env, st.scene),
                    at(t, e, now),
                ) && frames(l, env, e) && meets(c, t, e, moved(st, now)),
                Reply::Stops(now) => comes(
                    c.machine,
                    fin,
                    at(l, env, st.scene),
                    Config::Stopped(now),
                ),
            }
        }),
{
    let w = c.machine.floats;
    let v = st.vals[s.0];
    lemma_grows_self(l);
    lemma_adds_none(w, l, env);
    assert(l.vals.dom().contains(s.0));
    assert(ValueId(s.0).0 == s.0);
    let x = l.lookup(ValueId(s.0))->Ok_0;
    assert(l.has(x));
    let word = OpV::Iconst(ClifTy::I64, (s.3 / 8) as i64);
    lemma_emit(l, l, 0, word, ClifTy::I64);
    lemma_adds_ins(w, l, l, word, ClifTy::I64, env, 0);
    let s1 = l.ins(word, ClifTy::I64);
    let e1 = machine_values(w, l, s1, env);
    assert(machine_values(w, l, l, env) =~= env);
    let t = s1.ty_of(x);
    assert(t == l.ty_of(x));
    let name = if s.2 {
        "helix_stash_f"@
    } else {
        "helix_stash_i"@
    };
    let up = OpV::Convert(ConvertOp::Fpromote, ClifTy::F64, x);
    let ext = OpV::Convert(ConvertOp::Sextend, ClifTy::I64, x);
    assert(e1[x.0] == v);
    assert(e1[l.next().0] == Value::I64((s.3 / 8) as i64));
    let (s2, y) = if s.2 && t == ClifTy::F32 {
        lemma_emit(l, s1, 1, up, ClifTy::F64);
        lemma_adds_ins(w, l, s1, up, ClifTy::F64, env, 1);
        (s1.ins(up, ClifTy::F64), s1.next())
    } else if !s.2 && t == ClifTy::I32 {
        lemma_emit(l, s1, 1, ext, ClifTy::I64);
        lemma_adds_ins(w, l, s1, ext, ClifTy::I64, env, 1);
        (s1.ins(ext, ClifTy::I64), s1.next())
    } else {
        (s1, x)
    };
    let n: nat = if s2 == s1 {
        1
    } else {
        2
    };
    let e2 = machine_values(w, l, s2, env);
    let args = seq![l.next(), y];
    let told = seq![Value::I64((s.3 / 8) as i64), full(w, v)];
    assert(e2[l.next().0] == Value::I64((s.3 / 8) as i64));
    assert(e2[y.0] == full(w, v));
    assert(values(args, e2) =~= told);
    lemma_speaks(c, fin, l, s2, n, name, args, env, st)
}

/// Code behind code.
proof fn lemma_emits_on(l: Low, s: Low, t: Low, a: int, b: int)
    requires
        emits(l, s, a),
        emits(s, t, b),
    ensures
        emits(l, t, a + b),
{
    lemma_lays_on(l, s, t);
}

/// The captured values add so much.
proof fn lemma_scalars_emit(l: Low, scalars: Seq<(u32, u64, bool, i64)>, k: nat)
    requires
        sound(l),
        k <= scalars.len(),
        room(l, 64 + 4 * k as int),
        one_result(l),
        l.stash_scalars(scalars, k) is Ok,
    ensures
        emits(l, l.stash_scalars(scalars, k)->Ok_0, 4 * k as int),
        l.stash_scalars(scalars, k)->Ok_0.cur == l.cur,
    decreases k,
{
    lemma_grows_self(l);
    if k > 0 {
        let p = (k - 1) as nat;
        lemma_scalars_emit(l, scalars, p);
        let s = l.stash_scalars(scalars, p)->Ok_0;
        lemma_scalar_emits(s, scalars[k - 1]);
        lemma_emits_on(l, s, l.stash_scalars(scalars, k)->Ok_0, 4 * p as int, 4);
    }
}

/// The host gives nothing back when it is told what is captured, and one value when it has
/// run a region or is asked for a result.
pub open spec fn listens<H>(c: Stage<H>) -> bool {
    &&& returns_of(c.callees, "helix_stash_i"@).len() == 0
    &&& returns_of(c.callees, "helix_stash_f"@).len() == 0
    &&& returns_of(c.callees, "helix_stash_arr"@).len() == 0
    &&& returns_of(c.callees, "helix_dispatch"@).len() == 1
    &&& returns_of(c.callees, "helix_read_i64"@).len() == 1
    &&& returns_of(c.callees, "helix_read_i32"@).len() == 1
    &&& returns_of(c.callees, "helix_read_f64"@).len() == 1
    &&& returns_of(c.callees, "helix_read_f32"@).len() == 1
}

/// The captured values are told to the host.
proof fn lemma_scalars_told<H>(
    c: Stage<H>,
    fin: Low,
    l: Low,
    scalars: Seq<(u32, u64, bool, i64)>,
    k: nat,
    env: Map<usize, Value>,
    st: Src<H>,
) -> (e: Map<usize, Value>)
    requires
        meets(c, l, env, st),
        k <= scalars.len(),
        room(l, 64 + 4 * k as int),
        one_result(l),
        listens(c),
        scalars_there(st, scalars),
        l.stash_scalars(scalars, k) is Ok,
        grows(l.stash_scalars(scalars, k)->Ok_0, fin),
        after_scalars(c.machine, st, scalars, k) is Some,
    ensures
        ({
            let t = l.stash_scalars(scalars, k)->Ok_0;
            let sc = after_scalars(c.machine, st, scalars, k)->0;
            &&& comes(c.machine, fin, at(l, env, st.scene), at(t, e, sc))
            &&& meets(c, t, e, moved(st, sc))
        }),
    decreases k,
{
    let m = c.machine;
    if k == 0 {
        lemma_comes(m, fin, at(l, env, st.scene));
        assert(moved(st, st.scene) == st);
        env
    } else {
        let p = (k - 1) as nat;
        let s = l.stash_scalars(scalars, p)->Ok_0;
        let t = l.stash_scalars(scalars, k)->Ok_0;
        lemma_scalars_emit(l, scalars, p);
        lemma_scalar_emits(s, scalars[k - 1]);
        lemma_grows_on(s, t, fin);
        let e1 = lemma_scalars_told(c, fin, l, scalars, p, env, st);
        let sc1 = after_scalars(m, st, scalars, p)->0;
        assert(scalars[k - 1].0 == scalars[k - 1].0);
        let e = lemma_scalar_told(c, fin, s, scalars[k - 1], e1, moved(st, sc1));
        let sc = after_scalars(m, st, scalars, k)->0;
        lemma_comes_on(m, fin, at(l, env, st.scene), at(s, e1, sc1), at(t, e, sc));
        assert(moved(moved(st, sc1), sc) == moved(st, sc));
        e
    }
}

/// An array adds so much.
proof fn lemma_array_emits(l: Low, a: LocalId, slot: i64)
    requires
        sound(l),
        room(l, 64),
        one_result(l),
        l.stash_array(a, slot) is Ok,
    ensures
        emits(l, l.stash_array(a, slot)->Ok_0, 4),
        l.stash_array(a, slot)->Ok_0.cur == l.cur,
{
    lemma_grows_self(l);
    let p = l.lookup_array(a)->Ok_0;
    let number = OpV::Iconst(ClifTy::I64, slot);
    lemma_emit(l, l, 0, number, ClifTy::I64);
    let s1 = l.ins(number, ClifTy::I64);
    let name = "helix_stash_arr"@;
    lemma_one_result(l, name);
    lemma_emit_call(l, s1, 1, name, seq![l.next(), p.data, p.len]);
    lemma_import(s1, name);
}

/// The arrays add so much.
proof fn lemma_arrays_emit(l: Low, arrays: Seq<(LocalId, i64, i64)>, k: nat)
    requires
        sound(l),
        k <= arrays.len(),
        room(l, 64 + 4 * k as int),
        one_result(l),
        l.stash_arrays(arrays, k) is Ok,
    ensures
        emits(l, l.stash_arrays(arrays, k)->Ok_0, 4 * k as int),
        l.stash_arrays(arrays, k)->Ok_0.cur == l.cur,
    decreases k,
{
    lemma_grows_self(l);
    if k > 0 {
        let p = (k - 1) as nat;
        lemma_arrays_emit(l, arrays, p);
        let s = l.stash_arrays(arrays, p)->Ok_0;
        lemma_array_emits(s, arrays[k - 1].0, (k - 1) as i64);
        lemma_emits_on(l, s, l.stash_arrays(arrays, k)->Ok_0, 4 * p as int, 4);
    }
}

/// The arrays are told to the host.
#[verifier::rlimit(30)]
proof fn lemma_arrays_told<H>(
    c: Stage<H>,
    fin: Low,
    l: Low,
    arrays: Seq<(LocalId, i64, i64)>,
    k: nat,
    env: Map<usize, Value>,
    st: Src<H>,
) -> (e: Map<usize, Value>)
    requires
        meets(c, l, env, st),
        k <= arrays.len(),
        room(l, 64 + 4 * k as int),
        one_result(l),
        listens(c),
        arrays_there(c, st, arrays),
        l.stash_arrays(arrays, k) is Ok,
        grows(l.stash_arrays(arrays, k)->Ok_0, fin),
        after_arrays(c, st, arrays, k) is Some,
    ensures
        ({
            let t = l.stash_arrays(arrays, k)->Ok_0;
            let sc = after_arrays(c, st, arrays, k)->0;
            &&& comes(c.machine, fin, at(l, env, st.scene), at(t, e, sc))
            &&& meets(c, t, e, moved(st, sc))
        }),
    decreases k,
{
    let m = c.machine;
    let w = m.floats;
    if k == 0 {
        lemma_comes(m, fin, at(l, env, st.scene));
        assert(moved(st, st.scene) == st);
        env
    } else {
        let p = (k - 1) as nat;
        let s = l.stash_arrays(arrays, p)->Ok_0;
        let t = l.stash_arrays(arrays, k)->Ok_0;
        let a = arrays[k - 1].0;
        let slot = (k - 1) as i64;
        lemma_arrays_emit(l, arrays, p);
        lemma_array_emits(s, a, slot);
        lemma_grows_on(s, t, fin);
        let e1 = lemma_arrays_told(c, fin, l, arrays, p, env, st);
        let sc1 = after_arrays(c, st, arrays, p)->0;
        let mid = moved(st, sc1);
        assert(pair(c, st, a) is Some) by {
            assert(pair(c, st, arrays[k - 1].0) is Some);
        }
        assert(pair(c, mid, a) == pair(c, st, a));
        lemma_pair_known(c, s, e1, mid, a);
        let q = s.lookup_array(a)->Ok_0;
        let number = OpV::Iconst(ClifTy::I64, slot);
        lemma_grows_self(s);
        lemma_adds_none(w, s, e1);
        lemma_emit(s, s, 0, number, ClifTy::I64);
        lemma_adds_ins(w, s, s, number, ClifTy::I64, e1, 0);
        assert(machine_values(w, s, s, e1) =~= e1);
        let s1 = s.ins(number, ClifTy::I64);
        let e2 = machine_values(w, s, s1, e1);
        let args = seq![s.next(), q.data, q.len];
        let (base, len) = pair(c, st, a)->0;
        assert(values(args, e2) =~= seq![Value::I64(slot), Value::I64(base), Value::I64(len)]);
        let e = lemma_speaks(c, fin, s, s1, 1, "helix_stash_arr"@, args, e1, mid);
        let sc = after_arrays(c, st, arrays, k)->0;
        lemma_comes_on(m, fin, at(l, env, st.scene), at(s, e1, sc1), at(t, e, sc));
        assert(moved(mid, sc) == moved(st, sc));
        e
    }
}

/// What a bound of the loop is: the value at full width, or the constant.
pub open spec fn bound_at<H>(st: Src<H>, ssa: Option<u32>, c: i64) -> Option<i64> {
    match ssa {
        Some(v) => subscript(st, ValueId(v)),
        None => Some(c),
    }
}

/// A bound is computed.
proof fn lemma_bound_computed<H>(
    c: Stage<H>,
    l: Low,
    s: Low,
    n: nat,
    ssa: Option<u32>,
    k: i64,
    env: Map<usize, Value>,
    st: Src<H>,
)
    requires
        meets(c, l, env, st),
        room(l, 64),
        n <= 8,
        emits(l, s, n as int),
        s.cur == l.cur,
        adds(c.machine.floats, l, s, env, n),
        s.bound(ssa, k) is Ok,
        bound_at(st, ssa, k) is Some,
    ensures
        ({
            let w = c.machine.floats;
            let (t, x) = s.bound(ssa, k)->Ok_0;
            &&& emits(l, t, n as int + 1)
            &&& t.cur == l.cur
            &&& adds(w, l, t, env, n + 1)
            &&& t.has(x)
            &&& machine_values(w, l, t, env)[x.0] == Value::I64(bound_at(st, ssa, k)->0)
            &&& forall|j: usize|
                j < s.tys.len() ==> #[trigger] machine_values(w, l, t, env)[j] == machine_values(
                    w,
                    l,
                    s,
                    env,
                )[j]
        }),
{
    let w = c.machine.floats;
    let e = machine_values(w, l, s, env);
    match ssa {
        Some(v) => {
            assert(st.vals.dom().contains(v));
            assert(l.vals.dom().contains(v));
            let x = l.vals[v];
            assert(l.has(x));
            assert(s.lookup(ValueId(v)) == Ok::<Val, Seq<char>>(x));
            assert(e[x.0] == env[x.0]);
            assert(s.source_ty(ValueId(v)) == l.source_ty(ValueId(v)));
            let op = OpV::Convert(ConvertOp::Sextend, ClifTy::I64, x);
            lemma_emit(l, s, n as int, op, ClifTy::I64);
            lemma_adds_ins(w, l, s, op, ClifTy::I64, env, n);
        },
        None => {
            let op = OpV::Iconst(ClifTy::I64, k);
            lemma_emit(l, s, n as int, op, ClifTy::I64);
            lemma_adds_ins(w, l, s, op, ClifTy::I64, env, n);
        },
    }
}

/// The function of the host that gives the result of a reduction, by the width in bytes of
/// its accumulator and whether that is floating point.
pub open spec fn result_name(width: u64, float: bool) -> Seq<char> {
    if float {
        if width == 8 {
            "helix_read_f64"@
        } else {
            "helix_read_f32"@
        }
    } else if width == 8 {
        "helix_read_i64"@
    } else if width == 4 {
        "helix_read_i32"@
    } else {
        "helix_read_f32"@
    }
}

/// What the run goes on with when the host has run the region: for a reduction the host is
/// asked for the result, which the accumulator then is.
pub open spec fn with_result<H>(c: Stage<H>, st: Src<H>, h: HookV, handle: Value) -> Option<Src<H>> {
    match h.kind {
        RKind::DoAll => Some(st),
        RKind::Reduction(r) => match (c.machine.host)(
            result_name(r.width, r.float),
            seq![handle],
            st.scene,
        ) {
            Reply::Gives(rs, now) => if rs.len() != 1 {
                None
            } else {
                match h.acc_dst {
                    Some(d) => if declared(c.ir, ValueId(d)) == type_of(rs[0]) && scalar(rs[0])
                        && returns_of(c.callees, result_name(r.width, r.float))[0] == scalar_ty(
                        type_of(rs[0]),
                    ) {
                        Some(Src { vals: st.vals.insert(d, rs[0]), arrs: st.arrs, scene: now })
                    } else {
                        None
                    },
                    None => Some(moved(st, now)),
                }
            },
            Reply::Stops(_) => None,
        },
    }
}

/// Reading the result adds so much.
proof fn lemma_read_back_lays(l: Low, h: HookV, handle: Val)
    requires
        sound(l),
        room(l, 64),
        one_result(l),
        l.has(handle),
        l.read_back(h, handle) is Ok,
    ensures
        lays(l, l.read_back(h, handle)->Ok_0),
        within(l, l.read_back(h, handle)->Ok_0, 2),
        l.read_back(h, handle)->Ok_0.cur == l.cur,
{
    lemma_grows_self(l);
    if let RKind::Reduction(r) = h.kind {
        let name = crate::lower::read_symbol(r.width, r.float);
        lemma_one_result(l, name);
        lemma_emit_call(l, l, 0, name, seq![handle]);
        lemma_import(l, name);
        let (s1, f) = l.import(name)->Ok_0;
        let s2 = s1.call(f, seq![handle]);
        assert(s2.has(s1.next()));
        if let Some(d) = h.acc_dst {
            let t = s2.bind(ValueId(d), s1.next());
            assert(t.wf()) by {
                assert forall|v: u32|
                    #![trigger t.vals.dom().contains(v)]
                    t.vals.dom().contains(v) implies t.has(t.vals[v]) by {
                    if v != d {
                        assert(s2.vals.dom().contains(v));
                    }
                }
            }
        }
    }
}

/// The result is read.
#[verifier::rlimit(30)]
proof fn lemma_read_back<H>(
    c: Stage<H>,
    fin: Low,
    l: Low,
    h: HookV,
    handle: Val,
    env: Map<usize, Value>,
    st: Src<H>,
) -> (e: Map<usize, Value>)
    requires
        meets(c, l, env, st),
        room(l, 64),
        one_result(l),
        listens(c),
        l.has(handle),
        l.read_back(h, handle) is Ok,
        grows(l.read_back(h, handle)->Ok_0, fin),
        with_result(c, st, h, env[handle.0]) is Some,
    ensures
        ({
            let t = l.read_back(h, handle)->Ok_0;
            let now = with_result(c, st, h, env[handle.0])->0;
            &&& comes(c.machine, fin, at(l, env, st.scene), at(t, e, now.scene))
            &&& meets(c, t, e, now)
        }),
{
    let m = c.machine;
    let w = m.floats;
    match h.kind {
        RKind::DoAll => {
            lemma_comes(m, fin, at(l, env, st.scene));
            env
        },
        RKind::Reduction(r) => {
            let name = crate::lower::read_symbol(r.width, r.float);
            assert(name == result_name(r.width, r.float));
            let args = seq![handle];
            let (s1, f) = l.import(name)->Ok_0;
            let t0 = s1.call(f, args);
            lemma_grows_self(l);
            lemma_adds_none(w, l, env);
            assert(machine_values(w, l, l, env) =~= env);
            assert(values(args, env) =~= seq![env[handle.0]]);
            lemma_import(l, name);
            lemma_one_result(l, name);
            assert(grows(t0, fin));
            let e = lemma_speaks(c, fin, l, l, 0, name, args, env, st);
            let rs = (m.host)(name, seq![env[handle.0]], st.scene)->Gives_0;
            let sc = (m.host)(name, seq![env[handle.0]], st.scene)->Gives_1;
            if let Some(d) = h.acc_dst {
                let q = s1.next();
                lemma_defines(c, l, t0, env, e, st, sc, ValueId(d), rs[0], q);
                assert(at(t0.bind(ValueId(d), q), e, sc) == at(t0, e, sc));
            }
            e
        },
    }
}

/// The code behind the bounds adds so much.
proof fn lemma_dispatch_call_lays(l: Low, h: HookV, first: Val, last: Val)
    requires
        sound(l),
        room(l, 128 + l.ir.at(h.exit).phis@.len() as int),
        one_result(l),
        l.dispatch_call(h, first, last) is Ok,
    ensures
        lays(l, l.dispatch_call(h, first, last)->Ok_0),
{
    let n = l.ir.at(h.exit).phis@.len();
    let o1 = OpV::Iconst(ClifTy::I64, h.region_id);
    let o2 = OpV::Iconst(ClifTy::I64, crate::parallel::NTHREADS_HINT);
    lemma_grows_self(l);
    lemma_emit(l, l, 0, o1, ClifTy::I64);
    let s1 = l.ins(o1, ClifTy::I64);
    lemma_emit(l, s1, 1, o2, ClifTy::I64);
    let s2 = s1.ins(o2, ClifTy::I64);
    let name = "helix_dispatch"@;
    lemma_one_result(l, name);
    let args = seq![first, last, l.next(), s1.next()];
    lemma_emit_call(l, s2, 2, name, args);
    lemma_import(s2, name);
    let (s3, f) = s2.import(name)->Ok_0;
    let t = s3.call(f, args);
    assert(t.has(s3.next()));
    lemma_read_back_lays(t, h, s3.next());
    let s4 = t.read_back(h, s3.next())->Ok_0;
    lemma_edge_lays(s4, h.header, h.exit, n);
    let (s5, outs) = s4.whole_edge(h.header, h.exit);
    lemma_put(s5, OpV::Jump(h.exit.0 as usize, outs), seq![]);
    lemma_lays_on(l, t, s4);
    lemma_lays_on(l, s4, s5);
    lemma_lays_on(l, s5, s5.end(OpV::Jump(h.exit.0 as usize, outs)));
}

/// The host is told to run the iterations, and the run goes on behind the loop.
#[verifier::rlimit(40)]
proof fn lemma_dispatched<H>(
    c: Stage<H>,
    fin: Low,
    l: Low,
    h: HookV,
    env: Map<usize, Value>,
    st: Src<H>,
    handle: Value,
    sc: Scene<H>,
) -> (r: (Map<usize, Value>, Seq<Val>))
    requires
        meets(c, l, env, st),
        room(l, 192 + l.ir.at(h.exit).phis@.len() as int),
        one_result(l),
        listens(c),
        bound_at(st, h.start_ssa, h.start_const) is Some,
        bound_at(st, h.end_ssa, h.end_const) is Some,
        l.bound(h.start_ssa, h.start_const) is Ok,
        ({
            let (s3, first) = l.bound(h.start_ssa, h.start_const)->Ok_0;
            &&& s3.bound(h.end_ssa, h.end_const) is Ok
            &&& ({
                let (s4, last) = s3.bound(h.end_ssa, h.end_const)->Ok_0;
                &&& s4.dispatch_call(h, first, last) is Ok
                &&& grows(s4.dispatch_call(h, first, last)->Ok_0, fin)
            })
        }),
        (c.machine.host)(
            "helix_dispatch"@,
            seq![
                Value::I64(bound_at(st, h.start_ssa, h.start_const)->0),
                Value::I64(bound_at(st, h.end_ssa, h.end_const)->0),
                Value::I64(h.region_id),
                Value::I64(8),
            ],
            st.scene,
        ) == Reply::Gives(seq![handle], sc),
        with_result(c, moved(st, sc), h, handle) is Some,
    ensures
        ({
            let (e, args) = r;
            let now = with_result(c, moved(st, sc), h, handle)->0;
            &&& comes(
                c.machine,
                fin,
                at(l, env, st.scene),
                crate::faithful::past_edge(fin, h.exit, args, e, now.scene),
            )
            &&& crate::transfer::carries(c.ir, h.header, h.exit, args, e, now.vals)
        }),
{
    let m = c.machine;
    let w = m.floats;
    let n = l.ir.at(h.exit).phis@.len();
    let lo = bound_at(st, h.start_ssa, h.start_const)->0;
    let hi = bound_at(st, h.end_ssa, h.end_const)->0;
    lemma_grows_self(l);
    lemma_adds_none(w, l, env);
    let (s3, first) = l.bound(h.start_ssa, h.start_const)->Ok_0;
    lemma_bound_computed(c, l, l, 0, h.start_ssa, h.start_const, env, st);
    let (s4, last) = s3.bound(h.end_ssa, h.end_const)->Ok_0;
    lemma_bound_computed(c, l, s3, 1, h.end_ssa, h.end_const, env, st);
    let o1 = OpV::Iconst(ClifTy::I64, h.region_id);
    let o2 = OpV::Iconst(ClifTy::I64, crate::parallel::NTHREADS_HINT);
    lemma_emit(l, s4, 2, o1, ClifTy::I64);
    lemma_adds_ins(w, l, s4, o1, ClifTy::I64, env, 2);
    let s5 = s4.ins(o1, ClifTy::I64);
    lemma_emit(l, s5, 3, o2, ClifTy::I64);
    lemma_adds_ins(w, l, s5, o2, ClifTy::I64, env, 3);
    let s6 = s5.ins(o2, ClifTy::I64);
    let e6 = machine_values(w, l, s6, env);
    let name = "helix_dispatch"@;
    let args = seq![first, last, s4.next(), s5.next()];
    let told = seq![Value::I64(lo), Value::I64(hi), Value::I64(h.region_id), Value::I64(8)];
    assert(e6[first.0] == Value::I64(lo));
    assert(e6[last.0] == Value::I64(hi));
    assert(values(args, e6) =~= told);
    lemma_one_result(l, name);
    lemma_emit_call(l, s6, 4, name, args);
    lemma_import(s6, name);
    let (s7, f) = s6.import(name)->Ok_0;
    let t = s7.call(f, args);
    let all = s4.dispatch_call(h, first, last)->Ok_0;
    assert(t.has(s7.next()));
    lemma_read_back_lays(t, h, s7.next());
    let t1 = t.read_back(h, s7.next())->Ok_0;
    lemma_edge_lays(t1, h.header, h.exit, n);
    let (t2, outs) = t1.whole_edge(h.header, h.exit);
    let jump = OpV::Jump(h.exit.0 as usize, outs);
    lemma_put(t2, jump, seq![]);
    assert(all == t2.end(jump));
    lemma_grows_on(t2, all, fin);
    lemma_grows_on(t1, t2, fin);
    lemma_grows_on(t, t1, fin);
    let e7 = lemma_speaks(c, fin, l, s6, 4, name, args, env, st);
    assert(e7[s7.next().0] == handle);
    let mid = moved(st, sc);
    let e8 = lemma_read_back(c, fin, t, h, s7.next(), e7, mid);
    let now = with_result(c, mid, h, handle)->0;
    lemma_edge(w, t1, h.header, h.exit, n, e8, now.vals);
    let e = machine_values(w, t1, t2, e8);
    lemma_computes(m, fin, t1, t2, e8, n, now.scene);
    let from = at(l, env, st.scene);
    lemma_comes_on(m, fin, from, at(t, e7, sc), at(t1, e8, now.scene));
    lemma_comes_on(m, fin, from, at(t1, e8, now.scene), at(t2, e, now.scene));
    let b = t2.cur as int;
    let k = t2.blocks[b].insts.len() as int;
    assert(all.blocks[b].insts[k].op == jump);
    assert(fin.blocks[b].params == all.blocks[b].params);
    assert(fin.blocks[b].insts[k] == all.blocks[b].insts[k]);
    let here = at(t2, e, now.scene);
    lemma_comes(m, fin, here);
    lemma_comes_on(m, fin, from, here, tick(m, fin, here));
    assert forall|i: int|
        #![trigger outs[i]]
        0 <= i < outs.len() && now.vals.dom().contains((edge_arg(c.ir, h.header, h.exit, i)->0).0)
            implies e[outs[i].0] == now.vals[(edge_arg(c.ir, h.header, h.exit, i)->0).0] by {
        assert((outs[i].0 as int) < t1.tys.len());
        assert(e[outs[i].0] == e8[outs[i].0]);
    }
    (e, outs)
}

/// The handing over only adds code.
pub proof fn lemma_dispatch_lays(l: Low, h: HookV)
    requires
        sound(l),
        one_result(l),
        room(
            l,
            512 + (4 * h.scalars.len() + 4 * h.arrays.len() + l.ir.at(
                h.exit,
            ).phis@.len()) as int,
        ),
        l.dispatch(h) is Ok,
    ensures
        lays(l, l.dispatch(h)->Ok_0),
{
    let ns = h.scalars.len();
    let na = h.arrays.len();
    let s1 = l.stash_scalars(h.scalars, ns)->Ok_0;
    lemma_scalars_emit(l, h.scalars, ns);
    let s2 = s1.stash_arrays(h.arrays, na)->Ok_0;
    lemma_arrays_emit(s1, h.arrays, na);
    let (s3, first) = s2.bound(h.start_ssa, h.start_const)->Ok_0;
    let (s4, last) = s3.bound(h.end_ssa, h.end_const)->Ok_0;
    lemma_emits_on(l, s1, s2, 4 * ns as int, 4 * na as int);
    lemma_bounds_lay(s2, h);
    lemma_dispatch_call_lays(s4, h, first, last);
    lemma_lays_on(l, s2, s4);
    lemma_lays_on(l, s4, l.dispatch(h)->Ok_0);
}

/// The machine code at the header of a region hands the region to the host.
///
/// The host is told every captured number at full width, with the word of its offset, and
/// address and length of every array, with its slot. Then it is told to run the region: from
/// the value that the start of the loop has there up to the value that its end has there,
/// both at full width, or the constants that they are; and with the number of the region and
/// eight participants. For a reduction it is asked for the result, which the accumulator
/// then is. The run goes on at the exit of the loop, with the values that its phis take from
/// the header.
#[verifier::rlimit(30)]
pub proof fn law_regions_are_handed_over<H>(
    c: Stage<H>,
    fin: Low,
    l: Low,
    h: HookV,
    env: Map<usize, Value>,
    st: Src<H>,
    handle: Value,
    sc: Scene<H>,
) -> (r: (Map<usize, Value>, Seq<Val>))
    requires
        meets(c, l, env, st),
        one_result(l),
        listens(c),
        room(
            l,
            512 + (4 * h.scalars.len() + 4 * h.arrays.len() + l.ir.at(
                h.exit,
            ).phis@.len()) as int,
        ),
        l.dispatch(h) is Ok,
        grows(l.dispatch(h)->Ok_0, fin),
        scalars_there(st, h.scalars),
        arrays_there(c, st, h.arrays),
        bound_at(st, h.start_ssa, h.start_const) is Some,
        bound_at(st, h.end_ssa, h.end_const) is Some,
        after_scalars(c.machine, st, h.scalars, h.scalars.len()) is Some,
        ({
            let sc0 = after_scalars(c.machine, st, h.scalars, h.scalars.len())->0;
            &&& after_arrays(c, moved(st, sc0), h.arrays, h.arrays.len()) is Some
            &&& (c.machine.host)(
                "helix_dispatch"@,
                seq![
                    Value::I64(bound_at(st, h.start_ssa, h.start_const)->0),
                    Value::I64(bound_at(st, h.end_ssa, h.end_const)->0),
                    Value::I64(h.region_id),
                    Value::I64(8),
                ],
                after_arrays(c, moved(st, sc0), h.arrays, h.arrays.len())->0,
            ) == Reply::Gives(seq![handle], sc)
        }),
        with_result(c, moved(st, sc), h, handle) is Some,
    ensures
        ({
            let (e, args) = r;
            let now = with_result(c, moved(st, sc), h, handle)->0;
            &&& comes(
                c.machine,
                fin,
                at(l, env, st.scene),
                crate::faithful::past_edge(fin, h.exit, args, e, now.scene),
            )
            &&& crate::transfer::carries(c.ir, h.header, h.exit, args, e, now.vals)
        }),
{
    let m = c.machine;
    let ns = h.scalars.len();
    let na = h.arrays.len();
    let s1 = l.stash_scalars(h.scalars, ns)->Ok_0;
    lemma_scalars_emit(l, h.scalars, ns);
    let s2 = s1.stash_arrays(h.arrays, na)->Ok_0;
    lemma_arrays_emit(s1, h.arrays, na);
    let (s3, first) = s2.bound(h.start_ssa, h.start_const)->Ok_0;
    let (s4, last) = s3.bound(h.end_ssa, h.end_const)->Ok_0;
    let all = l.dispatch(h)->Ok_0;
    assert(all == s4.dispatch_call(h, first, last)->Ok_0);
    let sc0 = after_scalars(m, st, h.scalars, ns)->0;
    let st0 = moved(st, sc0);
    let sc1 = after_arrays(c, st0, h.arrays, na)->0;
    let st1 = moved(st0, sc1);
    lemma_emits_on(l, s1, s2, 4 * ns as int, 4 * na as int);
    lemma_bounds_lay(s2, h);
    lemma_dispatch_call_lays(s4, h, first, last);
    lemma_lays_on(s2, s4, all);
    lemma_grows_on(s2, all, fin);
    lemma_grows_on(s1, s2, fin);
    let e1 = lemma_scalars_told(c, fin, l, h.scalars, ns, env, st);
    assert forall|k: int| 0 <= k < na implies pair(c, st0, (#[trigger] h.arrays[k]).0) is Some by {
        assert(pair(c, st, h.arrays[k].0) is Some);
    }
    let e2 = lemma_arrays_told(c, fin, s1, h.arrays, na, e1, st0);
    assert(st1.vals == st.vals);
    assert(bound_at(st1, h.start_ssa, h.start_const) == bound_at(st, h.start_ssa, h.start_const));
    assert(bound_at(st1, h.end_ssa, h.end_const) == bound_at(st, h.end_ssa, h.end_const));
    assert(moved(st1, sc) == moved(st, sc));
    let r = lemma_dispatched(c, fin, s2, h, e2, st1, handle, sc);
    let now = with_result(c, moved(st, sc), h, handle)->0;
    let last_at = crate::faithful::past_edge(fin, h.exit, r.1, r.0, now.scene);
    let from = at(l, env, st.scene);
    lemma_comes_on(m, fin, from, at(s1, e1, sc0), at(s2, e2, sc1));
    lemma_comes_on(m, fin, from, at(s2, e2, sc1), last_at);
    r
}

/// The bounds add so much.
proof fn lemma_bounds_lay(l: Low, h: HookV)
    requires
        sound(l),
        room(l, 64),
        l.bound(h.start_ssa, h.start_const) is Ok,
        (l.bound(h.start_ssa, h.start_const)->Ok_0).0.bound(h.end_ssa, h.end_const) is Ok,
    ensures
        emits(
            l,
            ((l.bound(h.start_ssa, h.start_const)->Ok_0).0.bound(h.end_ssa, h.end_const)->Ok_0).0,
            2,
        ),
{
    lemma_grows_self(l);
    let s = (l.bound(h.start_ssa, h.start_const)->Ok_0).0;
    lemma_one_bound(l, l, 0, h.start_ssa, h.start_const);
    lemma_one_bound(l, s, 1, h.end_ssa, h.end_const);
}

proof fn lemma_one_bound(l: Low, s: Low, n: int, ssa: Option<u32>, k: i64)
    requires
        emits(l, s, n),
        room(l, 64),
        0 <= n <= 8,
        s.bound(ssa, k) is Ok,
    ensures
        emits(l, (s.bound(ssa, k)->Ok_0).0, n + 1),
{
    let o = OpV::Iconst(ClifTy::I64, k);
    lemma_emit(l, s, n, o, ClifTy::I64);
    if let Some(v) = ssa {
        let x = s.lookup(ValueId(v))->Ok_0;
        lemma_emit(l, s, n, OpV::Convert(ConvertOp::Sextend, ClifTy::I64, x), ClifTy::I64);
    }
}

} // verus!
