//! What functions do, instruction by instruction: values, arrays by address and length,
//! memory, errors, and calls of the host.
//!
//! A block is entered with the values that are alive there: what nothing keeps alive is
//! forgotten.
use vstd::prelude::*;

use crate::clif::{element_bytes, element_ty, scalar_ty, CalleeV, ClifTy};
use crate::cpu::{read, written, Machine, Reply, Scene};
use crate::error::{KindV, Span};
use crate::floats::{nan, FloatOp, FloatWorld};
use crate::interp::{
    abs_value, binary_value, cast_value, minmax_value, sqrt_value, unary_value, Flow,
};
use crate::ir::{BinOp, BlockId, Call, ElemTy, FuncIr, Inst, LocalId, Term, Ty, ValueId};
use crate::lower::{edge_arg, is_local, named, print_symbol};
use crate::operators::{const_value, float_parts, scalar, type_of};
use crate::search::first_where;
use crate::traps::{BOUNDS, DIV_BY_ZERO, DIV_OVERFLOW};
use crate::value::Value;

verus! {

/// What was computed so far: values, addresses and lengths of arrays, memory and host.
#[verifier::reject_recursive_types(H)]
pub struct Src<H> {
    pub vals: Map<u32, Value>,
    pub arrs: Map<u32, (i64, i64)>,
    pub scene: Scene<H>,
}

/// What an instruction comes to.
#[verifier::reject_recursive_types(H)]
pub enum Act<H> {
    Done(Src<H>),
    /// The error of this code, with two details.
    Fails(i64, i64, i64, Scene<H>),
    /// The host ended the program.
    Stopped(Scene<H>),
    /// The instruction makes no sense: an operand is missing or of a wrong type.
    Odd,
}

/// What a function is run with.
#[verifier::reject_recursive_types(H)]
pub struct Stage<H> {
    pub machine: Machine<H>,
    pub ir: FuncIr,
    /// Accesses are not checked.
    pub unchecked: bool,
    pub callees: Seq<CalleeV>,
    /// Arrays that are known by the values of their address and length.
    pub prebind: Seq<(LocalId, ValueId, ValueId)>,
    /// The values that are alive where a block begins, besides its phis.
    pub live: spec_fn(BlockId) -> Set<u32>,
    /// The arrays that are alive where a block begins.
    pub held: spec_fn(BlockId) -> Set<u32>,
}

/// The type of a value; `I64` where the table has none.
pub open spec fn declared(ir: FuncIr, v: ValueId) -> Ty {
    match ir.type_of(v) {
        Some(t) => t,
        None => Ty::I64,
    }
}

/// A value is defined.
pub open spec fn define<H>(c: Stage<H>, st: Src<H>, dst: ValueId, v: Value) -> Act<H> {
    if declared(c.ir, dst) == type_of(v) && scalar(v) {
        Act::Done(Src { vals: st.vals.insert(dst.0, v), arrs: st.arrs, scene: st.scene })
    } else {
        Act::Odd
    }
}

/// A value is defined, if there is one.
pub open spec fn define_opt<H>(c: Stage<H>, st: Src<H>, dst: Option<ValueId>, v: Value) -> Act<H> {
    match dst {
        Some(d) => define(c, st, d, v),
        None => Act::Done(st),
    }
}

/// What an instruction that only computes defines.
pub open spec fn define_flow<H>(c: Stage<H>, st: Src<H>, dst: Option<ValueId>, f: Flow<Value>) -> Act<
    H,
> {
    match f {
        Flow::Done(v) => define_opt(c, st, dst, v),
        _ => Act::Odd,
    }
}

/// Address and length of an array.
pub open spec fn pair<H>(c: Stage<H>, st: Src<H>, a: LocalId) -> Option<(i64, i64)> {
    if st.arrs.dom().contains(a.0) {
        Some(st.arrs[a.0])
    } else {
        match first_where(c.prebind, is_local(a)) {
            Some(k) => {
                let d = c.prebind[k].1.0;
                let n = c.prebind[k].2.0;
                if st.vals.dom().contains(d) && st.vals.dom().contains(n) {
                    match (st.vals[d], st.vals[n]) {
                        (Value::I64(x), Value::I64(y)) => Some((x, y)),
                        _ => None,
                    }
                } else {
                    None
                }
            },
            None => None,
        }
    }
}

/// The address of an element.
pub open spec fn address_at(base: i64, x: i64, e: ElemTy) -> i64 {
    base.wrapping_add(x.wrapping_mul(element_bytes(e)))
}

/// A subscript at full width.
pub open spec fn subscript<H>(st: Src<H>, v: ValueId) -> Option<i64> {
    if st.vals.dom().contains(v.0) {
        match st.vals[v.0] {
            Value::I64(x) => Some(x),
            Value::I32(x) => Some(x as i64),
            _ => None,
        }
    } else {
        None
    }
}

/// The arguments of a call: address and length of an array, else the value.
pub open spec fn arguments<H>(c: Stage<H>, st: Src<H>, args: Seq<ValueId>, k: nat) -> Option<
    Seq<Value>,
>
    decreases k,
{
    if k == 0 {
        Some(seq![])
    } else {
        match arguments(c, st, args, (k - 1) as nat) {
            Some(before) => match declared(c.ir, args[k - 1]) {
                Ty::Array(_) => match pair(c, st, LocalId(args[k - 1].0)) {
                    Some((x, y)) => Some(before.push(Value::I64(x)).push(Value::I64(y))),
                    None => None,
                },
                _ => if st.vals.dom().contains(args[k - 1].0) {
                    Some(before.push(st.vals[args[k - 1].0]))
                } else {
                    None
                },
            },
            None => None,
        }
    }
}

/// The types that a function of the name gives back.
pub open spec fn returns_of(callees: Seq<CalleeV>, name: Seq<char>) -> Seq<ClifTy> {
    match first_where(callees, named(name)) {
        Some(k) => callees[k].sig.returns,
        None => seq![],
    }
}

/// The lesser or the greater of two numbers. Of floating-point numbers, one that is not a
/// number loses, and a comparison tells the others apart.
pub open spec fn extreme(w: FloatWorld, min: bool, a: Value, b: Value) -> Flow<Value> {
    if a is F32 && b is F32 || a is F64 && b is F64 {
        let (p, x) = float_parts(a);
        let y = float_parts(b).1;
        let o = if min {
            FloatOp::Lt
        } else {
            FloatOp::Gt
        };
        Flow::Done(
            if nan(p, y) {
                a
            } else if nan(p, x) {
                b
            } else if (w.ops)(o, p, x, y) != 0 {
                a
            } else {
                b
            },
        )
    } else {
        minmax_value(w, min, a, b)
    }
}

/// What the host is told of a value that is printed: integers and truth values travel at
/// full width.
pub open spec fn told(v: Value) -> Value {
    match v {
        Value::I32(x) => Value::I64(x as i64),
        Value::Bool(b) => Value::I64(
            if b {
                1
            } else {
                0
            },
        ),
        v => v,
    }
}

/// `zeros(n)`: the host makes an array.
pub open spec fn act_zeros<H>(c: Stage<H>, st: Src<H>, call: Call, xs: Seq<Value>) -> Act<H> {
    if call.arr_refs@.len() == 0 || xs.len() == 0 || c.prebind.len() > 0 || call.dst is Some {
        Act::Odd
    } else {
        let a = call.arr_refs@[0];
        match (c.ir.types.element_type(a), xs[0]) {
            (Some(e), Value::I64(n)) => match (c.machine.host)(
                "helix_zeros"@,
                seq![xs[0], Value::I64(element_bytes(e))],
                st.scene,
            ) {
                Reply::Gives(rs, now) => if rs.len() == 1 && returns_of(c.callees, "helix_zeros"@)
                    == seq![ClifTy::I64] {
                    match rs[0] {
                        Value::I64(p) => Act::Done(
                            Src {
                                vals: st.vals,
                                arrs: st.arrs.insert(a.0, (p, n)),
                                scene: now,
                            },
                        ),
                        _ => Act::Odd,
                    }
                } else {
                    Act::Odd
                },
                Reply::Stops(now) => Act::Stopped(now),
            },
            _ => Act::Odd,
        }
    }
}

/// `print(x)`.
pub open spec fn act_print<H>(c: Stage<H>, st: Src<H>, call: Call, xs: Seq<Value>) -> Act<H> {
    if call.args@.len() == 0 || call.dst is Some {
        Act::Odd
    } else {
        let ty = declared(c.ir, call.args@[0]);
        if ty is Array || xs.len() == 0 {
            Act::Odd
        } else {
            match (c.machine.host)(print_symbol(ty), seq![told(xs[0])], st.scene) {
                Reply::Gives(rs, now) => if rs.len() == 0 && returns_of(
                    c.callees,
                    print_symbol(ty),
                ).len() == 0 {
                    Act::Done(Src { vals: st.vals, arrs: st.arrs, scene: now })
                } else {
                    Act::Odd
                },
                Reply::Stops(now) => Act::Stopped(now),
            }
        }
    }
}

/// A call of a function of the program or of the host.
pub open spec fn act_user<H>(c: Stage<H>, st: Src<H>, call: Call, xs: Seq<Value>) -> Act<H> {
    let kinds = returns_of(c.callees, call.callee@);
    match (c.machine.host)(call.callee@, xs, st.scene) {
        Reply::Gives(rs, now) => {
            let next = Src { vals: st.vals, arrs: st.arrs, scene: now };
            if rs.len() != kinds.len() || rs.len() > 1 {
                Act::Odd
            } else {
                match call.dst {
                    Some(d) => if rs.len() == 1 && kinds[0] == scalar_ty(declared(c.ir, d)) {
                        define(c, next, d, rs[0])
                    } else {
                        Act::Odd
                    },
                    None => Act::Done(next),
                }
            }
        },
        Reply::Stops(now) => Act::Stopped(now),
    }
}

/// What a call does.
pub open spec fn act_call<H>(c: Stage<H>, st: Src<H>, call: Call) -> Act<H> {
    let w = c.machine.floats;
    let name = call.callee@;
    match arguments(c, st, call.args@, call.args@.len()) {
        None => Act::Odd,
        Some(xs) => if name == "zeros"@ {
            act_zeros(c, st, call, xs)
        } else if name == "len"@ {
            if call.args@.len() > 0 && declared(c.ir, call.args@[0]) is Array {
                define_opt(c, st, call.dst, xs[1])
            } else {
                Act::Odd
            }
        } else if name == "print"@ {
            act_print(c, st, call, xs)
        } else if call.args@.len() > 0 && declared(c.ir, call.args@[0]) is Array && (name
            == "sqrt"@ || name == "abs"@ || name == "min"@ || name == "max"@) {
            Act::Odd
        } else if name == "sqrt"@ {
            if xs.len() == 0 {
                Act::Odd
            } else {
                define_flow(c, st, call.dst, sqrt_value(w, xs[0]))
            }
        } else if name == "abs"@ {
            if xs.len() == 0 {
                Act::Odd
            } else {
                define_flow(c, st, call.dst, abs_value(w, xs[0]))
            }
        } else if name == "min"@ || name == "max"@ {
            if xs.len() < 2 {
                Act::Odd
            } else {
                define_flow(c, st, call.dst, extreme(w, name == "min"@, xs[0], xs[1]))
            }
        } else {
            act_user(c, st, call, xs)
        },
    }
}

/// What an operator does.
pub open spec fn act_bin<H>(
    c: Stage<H>,
    st: Src<H>,
    op: BinOp,
    dst: ValueId,
    a: ValueId,
    b: ValueId,
    span: Span,
) -> Act<H> {
    if !st.vals.dom().contains(a.0) || !st.vals.dom().contains(b.0) {
        Act::Odd
    } else if (op is Div || op is Rem) && declared(c.ir, dst) != type_of(st.vals[a.0]) {
        Act::Odd
    } else {
        match binary_value(c.machine.floats, op, st.vals[a.0], st.vals[b.0], span) {
            Flow::Done(v) => define(c, st, dst, v),
            Flow::Fail(KindV::DivByZero, _) => Act::Fails(DIV_BY_ZERO, 0, 0, st.scene),
            Flow::Fail(KindV::IdivOverflow, _) => Act::Fails(DIV_OVERFLOW, 0, 0, st.scene),
            _ => Act::Odd,
        }
    }
}

/// What an instruction does.
pub open spec fn act<H>(c: Stage<H>, st: Src<H>, i: Inst, span: Span) -> Act<H> {
    let w = c.machine.floats;
    match i {
        Inst::Const { dst, c: k } => define(c, st, dst, const_value(k)),
        Inst::Bin { op, dst, a, b } => act_bin(c, st, op, dst, a, b, span),
        Inst::Unary { op, dst, a } => if st.vals.dom().contains(a.0) {
            define_flow(c, st, Some(dst), unary_value(w, op, st.vals[a.0]))
        } else {
            Act::Odd
        },
        Inst::Cast { dst, val, to } => if st.vals.dom().contains(val.0) {
            define(c, st, dst, cast_value(w, st.vals[val.0], to))
        } else {
            Act::Odd
        },
        Inst::Load(l) => match (pair(c, st, l.arr), c.ir.types.element_type(l.arr), subscript(
            st,
            l.idx,
        )) {
            (Some((base, len)), Some(e), Some(x)) => if c.unchecked || 0 <= x < len {
                match read(st.scene.mem, address_at(base, x, e) as int, element_ty(e)) {
                    Some(v) => define(c, st, l.dst, v),
                    None => Act::Odd,
                }
            } else {
                Act::Fails(BOUNDS, x, len, st.scene)
            },
            _ => Act::Odd,
        },
        Inst::Store { arr, idx, val } => match (pair(c, st, arr), c.ir.types.element_type(
            arr,
        ), subscript(st, idx)) {
            (Some((base, len)), Some(e), Some(x)) => if !st.vals.dom().contains(val.0) {
                Act::Odd
            } else if c.unchecked || 0 <= x < len {
                Act::Done(
                    Src {
                        vals: st.vals,
                        arrs: st.arrs,
                        scene: Scene {
                            mem: written(
                                st.scene.mem,
                                address_at(base, x, e) as int,
                                st.vals[val.0],
                            ),
                            host: st.scene.host,
                        },
                    },
                )
            } else {
                Act::Fails(BOUNDS, x, len, st.scene)
            },
            _ => Act::Odd,
        },
        Inst::Call(call) => act_call(c, st, call),
    }
}

/// What the first `k` instructions do, up to the first one that fails.
pub open spec fn acts<H>(c: Stage<H>, st: Src<H>, code: Seq<Inst>, k: nat, span: Span) -> Act<H>
    decreases k,
{
    if k == 0 {
        Act::Done(st)
    } else {
        match acts(c, st, code, (k - 1) as nat, span) {
            Act::Done(now) => act(c, now, code[k - 1], span),
            other => other,
        }
    }
}

/// The values after the first `k` phis of `b` took theirs from `a`, all at once. A phi
/// whose argument has no value of its type has none.
pub open spec fn taken_on(
    ir: FuncIr,
    a: BlockId,
    b: BlockId,
    out: Map<u32, Value>,
    kept: Map<u32, Value>,
    k: nat,
) -> Map<u32, Value>
    decreases k,
{
    if k == 0 {
        kept
    } else {
        let before = taken_on(ir, a, b, out, kept, (k - 1) as nat);
        let d = ir.at(b).phis@[k - 1].dst;
        let x = (edge_arg(ir, a, b, k - 1)->0).0;
        if out.dom().contains(x) && scalar(out[x]) && type_of(out[x]) == declared(ir, d) {
            before.insert(d.0, out[x])
        } else {
            before.remove(d.0)
        }
    }
}

/// What a block is entered with.
pub open spec fn enters<H>(c: Stage<H>, a: BlockId, b: BlockId, st: Src<H>) -> Src<H> {
    Src {
        vals: taken_on(
            c.ir,
            a,
            b,
            st.vals,
            st.vals.restrict((c.live)(b)),
            c.ir.at(b).phis@.len(),
        ),
        arrs: st.arrs.restrict((c.held)(b)),
        scene: st.scene,
    }
}

/// How a run ends.
#[verifier::reject_recursive_types(H)]
pub enum End<H> {
    /// Not within so many blocks.
    Cut,
    /// With an instruction that makes no sense.
    Odd,
    /// With an error.
    Fails(i64, i64, i64, Scene<H>),
    /// The host ended the program.
    Stopped(Scene<H>),
    /// With what the function gives back.
    Returned(Seq<Value>, Scene<H>),
}

/// What a function does from the first instruction of block `b` on, within `n` blocks.
pub open spec fn performs<H>(c: Stage<H>, b: BlockId, st: Src<H>, n: nat, span: Span) -> End<H>
    decreases n,
{
    if n == 0 {
        End::Cut
    } else {
        let data = c.ir.at(b);
        let fuel = (n - 1) as nat;
        match acts(c, st, data.insts@, data.insts@.len(), span) {
            Act::Odd => End::Odd,
            Act::Fails(code, x, y, sc) => End::Fails(code, x, y, sc),
            Act::Stopped(sc) => End::Stopped(sc),
            Act::Done(out) => match data.term {
                Term::Jump(t, _) => performs(c, t, enters(c, b, t, out), fuel, span),
                Term::Branch { cond, t, f } => if !out.vals.dom().contains(cond.0) {
                    End::Odd
                } else if out.vals[cond.0] == Value::Bool(true) {
                    performs(c, t, enters(c, b, t, out), fuel, span)
                } else {
                    performs(c, f, enters(c, b, f, out), fuel, span)
                },
                Term::Return(Some(v)) => if out.vals.dom().contains(v.0) {
                    End::Returned(seq![out.vals[v.0]], out.scene)
                } else {
                    End::Odd
                },
                Term::Return(None) => End::Returned(seq![], out.scene),
            },
        }
    }
}

} // verus!
