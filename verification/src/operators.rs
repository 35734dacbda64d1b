//! Operators in machine code: they compute what the interpreter computes.
//!
//! What machine instructions do is said here over the values of the interpreter. A
//! truth value is a byte; floating-point operations are those that the interpreter uses.
use vstd::prelude::*;

use crate::clif::{
    float_cond, int_cond, BinaryOp, ClifInstV, ClifTy, ConvertOp, FloatCond, IntCond, OpV, UnaryOp,
    Val,
};
use crate::error::{KindV, Span};
use crate::floats::{nan, FloatOp, FloatWorld, Precision};
use crate::interp::{binary_value, cast_value, minmax_value, unary_value, Flow};
use crate::ir::{BinOp, Constant, Ty, UnOp};
use crate::lower::{const_op, conversion, float_op, int_op, is_float, Low};
use crate::machine::{added, after, holds, law_divisions_are_guarded, roomy};
use crate::traps::{DIV_BY_ZERO, DIV_OVERFLOW};
use crate::value::Value;

verus! {

/// The type of a value.
pub open spec fn type_of(v: Value) -> Ty {
    match v {
        Value::I32(_) => Ty::I32,
        Value::I64(_) => Ty::I64,
        Value::F32(_) => Ty::F32,
        Value::F64(_) => Ty::F64,
        Value::Bool(_) => Ty::Bool,
        _ => Ty::Unit,
    }
}

/// A number or a truth value.
pub open spec fn scalar(v: Value) -> bool {
    !(v is Unit) && !(v is Array)
}

/// The integer that a value is to the machine.
pub open spec fn whole(v: Value) -> int {
    match v {
        Value::I32(x) => x as int,
        Value::I64(x) => x as int,
        Value::Bool(b) => if b {
            1
        } else {
            0
        },
        _ => 0,
    }
}

/// The precision and the bits of a floating-point number.
pub open spec fn float_parts(v: Value) -> (Precision, u64) {
    match v {
        Value::F32(x) => (Precision::Single, x as u64),
        Value::F64(x) => (Precision::Double, x),
        _ => (Precision::Double, 0),
    }
}

/// A floating-point number of these bits.
pub open spec fn float_made(p: Precision, bits: u64) -> Value {
    match p {
        Precision::Single => Value::F32(bits as u32),
        Precision::Double => Value::F64(bits),
    }
}

/// What a floating-point operation on two operands gives.
pub open spec fn float_pair(w: FloatWorld, o: FloatOp, a: Value, b: Value) -> Value {
    let (p, x) = float_parts(a);
    float_made(p, (w.ops)(o, p, x, float_parts(b).1))
}

/// What a floating-point operation on one operand gives.
pub open spec fn float_single(w: FloatWorld, o: FloatOp, a: Value) -> Value {
    let (p, x) = float_parts(a);
    float_made(p, (w.ops)(o, p, x, 0))
}

/// An instruction with two operands.
pub open spec fn machine_binary(w: FloatWorld, o: BinaryOp, a: Value, b: Value) -> Value {
    match o {
        BinaryOp::Fadd => float_pair(w, FloatOp::Add, a, b),
        BinaryOp::Fsub => float_pair(w, FloatOp::Sub, a, b),
        BinaryOp::Fmul => float_pair(w, FloatOp::Mul, a, b),
        BinaryOp::Fdiv => float_pair(w, FloatOp::Div, a, b),
        _ => match (a, b) {
            (Value::I32(x), Value::I32(y)) => Value::I32(
                match o {
                    BinaryOp::Iadd => x.wrapping_add(y),
                    BinaryOp::Isub => x.wrapping_sub(y),
                    BinaryOp::Imul => x.wrapping_mul(y),
                    BinaryOp::Sdiv => x.checked_div(y)->0,
                    BinaryOp::Srem => x.checked_rem(y)->0,
                    BinaryOp::Band => x & y,
                    BinaryOp::Bor => x | y,
                    _ => x ^ y,
                },
            ),
            (Value::I64(x), Value::I64(y)) => Value::I64(
                match o {
                    BinaryOp::Iadd => x.wrapping_add(y),
                    BinaryOp::Isub => x.wrapping_sub(y),
                    BinaryOp::Imul => x.wrapping_mul(y),
                    BinaryOp::Sdiv => x.checked_div(y)->0,
                    BinaryOp::Srem => x.checked_rem(y)->0,
                    BinaryOp::Band => x & y,
                    BinaryOp::Bor => x | y,
                    _ => x ^ y,
                },
            ),
            (Value::Bool(x), Value::Bool(y)) => Value::Bool(
                match o {
                    BinaryOp::Band => x && y,
                    BinaryOp::Bor => x || y,
                    _ => x != y,
                },
            ),
            _ => Value::Unit,
        },
    }
}

/// An instruction with one operand.
pub open spec fn machine_unary(w: FloatWorld, o: UnaryOp, a: Value) -> Value {
    match o {
        UnaryOp::Ineg => match a {
            Value::I32(x) => Value::I32(0i32.wrapping_sub(x)),
            Value::I64(x) => Value::I64(0i64.wrapping_sub(x)),
            _ => Value::Unit,
        },
        UnaryOp::Fneg => float_single(w, FloatOp::Neg, a),
        UnaryOp::Fabs => float_single(w, FloatOp::Abs, a),
        UnaryOp::Sqrt => float_single(w, FloatOp::Sqrt, a),
    }
}

/// A comparison of floating-point numbers.
pub open spec fn machine_compares(w: FloatWorld, c: FloatCond, a: Value, b: Value) -> bool {
    let (p, x) = float_parts(a);
    let y = float_parts(b).1;
    match c {
        FloatCond::Equal => (w.ops)(FloatOp::Eq, p, x, y) != 0,
        FloatCond::NotEqual => (w.ops)(FloatOp::Ne, p, x, y) != 0,
        FloatCond::LessThan => (w.ops)(FloatOp::Lt, p, x, y) != 0,
        FloatCond::GreaterThanOrEqual => (w.ops)(FloatOp::Ge, p, x, y) != 0,
        FloatCond::GreaterThan => (w.ops)(FloatOp::Gt, p, x, y) != 0,
        FloatCond::LessThanOrEqual => (w.ops)(FloatOp::Le, p, x, y) != 0,
        FloatCond::Unordered => nan(p, x) || nan(p, y),
    }
}

/// A conversion to a machine type.
pub open spec fn machine_converts(w: FloatWorld, o: ConvertOp, t: ClifTy, a: Value) -> Value {
    let (p, x) = float_parts(a);
    match o {
        ConvertOp::Sextend => Value::I64(whole(a) as i64),
        ConvertOp::Uextend => Value::I64(whole(a) as i64),
        ConvertOp::Ireduce => match a {
            Value::I64(n) => Value::I32(n as i32),
            _ => a,
        },
        ConvertOp::FcvtFromSint => {
            let q = if t == ClifTy::F32 {
                Precision::Single
            } else {
                Precision::Double
            };
            float_made(q, (w.ops)(FloatOp::FromInt, q, (whole(a) as i64) as u64, 0))
        },
        ConvertOp::FcvtToSintSat => if t == ClifTy::I32 {
            Value::I32((w.ops)(FloatOp::ToI32, p, x, 0) as i32)
        } else {
            Value::I64((w.ops)(FloatOp::ToI64, p, x, 0) as i64)
        },
        ConvertOp::Fpromote => Value::F64((w.ops)(FloatOp::FromOther, Precision::Double, x, 0)),
        ConvertOp::Fdemote => Value::F32(
            (w.ops)(FloatOp::FromOther, Precision::Single, x, 0) as u32,
        ),
    }
}

/// What an instruction computes, where `env` gives the value of every machine value.
pub open spec fn machine_value(w: FloatWorld, op: OpV, env: Map<usize, Value>) -> Value {
    match op {
        OpV::Iconst(t, n) => if t == ClifTy::I8 {
            Value::Bool(n != 0)
        } else if t == ClifTy::I32 {
            Value::I32(n as i32)
        } else {
            Value::I64(n)
        },
        OpV::F32const(b) => Value::F32(b),
        OpV::F64const(b) => Value::F64(b),
        OpV::Unary(o, x) => machine_unary(w, o, env[x.0]),
        OpV::Binary(o, x, y) => machine_binary(w, o, env[x.0], env[y.0]),
        OpV::IntCompare(c, x, y) => Value::Bool(holds(c, whole(env[x.0]), whole(env[y.0]))),
        OpV::FloatCompare(c, x, y) => Value::Bool(machine_compares(w, c, env[x.0], env[y.0])),
        OpV::Select(c, x, y) => if env[c.0] == Value::Bool(true) {
            env[x.0]
        } else {
            env[y.0]
        },
        OpV::Convert(o, t, x) => machine_converts(w, o, t, env[x.0]),
        _ => Value::Unit,
    }
}

/// The values after the first `k` instructions.
pub open spec fn valued(
    w: FloatWorld,
    env: Map<usize, Value>,
    code: Seq<ClifInstV>,
    k: nat,
) -> Map<usize, Value>
    decreases k,
{
    if k == 0 {
        env
    } else {
        let before = valued(w, env, code, (k - 1) as nat);
        before.insert(code[k - 1].first, machine_value(w, code[k - 1].op, before))
    }
}

/// Code that was added to the current block leaves a value.
pub open spec fn leaves(
    w: FloatWorld,
    l: Low,
    s: Low,
    q: Val,
    env: Map<usize, Value>,
    v: Value,
) -> bool {
    let code = added(l, s, l.cur);
    &&& s.cur == l.cur
    &&& valued(w, env, code, code.len())[q.0] == v
}

/// One instruction more leaves what it computes.
proof fn lemma_one(w: FloatWorld, l: Low, op: OpV, t: ClifTy, env: Map<usize, Value>)
    requires
        l.wf(),
        roomy(l),
    ensures
        leaves(w, l, l.ins(op, t), l.next(), env, machine_value(w, op, env)),
{
    let s = l.ins(op, t);
    let made = ClifInstV { op, first: l.tys.len() as usize, count: 1 };
    let here = l.blocks[l.cur as int].insts;
    assert(s.blocks[l.cur as int].insts == here.push(made));
    let code = added(l, s, l.cur);
    assert(code =~= seq![made]);
    reveal_with_fuel(valued, 2);
    assert(valued(w, env, code, 1) == env.insert(made.first, machine_value(w, op, env)));
}

/// Two instructions more: the second one sees what the first one computed.
proof fn lemma_two(
    w: FloatWorld,
    l: Low,
    a: OpV,
    t: ClifTy,
    b: OpV,
    u: ClifTy,
    env: Map<usize, Value>,
)
    requires
        l.wf(),
        roomy(l),
    ensures
        leaves(
            w,
            l,
            l.ins(a, t).ins(b, u),
            l.ins(a, t).next(),
            env,
            machine_value(w, b, env.insert(l.next().0, machine_value(w, a, env))),
        ),
{
    let s1 = l.ins(a, t);
    let s2 = s1.ins(b, u);
    let m1 = ClifInstV { op: a, first: l.tys.len() as usize, count: 1 };
    let m2 = ClifInstV { op: b, first: s1.tys.len() as usize, count: 1 };
    let here = l.blocks[l.cur as int].insts;
    assert(s1.blocks[l.cur as int].insts == here.push(m1));
    assert(s2.blocks[l.cur as int].insts == here.push(m1).push(m2));
    let code = added(l, s2, l.cur);
    assert(code =~= seq![m1, m2]);
    reveal_with_fuel(valued, 3);
    let e1 = env.insert(m1.first, machine_value(w, a, env));
    assert(valued(w, env, code, 1) == e1);
    assert(valued(w, env, code, 2) == e1.insert(m2.first, machine_value(w, b, e1)));
}

/// The value of a constant.
pub open spec fn const_value(c: Constant) -> Value {
    match c {
        Constant::I64(n) => Value::I64(n),
        Constant::I32(n) => Value::I32(n),
        Constant::F32(b) => Value::F32(b),
        Constant::F64(b) => Value::F64(b),
        Constant::Bool(b) => Value::Bool(b),
    }
}

/// A constant is lowered to an instruction that gives it.
pub proof fn law_constants_agree(
    w: FloatWorld,
    l: Low,
    c: Constant,
    env: Map<usize, Value>,
)
    requires
        l.wf(),
        roomy(l),
    ensures
        leaves(
            w,
            l,
            l.ins(const_op(c).0, const_op(c).1),
            l.next(),
            env,
            const_value(c),
        ),
{
    lemma_one(w, l, const_op(c).0, const_op(c).1, env);
    if let Constant::I32(n) = c {
        assert((n as i64) as i32 == n) by (bit_vector);
    }
}

/// Wherever the interpreter gets a value from an operator that cannot fail, the lowered
/// code gets the same value.
pub proof fn law_operators_agree(
    w: FloatWorld,
    l: Low,
    op: BinOp,
    x: Val,
    y: Val,
    a: Value,
    b: Value,
    env: Map<usize, Value>,
    span: Span,
    v: Value,
)
    requires
        l.wf(),
        roomy(l),
        scalar(a),
        scalar(b),
        env[x.0] == a,
        env[y.0] == b,
        binary_value(w, op, a, b, span) == Flow::Done(v),
        op == BinOp::Div || op == BinOp::Rem ==> is_float(type_of(a)),
    ensures
        l.bin_values(op, type_of(a), is_float(type_of(a)), x, y) matches Ok((s, q)) && leaves(
            w,
            l,
            s,
            q,
            env,
            v,
        ),
{
    let t = l.ty_of(x);
    match int_cond(op) {
        Some(c) => if is_float(type_of(a)) {
            lemma_one(
                w,
                l,
                OpV::FloatCompare(float_cond(op)->0, x, y),
                ClifTy::I8,
                env,
            );
        } else {
            lemma_one(w, l, OpV::IntCompare(c, x, y), ClifTy::I8, env);
        },
        None => if is_float(type_of(a)) {
            lemma_one(w, l, OpV::Binary(float_op(op)->0, x, y), t, env);
        } else {
            lemma_one(w, l, OpV::Binary(int_op(op)->0, x, y), t, env);
        },
    }
}

/// A division or a remainder of integers fails in machine code exactly where the
/// interpreter fails, with the same error; elsewhere it gives the same value.
pub proof fn law_divisions_agree(
    w: FloatWorld,
    l: Low,
    rem: bool,
    x: Val,
    y: Val,
    a: Value,
    b: Value,
    env: Map<usize, int>,
    values: Map<usize, Value>,
    span: Span,
)
    requires
        l.wf(),
        l.has(x),
        l.has(y),
        roomy(l),
        (a is I32 && b is I32) || (a is I64 && b is I64),
        env[x.0] == whole(a),
        env[y.0] == whole(b),
        values[x.0] == a,
        values[y.0] == b,
        l.divrem(x, y, type_of(a), rem) is Ok,
    ensures
        ({
            let op = if rem {
                BinOp::Rem
            } else {
                BinOp::Div
            };
            let (s, q) = l.divrem(x, y, type_of(a), rem)->Ok_0;
            let code = added(l, s, l.cur);
            let end = after(env, code, (code.len() - 1) as nat);
            &&& code.len() > 0
            &&& code.last().op matches OpV::Brif(ok, next, none, panic, details)
            &&& next == s.cur
            &&& s.panic == Some(panic)
            &&& details.len() == 3
            &&& match binary_value(w, op, a, b, span) {
                Flow::Done(v) => end[ok.0] != 0 && machine_value(
                    w,
                    s.blocks[s.cur as int].insts.last().op,
                    values,
                ) == v,
                Flow::Fail(KindV::DivByZero, _) => end[ok.0] == 0 && end[details[0].0]
                    == DIV_BY_ZERO,
                Flow::Fail(KindV::IdivOverflow, _) => end[ok.0] == 0 && end[details[0].0]
                    == DIV_OVERFLOW,
                _ => false,
            }
        }),
{
    law_divisions_are_guarded(l, x, y, type_of(a), rem, env);
}

/// Negation of numbers and of truth values agrees.
pub proof fn law_unary_operators_agree(
    w: FloatWorld,
    l: Low,
    op: UnOp,
    x: Val,
    a: Value,
    env: Map<usize, Value>,
    v: Value,
)
    requires
        l.wf(),
        l.has(x),
        roomy(l),
        env[x.0] == a,
        unary_value(w, op, a) == Flow::Done(v),
    ensures
        ({
            let (s, q) = l.unary(op, type_of(a), x);
            leaves(w, l, s, q, env, v)
        }),
{
    let t = l.ty_of(x);
    match op {
        UnOp::Neg => {
            let o = if is_float(type_of(a)) {
                UnaryOp::Fneg
            } else {
                UnaryOp::Ineg
            };
            lemma_one(w, l, OpV::Unary(o, x), t, env);
        },
        UnOp::Not => {
            lemma_two(
                w,
                l,
                OpV::Iconst(ClifTy::I8, 1),
                ClifTy::I8,
                OpV::Binary(BinaryOp::Bxor, x, l.next()),
                t,
                env,
            );
        },
    }
}

/// Conversions agree.
pub proof fn law_conversions_agree(
    w: FloatWorld,
    l: Low,
    to: Ty,
    x: Val,
    a: Value,
    env: Map<usize, Value>,
)
    requires
        l.wf(),
        roomy(l),
        scalar(a),
        env[x.0] == a,
    ensures
        ({
            let (s, q) = l.cast(type_of(a), to, x);
            leaves(w, l, s, q, env, cast_value(w, a, to))
        }),
{
    match conversion(type_of(a), to) {
        Some((o, t)) => {
            lemma_one(w, l, OpV::Convert(o, t, x), t, env);
        },
        None => {
            assert(added(l, l, l.cur) =~= seq![]);
        },
    }
}

/// The lesser and the greater of two integers agree.
pub proof fn law_extremes_of_integers_agree(
    w: FloatWorld,
    l: Low,
    min: bool,
    x: Val,
    y: Val,
    a: Value,
    b: Value,
    env: Map<usize, Value>,
)
    requires
        l.wf(),
        l.has(x),
        l.has(y),
        roomy(l),
        (a is I32 && b is I32) || (a is I64 && b is I64),
        env[x.0] == a,
        env[y.0] == b,
    ensures
        ({
            let (s, q) = l.minmax(min, false, x, y);
            minmax_value(w, min, a, b) matches Flow::Done(v) && leaves(w, l, s, q, env, v)
        }),
{
    let c = if min {
        IntCond::LessThan
    } else {
        IntCond::GreaterThan
    };
    lemma_two(
        w,
        l,
        OpV::IntCompare(c, x, y),
        ClifTy::I8,
        OpV::Select(l.next(), x, y),
        l.ty_of(x),
        env,
    );
}

} // verus!
