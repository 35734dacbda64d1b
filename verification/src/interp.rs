//! Evaluation of programs: the meaning of the language, executable.
//!
//! * `/` and `%` fail on a zero divisor and where the quotient does not fit, before any
//!   arithmetic; other integer operations wrap around.
//! * `&&` and `||` evaluate their right side only where the left one does not decide.
//! * Arguments are evaluated from left to right; bounds of a loop once.
//! * A NaN loses against a number in `min` and `max`.
//! * Calls nest to a limit. Loops count up to a bound, so that every program ends.
use std::collections::HashMap;

use vstd::prelude::*;

use crate::error::{KindV, RunError, RunErrorKind, Span};
use crate::floats::{is_nan, nan, FloatOp, FloatWorld, Floats, Precision};
use crate::ir::{BinOp, ElemTy, Ty, UnOp};
use crate::search::{first_where, lemma_first_where_is, lemma_first_where_none};
use crate::text::{is_text, natural_text, push_natural, push_text, texts};
use crate::tree::{
    AdaptedFn, AdaptedProgram, Builtin, EBlock, EElse, EExpr, EExprKind, EIf, EStmt, ETarget,
    SymId, TypedConstDef,
};
use crate::value::{fnv, fnv_value, hash_byte, hash_text, heap_view, Value, FNV_OFFSET};

verus! {

broadcast use vstd::std_specs::hash::group_hash_axioms;

/// How deeply calls nest.
pub const MAX_DEPTH: usize = 2000;

/// The state of a running program.
#[verifier::ext_equal]
pub struct St {
    /// Scopes of the current function, the innermost last.
    pub scopes: Seq<Map<u32, Value>>,
    pub heap: Seq<Seq<Value>>,
    pub printed: Seq<Seq<char>>,
    pub checksum: u64,
}

/// How a step ends: with a value, with a `return`, or with an error.
pub enum Flow<T> {
    Done(T),
    Return(Value),
    Fail(KindV, Span),
}

/// What stays the same while a program runs.
pub struct World {
    pub program: AdaptedProgram,
    pub floats: FloatWorld,
}

/// No place in the source.
pub open spec fn nowhere() -> Span {
    Span { start: 0, end: 0 }
}

/// A program that does not hold together.
pub open spec fn broken<T>(m: Seq<char>) -> Flow<T> {
    Flow::Fail(KindV::Internal(m), nowhere())
}

// ---------------------------------------------------------------------------
// Operations on values
// ---------------------------------------------------------------------------

/// The spelling of an operator.
pub open spec fn op_symbol(op: BinOp) -> Seq<char> {
    match op {
        BinOp::Add => "+"@,
        BinOp::Sub => "-"@,
        BinOp::Mul => "*"@,
        BinOp::Div => "/"@,
        BinOp::Rem => "%"@,
        BinOp::Lt => "<"@,
        BinOp::Le => "<="@,
        BinOp::Gt => ">"@,
        BinOp::Ge => ">="@,
        BinOp::Eq => "=="@,
        BinOp::Ne => "!="@,
        BinOp::And => "&&"@,
        BinOp::Or => "||"@,
    }
}

/// The spelling of an operator.
pub fn symbol_of(op: BinOp) -> (r: &'static str)
    ensures
        r@ == op_symbol(op),
{
    match op {
        BinOp::Add => "+",
        BinOp::Sub => "-",
        BinOp::Mul => "*",
        BinOp::Div => "/",
        BinOp::Rem => "%",
        BinOp::Lt => "<",
        BinOp::Le => "<=",
        BinOp::Gt => ">",
        BinOp::Ge => ">=",
        BinOp::Eq => "==",
        BinOp::Ne => "!=",
        BinOp::And => "&&",
        BinOp::Or => "||",
    }
}

/// The error for operands that an operator does not take.
pub open spec fn misfit(op: BinOp, a: Value, b: Value) -> Flow<Value> {
    broken("'"@ + op_symbol(op) + "' over "@ + a.type_text() + " and "@ + b.type_text())
}

/// The operation on floating-point numbers that an operator stands for.
pub open spec fn float_op_of(op: BinOp) -> Option<FloatOp> {
    match op {
        BinOp::Add => Some(FloatOp::Add),
        BinOp::Sub => Some(FloatOp::Sub),
        BinOp::Mul => Some(FloatOp::Mul),
        BinOp::Div => Some(FloatOp::Div),
        BinOp::Lt => Some(FloatOp::Lt),
        BinOp::Gt => Some(FloatOp::Gt),
        BinOp::Le => Some(FloatOp::Le),
        BinOp::Ge => Some(FloatOp::Ge),
        BinOp::Eq => Some(FloatOp::Eq),
        BinOp::Ne => Some(FloatOp::Ne),
        _ => None,
    }
}

/// The operation on floating-point numbers that an operator stands for.
fn float_op_for(op: BinOp) -> (r: Option<FloatOp>)
    ensures
        r == float_op_of(op),
{
    match op {
        BinOp::Add => Some(FloatOp::Add),
        BinOp::Sub => Some(FloatOp::Sub),
        BinOp::Mul => Some(FloatOp::Mul),
        BinOp::Div => Some(FloatOp::Div),
        BinOp::Lt => Some(FloatOp::Lt),
        BinOp::Gt => Some(FloatOp::Gt),
        BinOp::Le => Some(FloatOp::Le),
        BinOp::Ge => Some(FloatOp::Ge),
        BinOp::Eq => Some(FloatOp::Eq),
        BinOp::Ne => Some(FloatOp::Ne),
        _ => None,
    }
}

/// The operator gives a truth value.
pub open spec fn compares(op: BinOp) -> bool {
    match op {
        BinOp::Lt => true,
        BinOp::Gt => true,
        BinOp::Le => true,
        BinOp::Ge => true,
        BinOp::Eq => true,
        BinOp::Ne => true,
        _ => false,
    }
}

/// The operator gives a truth value.
fn is_comparison(op: BinOp) -> (r: bool)
    ensures
        r == compares(op),
{
    match op {
        BinOp::Lt => true,
        BinOp::Gt => true,
        BinOp::Le => true,
        BinOp::Ge => true,
        BinOp::Eq => true,
        BinOp::Ne => true,
        _ => false,
    }
}

/// A quotient, or why there is none. It has the sign that truncation gives it.
pub open spec fn divided_i64(a: i64, b: i64, span: Span) -> Flow<Value> {
    if b == 0 {
        Flow::Fail(KindV::DivByZero, span)
    } else if a == i64::MIN && b == -1 {
        Flow::Fail(KindV::IdivOverflow, span)
    } else {
        Flow::Done(Value::I64(a.checked_div(b)->0))
    }
}

/// A remainder, or why there is none. It has the sign that truncation gives it.
pub open spec fn remainder_i64(a: i64, b: i64, span: Span) -> Flow<Value> {
    if b == 0 {
        Flow::Fail(KindV::DivByZero, span)
    } else if a == i64::MIN && b == -1 {
        Flow::Fail(KindV::IdivOverflow, span)
    } else {
        Flow::Done(Value::I64(a.checked_rem(b)->0))
    }
}

/// A quotient, or why there is none. It has the sign that truncation gives it.
pub open spec fn divided_i32(a: i32, b: i32, span: Span) -> Flow<Value> {
    if b == 0 {
        Flow::Fail(KindV::DivByZero, span)
    } else if a == i32::MIN && b == -1 {
        Flow::Fail(KindV::IdivOverflow, span)
    } else {
        Flow::Done(Value::I32(a.checked_div(b)->0))
    }
}

/// A remainder, or why there is none. It has the sign that truncation gives it.
pub open spec fn remainder_i32(a: i32, b: i32, span: Span) -> Flow<Value> {
    if b == 0 {
        Flow::Fail(KindV::DivByZero, span)
    } else if a == i32::MIN && b == -1 {
        Flow::Fail(KindV::IdivOverflow, span)
    } else {
        Flow::Done(Value::I32(a.checked_rem(b)->0))
    }
}

/// Two 64-bit integers.
pub open spec fn binary_i64(op: BinOp, a: i64, b: i64, span: Span) -> Flow<Value> {
    match op {
        BinOp::Add => Flow::Done(Value::I64(a.wrapping_add(b))),
        BinOp::Sub => Flow::Done(Value::I64(a.wrapping_sub(b))),
        BinOp::Mul => Flow::Done(Value::I64(a.wrapping_mul(b))),
        BinOp::Div => divided_i64(a, b, span),
        BinOp::Rem => remainder_i64(a, b, span),
        BinOp::Lt => Flow::Done(Value::Bool(a < b)),
        BinOp::Gt => Flow::Done(Value::Bool(a > b)),
        BinOp::Le => Flow::Done(Value::Bool(a <= b)),
        BinOp::Ge => Flow::Done(Value::Bool(a >= b)),
        BinOp::Eq => Flow::Done(Value::Bool(a == b)),
        BinOp::Ne => Flow::Done(Value::Bool(a != b)),
        _ => misfit(op, Value::I64(a), Value::I64(b)),
    }
}

/// Two 32-bit integers.
pub open spec fn binary_i32(op: BinOp, a: i32, b: i32, span: Span) -> Flow<Value> {
    match op {
        BinOp::Add => Flow::Done(Value::I32(a.wrapping_add(b))),
        BinOp::Sub => Flow::Done(Value::I32(a.wrapping_sub(b))),
        BinOp::Mul => Flow::Done(Value::I32(a.wrapping_mul(b))),
        BinOp::Div => divided_i32(a, b, span),
        BinOp::Rem => remainder_i32(a, b, span),
        BinOp::Lt => Flow::Done(Value::Bool(a < b)),
        BinOp::Gt => Flow::Done(Value::Bool(a > b)),
        BinOp::Le => Flow::Done(Value::Bool(a <= b)),
        BinOp::Ge => Flow::Done(Value::Bool(a >= b)),
        BinOp::Eq => Flow::Done(Value::Bool(a == b)),
        BinOp::Ne => Flow::Done(Value::Bool(a != b)),
        _ => misfit(op, Value::I32(a), Value::I32(b)),
    }
}

/// A value of the bits at a precision.
pub open spec fn float_value(p: Precision, bits: u64) -> Value {
    match p {
        Precision::Single => Value::F32(bits as u32),
        Precision::Double => Value::F64(bits),
    }
}

/// Two floating-point numbers.
pub open spec fn binary_float(w: FloatWorld, op: BinOp, p: Precision, a: u64, b: u64) -> Flow<
    Value,
> {
    match float_op_of(op) {
        Some(o) => if compares(op) {
            Flow::Done(Value::Bool((w.ops)(o, p, a, b) != 0))
        } else {
            Flow::Done(float_value(p, (w.ops)(o, p, a, b)))
        },
        None => misfit(op, float_value(p, a), float_value(p, b)),
    }
}

/// A binary operation.
pub open spec fn binary_value(w: FloatWorld, op: BinOp, a: Value, b: Value, span: Span) -> Flow<
    Value,
> {
    match (a, b) {
        (Value::I32(x), Value::I32(y)) => binary_i32(op, x, y, span),
        (Value::I64(x), Value::I64(y)) => binary_i64(op, x, y, span),
        (Value::F32(x), Value::F32(y)) => binary_float(
            w,
            op,
            Precision::Single,
            x as u64,
            y as u64,
        ),
        (Value::F64(x), Value::F64(y)) => binary_float(w, op, Precision::Double, x, y),
        (Value::Bool(x), Value::Bool(y)) => if op == BinOp::Eq {
            Flow::Done(Value::Bool(x == y))
        } else if op == BinOp::Ne {
            Flow::Done(Value::Bool(x != y))
        } else {
            misfit(op, a, b)
        },
        _ => misfit(op, a, b),
    }
}

/// A unary operation.
pub open spec fn unary_value(w: FloatWorld, op: UnOp, v: Value) -> Flow<Value> {
    match op {
        UnOp::Neg => match v {
            Value::I32(x) => Flow::Done(Value::I32(0i32.wrapping_sub(x))),
            Value::I64(x) => Flow::Done(Value::I64(0i64.wrapping_sub(x))),
            Value::F32(x) => Flow::Done(
                Value::F32((w.ops)(FloatOp::Neg, Precision::Single, x as u64, 0) as u32),
            ),
            Value::F64(x) => Flow::Done(
                Value::F64((w.ops)(FloatOp::Neg, Precision::Double, x, 0)),
            ),
            o => broken("negation of "@ + o.type_text()),
        },
        UnOp::Not => match v {
            Value::Bool(b) => Flow::Done(Value::Bool(!b)),
            o => broken("'!' applied to "@ + o.type_text()),
        },
    }
}

/// A conversion: from floating point saturating, between integers truncating.
pub open spec fn cast_value(w: FloatWorld, v: Value, to: Ty) -> Value {
    match (v, to) {
        (Value::I32(x), Ty::I64) => Value::I64(x as i64),
        (Value::I32(x), Ty::F32) => Value::F32(
            (w.ops)(FloatOp::FromInt, Precision::Single, (x as i64) as u64, 0) as u32,
        ),
        (Value::I32(x), Ty::F64) => Value::F64(
            (w.ops)(FloatOp::FromInt, Precision::Double, (x as i64) as u64, 0),
        ),
        (Value::I64(x), Ty::I32) => Value::I32(x as i32),
        (Value::I64(x), Ty::F32) => Value::F32(
            (w.ops)(FloatOp::FromInt, Precision::Single, x as u64, 0) as u32,
        ),
        (Value::I64(x), Ty::F64) => Value::F64(
            (w.ops)(FloatOp::FromInt, Precision::Double, x as u64, 0),
        ),
        (Value::F32(x), Ty::I32) => Value::I32(
            (w.ops)(FloatOp::ToI32, Precision::Single, x as u64, 0) as i32,
        ),
        (Value::F32(x), Ty::I64) => Value::I64(
            (w.ops)(FloatOp::ToI64, Precision::Single, x as u64, 0) as i64,
        ),
        (Value::F32(x), Ty::F64) => Value::F64(
            (w.ops)(FloatOp::FromOther, Precision::Double, x as u64, 0),
        ),
        (Value::F64(x), Ty::I32) => Value::I32(
            (w.ops)(FloatOp::ToI32, Precision::Double, x, 0) as i32,
        ),
        (Value::F64(x), Ty::I64) => Value::I64(
            (w.ops)(FloatOp::ToI64, Precision::Double, x, 0) as i64,
        ),
        (Value::F64(x), Ty::F32) => Value::F32(
            (w.ops)(FloatOp::FromOther, Precision::Single, x, 0) as u32,
        ),
        (v, _) => v,
    }
}

/// `abs`; of the least integer it is that integer.
pub open spec fn abs_value(w: FloatWorld, v: Value) -> Flow<Value> {
    match v {
        Value::I32(x) => Flow::Done(
            Value::I32(
                if x < 0 {
                    0i32.wrapping_sub(x)
                } else {
                    x
                },
            ),
        ),
        Value::I64(x) => Flow::Done(
            Value::I64(
                if x < 0 {
                    0i64.wrapping_sub(x)
                } else {
                    x
                },
            ),
        ),
        Value::F32(x) => Flow::Done(
            Value::F32((w.ops)(FloatOp::Abs, Precision::Single, x as u64, 0) as u32),
        ),
        Value::F64(x) => Flow::Done(Value::F64((w.ops)(FloatOp::Abs, Precision::Double, x, 0))),
        o => broken("abs over "@ + o.type_text()),
    }
}

/// `sqrt`; of a negative number it is a NaN.
pub open spec fn sqrt_value(w: FloatWorld, v: Value) -> Flow<Value> {
    match v {
        Value::F32(x) => Flow::Done(
            Value::F32((w.ops)(FloatOp::Sqrt, Precision::Single, x as u64, 0) as u32),
        ),
        Value::F64(x) => Flow::Done(Value::F64((w.ops)(FloatOp::Sqrt, Precision::Double, x, 0))),
        o => broken("sqrt over "@ + o.type_text()),
    }
}

/// The lesser or the greater of two floating-point numbers: a NaN loses.
pub open spec fn minmax_bits(w: FloatWorld, min: bool, p: Precision, x: u64, y: u64) -> u64 {
    if nan(p, x) {
        y
    } else if nan(p, y) {
        x
    } else if min {
        (w.ops)(FloatOp::Min, p, x, y)
    } else {
        (w.ops)(FloatOp::Max, p, x, y)
    }
}

/// `min` and `max`.
pub open spec fn minmax_value(w: FloatWorld, min: bool, a: Value, b: Value) -> Flow<Value> {
    match (a, b) {
        (Value::I32(x), Value::I32(y)) => Flow::Done(
            Value::I32(
                if (min && x <= y) || (!min && x >= y) {
                    x
                } else {
                    y
                },
            ),
        ),
        (Value::I64(x), Value::I64(y)) => Flow::Done(
            Value::I64(
                if (min && x <= y) || (!min && x >= y) {
                    x
                } else {
                    y
                },
            ),
        ),
        (Value::F32(x), Value::F32(y)) => Flow::Done(
            Value::F32(minmax_bits(w, min, Precision::Single, x as u64, y as u64) as u32),
        ),
        (Value::F64(x), Value::F64(y)) => Flow::Done(
            Value::F64(minmax_bits(w, min, Precision::Double, x, y)),
        ),
        (a, b) => broken("min/max over "@ + a.type_text() + " and "@ + b.type_text()),
    }
}

/// Why execution stops inside a function.
#[derive(Debug)]
pub enum Stop {
    Return(Value),
    Fail(RunErrorKind, Span),
}

/// How a step ended.
pub open spec fn flow_of<T>(r: Result<T, Stop>) -> Flow<T> {
    match r {
        Ok(x) => Flow::Done(x),
        Err(Stop::Return(v)) => Flow::Return(v),
        Err(Stop::Fail(k, s)) => Flow::Fail(k@, s),
    }
}

/// A program that does not hold together.
fn internal<T>(m: String) -> (r: Result<T, Stop>)
    ensures
        flow_of(r) == broken::<T>(m@),
{
    Err(Stop::Fail(RunErrorKind::Internal(m), Span { start: 0, end: 0 }))
}

/// A text with something at its end.
fn with_suffix(a: &str, b: &str) -> (r: String)
    ensures
        r@ == a@ + b@,
{
    let mut s = a.to_owned();
    push_text(&mut s, b);
    s
}

/// The error for operands that an operator does not take.
fn misfit_error(op: BinOp, a: Value, b: Value) -> (r: Result<Value, Stop>)
    ensures
        flow_of(r) == misfit(op, a, b),
{
    let mut s = "'".to_owned();
    push_text(&mut s, symbol_of(op));
    push_text(&mut s, "' over ");
    push_text(&mut s, a.ty_name());
    push_text(&mut s, " and ");
    push_text(&mut s, b.ty_name());
    internal(s)
}

/// Dividing makes no number larger; dividing by more than 1 makes it at most half.
proof fn lemma_quotient(n: int, d: int)
    requires
        n >= 0,
        d > 0,
    ensures
        0 <= n / d <= n,
        d >= 2 ==> n / d <= n / 2,
        0 <= n % d < d,
        n % d <= n,
{
    assert(0 <= n / d <= n) by (nonlinear_arith)
        requires
            n >= 0,
            d > 0,
    ;
    assert(n % d <= n && 0 <= n % d < d) by (nonlinear_arith)
        requires
            n >= 0,
            d > 0,
    ;
    if d >= 2 {
        assert(n / d <= n / 2) by (nonlinear_arith)
            requires
                n >= 0,
                d >= 2,
        ;
    }
}

/// A division that neither divides by zero nor overflows has a result.
proof fn lemma_division_fits(x: int, d: int)
    requires
        d != 0,
    ensures
        x > 0 && d > 0 ==> 0 <= x / d <= x && 0 <= x % d <= x,
        x < 0 && d > 0 ==> 0 <= (x * -1) / d <= -x && 0 <= (x * -1) % d <= -x,
        x < 0 && d < 0 ==> 0 <= (x * -1) / (d * -1) <= -x && 0 <= (x * -1) % (d * -1) <= -x,
        x < 0 && d < -1 ==> (x * -1) / (d * -1) <= (-x) / 2,
        x < 0 && d < 0 ==> (x * -1) % (d * -1) < -d,
        x > 0 && d < 0 ==> 0 <= x / (d * -1) <= x && 0 <= x % (d * -1) <= x,
{
    let n = if x < 0 {
        -x
    } else {
        x
    };
    let m = if d < 0 {
        -d
    } else {
        d
    };
    lemma_quotient(n, m);
}

/// A quotient, or why there is none.
fn checked_div_i64(a: i64, b: i64, span: Span) -> (r: Result<Value, Stop>)
    ensures
        flow_of(r) == divided_i64(a, b, span),
{
    if b == 0 {
        return Err(Stop::Fail(RunErrorKind::DivByZero, span));
    }
    if a == i64::MIN && b == -1 {
        return Err(Stop::Fail(RunErrorKind::IdivOverflow, span));
    }
    proof {
        lemma_division_fits(a as int, b as int);
        assert(a.checked_div(b) is Some);
    }
    match a.checked_div(b) {
        Some(q) => Ok(Value::I64(q)),
        None => Err(Stop::Fail(RunErrorKind::IdivOverflow, span)),
    }
}

/// A remainder, or why there is none.
fn checked_rem_i64(a: i64, b: i64, span: Span) -> (r: Result<Value, Stop>)
    ensures
        flow_of(r) == remainder_i64(a, b, span),
{
    if b == 0 {
        return Err(Stop::Fail(RunErrorKind::DivByZero, span));
    }
    if a == i64::MIN && b == -1 {
        return Err(Stop::Fail(RunErrorKind::IdivOverflow, span));
    }
    proof {
        lemma_division_fits(a as int, b as int);
        assert(a.checked_rem(b) is Some);
    }
    match a.checked_rem(b) {
        Some(q) => Ok(Value::I64(q)),
        None => Err(Stop::Fail(RunErrorKind::IdivOverflow, span)),
    }
}

/// A quotient, or why there is none.
fn checked_div_i32(a: i32, b: i32, span: Span) -> (r: Result<Value, Stop>)
    ensures
        flow_of(r) == divided_i32(a, b, span),
{
    if b == 0 {
        return Err(Stop::Fail(RunErrorKind::DivByZero, span));
    }
    if a == i32::MIN && b == -1 {
        return Err(Stop::Fail(RunErrorKind::IdivOverflow, span));
    }
    proof {
        lemma_division_fits(a as int, b as int);
        assert(a.checked_div(b) is Some);
    }
    match a.checked_div(b) {
        Some(q) => Ok(Value::I32(q)),
        None => Err(Stop::Fail(RunErrorKind::IdivOverflow, span)),
    }
}

/// A remainder, or why there is none.
fn checked_rem_i32(a: i32, b: i32, span: Span) -> (r: Result<Value, Stop>)
    ensures
        flow_of(r) == remainder_i32(a, b, span),
{
    if b == 0 {
        return Err(Stop::Fail(RunErrorKind::DivByZero, span));
    }
    if a == i32::MIN && b == -1 {
        return Err(Stop::Fail(RunErrorKind::IdivOverflow, span));
    }
    proof {
        lemma_division_fits(a as int, b as int);
        assert(a.checked_rem(b) is Some);
    }
    match a.checked_rem(b) {
        Some(q) => Ok(Value::I32(q)),
        None => Err(Stop::Fail(RunErrorKind::IdivOverflow, span)),
    }
}

/// Two 64-bit integers.
fn apply_i64(op: BinOp, a: i64, b: i64, span: Span) -> (r: Result<Value, Stop>)
    ensures
        flow_of(r) == binary_i64(op, a, b, span),
{
    match op {
        BinOp::Add => Ok(Value::I64(a.wrapping_add(b))),
        BinOp::Sub => Ok(Value::I64(a.wrapping_sub(b))),
        BinOp::Mul => Ok(Value::I64(a.wrapping_mul(b))),
        BinOp::Div => checked_div_i64(a, b, span),
        BinOp::Rem => checked_rem_i64(a, b, span),
        BinOp::Lt => Ok(Value::Bool(a < b)),
        BinOp::Gt => Ok(Value::Bool(a > b)),
        BinOp::Le => Ok(Value::Bool(a <= b)),
        BinOp::Ge => Ok(Value::Bool(a >= b)),
        BinOp::Eq => Ok(Value::Bool(a == b)),
        BinOp::Ne => Ok(Value::Bool(a != b)),
        _ => misfit_error(op, Value::I64(a), Value::I64(b)),
    }
}

/// Two 32-bit integers.
fn apply_i32(op: BinOp, a: i32, b: i32, span: Span) -> (r: Result<Value, Stop>)
    ensures
        flow_of(r) == binary_i32(op, a, b, span),
{
    match op {
        BinOp::Add => Ok(Value::I32(a.wrapping_add(b))),
        BinOp::Sub => Ok(Value::I32(a.wrapping_sub(b))),
        BinOp::Mul => Ok(Value::I32(a.wrapping_mul(b))),
        BinOp::Div => checked_div_i32(a, b, span),
        BinOp::Rem => checked_rem_i32(a, b, span),
        BinOp::Lt => Ok(Value::Bool(a < b)),
        BinOp::Gt => Ok(Value::Bool(a > b)),
        BinOp::Le => Ok(Value::Bool(a <= b)),
        BinOp::Ge => Ok(Value::Bool(a >= b)),
        BinOp::Eq => Ok(Value::Bool(a == b)),
        BinOp::Ne => Ok(Value::Bool(a != b)),
        _ => misfit_error(op, Value::I32(a), Value::I32(b)),
    }
}

impl<F: Fn(FloatOp, Precision, u64, u64) -> u64, P: Fn(Precision, u64) -> String> Floats<F, P> {
    /// Two floating-point numbers.
    fn apply(&self, op: BinOp, p: Precision, a: u64, b: u64) -> (r: Result<Value, Stop>)
        requires
            self.functional(),
        ensures
            flow_of(r) == binary_float(self.world(), op, p, a, b),
    {
        match float_op_for(op) {
            Some(o) => {
                let bits: u64 = self.op(o, p, a, b);
                if is_comparison(op) {
                    Ok(Value::Bool(bits != 0))
                } else {
                    match p {
                        Precision::Single => Ok(Value::F32(bits as u32)),
                        Precision::Double => Ok(Value::F64(bits)),
                    }
                }
            },
            None => match p {
                Precision::Single => misfit_error(op, Value::F32(a as u32), Value::F32(b as u32)),
                Precision::Double => misfit_error(op, Value::F64(a), Value::F64(b)),
            },
        }
    }

    /// A binary operation.
    pub fn binary(&self, op: BinOp, a: Value, b: Value, span: Span) -> (r: Result<Value, Stop>)
        requires
            self.functional(),
        ensures
            flow_of(r) == binary_value(self.world(), op, a, b, span),
    {
        match (a, b) {
            (Value::I32(x), Value::I32(y)) => apply_i32(op, x, y, span),
            (Value::I64(x), Value::I64(y)) => apply_i64(op, x, y, span),
            (Value::F32(x), Value::F32(y)) => self.apply(
                op,
                Precision::Single,
                x as u64,
                y as u64,
            ),
            (Value::F64(x), Value::F64(y)) => self.apply(op, Precision::Double, x, y),
            (Value::Bool(x), Value::Bool(y)) => match op {
                BinOp::Eq => Ok(Value::Bool(x == y)),
                BinOp::Ne => Ok(Value::Bool(x != y)),
                _ => misfit_error(op, a, b),
            },
            _ => misfit_error(op, a, b),
        }
    }

    /// A unary operation.
    pub fn unary(&self, op: UnOp, v: Value) -> (r: Result<Value, Stop>)
        requires
            self.functional(),
        ensures
            flow_of(r) == unary_value(self.world(), op, v),
    {
        match op {
            UnOp::Neg => match v {
                Value::I32(x) => Ok(Value::I32(0i32.wrapping_sub(x))),
                Value::I64(x) => Ok(Value::I64(0i64.wrapping_sub(x))),
                Value::F32(x) => Ok(
                    Value::F32(self.op(FloatOp::Neg, Precision::Single, x as u64, 0) as u32),
                ),
                Value::F64(x) => Ok(Value::F64(self.op(FloatOp::Neg, Precision::Double, x, 0))),
                _ => internal(with_suffix("negation of ", v.ty_name())),
            },
            UnOp::Not => match v {
                Value::Bool(b) => Ok(Value::Bool(!b)),
                _ => internal(with_suffix("'!' applied to ", v.ty_name())),
            },
        }
    }

    /// A conversion.
    pub fn cast(&self, v: Value, to: Ty) -> (r: Value)
        requires
            self.functional(),
        ensures
            r == cast_value(self.world(), v, to),
    {
        let single = Precision::Single;
        let double = Precision::Double;
        match (v, to) {
            (Value::I32(x), Ty::I64) => Value::I64(x as i64),
            (Value::I32(x), Ty::F32) => Value::F32(
                self.op(FloatOp::FromInt, single, (x as i64) as u64, 0) as u32,
            ),
            (Value::I32(x), Ty::F64) => Value::F64(
                self.op(FloatOp::FromInt, double, (x as i64) as u64, 0),
            ),
            (Value::I64(x), Ty::I32) => Value::I32(x as i32),
            (Value::I64(x), Ty::F32) => Value::F32(
                self.op(FloatOp::FromInt, single, x as u64, 0) as u32,
            ),
            (Value::I64(x), Ty::F64) => Value::F64(
                self.op(FloatOp::FromInt, double, x as u64, 0),
            ),
            (Value::F32(x), Ty::I32) => Value::I32(
                self.op(FloatOp::ToI32, single, x as u64, 0) as i32,
            ),
            (Value::F32(x), Ty::I64) => Value::I64(
                self.op(FloatOp::ToI64, single, x as u64, 0) as i64,
            ),
            (Value::F32(x), Ty::F64) => Value::F64(
                self.op(FloatOp::FromOther, double, x as u64, 0),
            ),
            (Value::F64(x), Ty::I32) => Value::I32(self.op(FloatOp::ToI32, double, x, 0) as i32),
            (Value::F64(x), Ty::I64) => Value::I64(self.op(FloatOp::ToI64, double, x, 0) as i64),
            (Value::F64(x), Ty::F32) => Value::F32(
                self.op(FloatOp::FromOther, single, x, 0) as u32,
            ),
            (v, _) => v,
        }
    }

    /// `abs`
    pub fn abs(&self, v: Value) -> (r: Result<Value, Stop>)
        requires
            self.functional(),
        ensures
            flow_of(r) == abs_value(self.world(), v),
    {
        match v {
            Value::I32(x) => Ok(
                Value::I32(
                    if x < 0 {
                        0i32.wrapping_sub(x)
                    } else {
                        x
                    },
                ),
            ),
            Value::I64(x) => Ok(
                Value::I64(
                    if x < 0 {
                        0i64.wrapping_sub(x)
                    } else {
                        x
                    },
                ),
            ),
            Value::F32(x) => Ok(
                Value::F32(self.op(FloatOp::Abs, Precision::Single, x as u64, 0) as u32),
            ),
            Value::F64(x) => Ok(Value::F64(self.op(FloatOp::Abs, Precision::Double, x, 0))),
            _ => internal(with_suffix("abs over ", v.ty_name())),
        }
    }

    /// `sqrt`
    pub fn sqrt(&self, v: Value) -> (r: Result<Value, Stop>)
        requires
            self.functional(),
        ensures
            flow_of(r) == sqrt_value(self.world(), v),
    {
        match v {
            Value::F32(x) => Ok(
                Value::F32(self.op(FloatOp::Sqrt, Precision::Single, x as u64, 0) as u32),
            ),
            Value::F64(x) => Ok(Value::F64(self.op(FloatOp::Sqrt, Precision::Double, x, 0))),
            _ => internal(with_suffix("sqrt over ", v.ty_name())),
        }
    }

    /// The lesser or the greater of two floating-point numbers.
    fn float_minmax(&self, min: bool, p: Precision, x: u64, y: u64) -> (r: u64)
        requires
            self.functional(),
        ensures
            r == minmax_bits(self.world(), min, p, x, y),
    {
        if is_nan(p, x) {
            y
        } else if is_nan(p, y) {
            x
        } else if min {
            self.op(FloatOp::Min, p, x, y)
        } else {
            self.op(FloatOp::Max, p, x, y)
        }
    }

    /// `min` and `max`
    pub fn minmax(&self, min: bool, a: Value, b: Value) -> (r: Result<Value, Stop>)
        requires
            self.functional(),
        ensures
            flow_of(r) == minmax_value(self.world(), min, a, b),
    {
        match (a, b) {
            (Value::I32(x), Value::I32(y)) => Ok(
                Value::I32(
                    if (min && x <= y) || (!min && x >= y) {
                        x
                    } else {
                        y
                    },
                ),
            ),
            (Value::I64(x), Value::I64(y)) => Ok(
                Value::I64(
                    if (min && x <= y) || (!min && x >= y) {
                        x
                    } else {
                        y
                    },
                ),
            ),
            (Value::F32(x), Value::F32(y)) => Ok(
                Value::F32(
                    self.float_minmax(min, Precision::Single, x as u64, y as u64) as u32,
                ),
            ),
            (Value::F64(x), Value::F64(y)) => Ok(
                Value::F64(self.float_minmax(min, Precision::Double, x, y)),
            ),
            _ => {
                let mut s = "min/max over ".to_owned();
                push_text(&mut s, a.ty_name());
                push_text(&mut s, " and ");
                push_text(&mut s, b.ty_name());
                internal(s)
            },
        }
    }
}

// ---------------------------------------------------------------------------
// State
// ---------------------------------------------------------------------------

/// The innermost of the first `k` scopes that binds the symbol.
pub open spec fn scope_of(scopes: Seq<Map<u32, Value>>, id: u32, k: nat) -> Option<int>
    decreases k,
{
    if k == 0 {
        None
    } else if scopes[k - 1].dom().contains(id) {
        Some(k - 1)
    } else {
        scope_of(scopes, id, (k - 1) as nat)
    }
}

/// A scope with nothing in it.
pub open spec fn empty_scope() -> Map<u32, Value> {
    Map::empty()
}

/// `0 <= i < len`, else an error at the place.
pub open spec fn bounds_flow(len: nat, i: i64, span: Span) -> Flow<()> {
    if 0 <= i < len {
        Flow::Done(())
    } else {
        Flow::Fail(KindV::Bounds { len: len as usize, idx: i }, span)
    }
}

impl St {
    /// The value of a symbol.
    pub open spec fn lookup(self, id: SymId) -> Flow<Value> {
        match scope_of(self.scopes, id.0, self.scopes.len()) {
            Some(k) => Flow::Done(self.scopes[k][id.0]),
            None => broken("symbol #"@ + natural_text(id.0 as nat) + " not bound at run time"@),
        }
    }

    /// Assigns a symbol where it is bound.
    pub open spec fn assign(self, id: SymId, v: Value) -> (St, Flow<()>) {
        match scope_of(self.scopes, id.0, self.scopes.len()) {
            Some(k) => (
                St { scopes: self.scopes.update(k, self.scopes[k].insert(id.0, v)), ..self },
                Flow::Done(()),
            ),
            None => (
                self,
                broken("assignment to unbound symbol #"@ + natural_text(id.0 as nat)),
            ),
        }
    }

    /// Binds a symbol in the innermost scope.
    pub open spec fn bind(self, id: SymId, v: Value) -> St {
        let k = self.scopes.len() - 1;
        if k < 0 {
            self
        } else {
            St { scopes: self.scopes.update(k, self.scopes[k].insert(id.0, v)), ..self }
        }
    }

    /// Enters a scope.
    pub open spec fn push(self) -> St {
        St { scopes: self.scopes.push(empty_scope()), ..self }
    }

    /// Leaves the innermost scope.
    pub open spec fn pop(self) -> St {
        if self.scopes.len() == 0 {
            self
        } else {
            St { scopes: self.scopes.drop_last(), ..self }
        }
    }

    /// The array that a value is.
    pub open spec fn array(self, v: Value) -> Option<Seq<Value>> {
        match v {
            Value::Array(h) => if h < self.heap.len() {
                Some(self.heap[h as int])
            } else {
                None
            },
            _ => None,
        }
    }

    /// An element of an array.
    pub open spec fn load(self, base: SymId, i: i64, span: Span) -> Flow<Value> {
        match self.lookup(base) {
            Flow::Done(v) => match self.array(v) {
                Some(a) => match bounds_flow(a.len(), i, span) {
                    Flow::Done(_) => Flow::Done(a[i as int]),
                    Flow::Return(v) => Flow::Return(v),
                    Flow::Fail(k, s) => Flow::Fail(k, s),
                },
                None => broken("indexing a non-array"@),
            },
            Flow::Return(v) => Flow::Return(v),
            Flow::Fail(k, s) => Flow::Fail(k, s),
        }
    }

    /// Writes an element of an array.
    pub open spec fn store(self, base: SymId, i: i64, x: Value, span: Span) -> (St, Flow<()>) {
        match self.lookup(base) {
            Flow::Done(v) => match self.array(v) {
                Some(a) => match bounds_flow(a.len(), i, span) {
                    Flow::Done(_) => (
                        St {
                            heap: self.heap.update(
                                (v->Array_0) as int,
                                a.update(i as int, x),
                            ),
                            ..self
                        },
                        Flow::Done(()),
                    ),
                    stop => (self, stop),
                },
                None => (self, broken("element assignment into a non-array"@)),
            },
            Flow::Return(v) => (self, Flow::Return(v)),
            Flow::Fail(k, s) => (self, Flow::Fail(k, s)),
        }
    }

    /// Prints a line; it enters the checksum with its newline.
    pub open spec fn print(self, line: Seq<char>) -> St {
        St {
            printed: self.printed.push(line),
            checksum: fnv(fnv(self.checksum, vstd::utf8::encode_utf8(line)), seq![10u8]),
            ..self
        }
    }

    /// A new array of `n` zeros.
    pub open spec fn zeros(self, n: i64, ty: Ty, span: Span) -> (St, Flow<Value>) {
        if n < 0 {
            (self, Flow::Fail(KindV::NegativeZeros { n }, span))
        } else {
            match ty {
                Ty::Array(e) => if n > usize::MAX {
                    (self, broken("zeros length does not fit the address space"@))
                } else {
                    (
                        St {
                            heap: self.heap.push(
                                Seq::new(n as nat, |i: int| Value::zero_of(e)),
                            ),
                            ..self
                        },
                        Flow::Done(Value::Array(self.heap.len() as usize)),
                    )
                },
                _ => (self, broken("zeros element type unresolved"@)),
            }
        }
    }

    /// `len`
    pub open spec fn length(self, v: Value) -> Flow<Value> {
        match self.array(v) {
            Some(a) => Flow::Done(Value::I64(a.len() as i64)),
            None => broken("len() of a non-array"@),
        }
    }
}

/// Parameters bound to arguments, for the first `k` of them.
pub open spec fn bind_params(params: Seq<(SymId, Ty)>, vals: Seq<Value>, k: nat) -> Map<u32, Value>
    decreases k,
{
    if k == 0 {
        empty_scope()
    } else {
        bind_params(params, vals, (k - 1) as nat).insert((params[k - 1].0).0, vals[k - 1])
    }
}

/// The first `k` constants bound as well.
pub open spec fn bind_consts(
    w: FloatWorld,
    root: Map<u32, Value>,
    consts: Seq<TypedConstDef>,
    k: nat,
) -> Map<u32, Value>
    decreases k,
{
    if k == 0 {
        root
    } else {
        let c = consts[k - 1];
        bind_consts(w, root, consts, (k - 1) as nat).insert(
            c.sym.0,
            Value::const_value(w, c.value, c.ty),
        )
    }
}

/// What the scope of a function holds when it is entered.
pub open spec fn root_scope(w: World, f: AdaptedFn, vals: Seq<Value>) -> Map<u32, Value> {
    bind_consts(
        w.floats,
        bind_params(f.params@, vals, f.params@.len()),
        w.program.consts@,
        w.program.consts@.len(),
    )
}

/// The error of a call that cannot be made: no such function, the wrong number of
/// arguments, or calls that nest too deeply.
pub open spec fn call_fault(w: World, left: nat, idx: u32, n: nat, span: Span) -> Option<
    (KindV, Span),
> {
    if idx >= w.program.funcs@.len() {
        Some(
            (
                KindV::Internal("no function with index "@ + natural_text(idx as nat)),
                nowhere(),
            ),
        )
    } else if n != w.program.funcs@[idx as int].params@.len() {
        Some((KindV::Internal("argument count mismatch"@), nowhere()))
    } else if left == 0 {
        Some((KindV::StackExhausted, span))
    } else {
        None
    }
}

/// What a call gives: the value of its `return`, or nothing where it falls off its end.
pub open spec fn call_result(f: Flow<()>) -> Flow<Value> {
    match f {
        Flow::Done(_) => Flow::Done(Value::Unit),
        Flow::Return(v) => Flow::Done(v),
        Flow::Fail(k, s) => Flow::Fail(k, s),
    }
}

/// The flow without its value.
pub open spec fn stopped<T, U>(f: Flow<T>) -> Flow<U> {
    match f {
        Flow::Done(_) => broken(""@),
        Flow::Return(v) => Flow::Return(v),
        Flow::Fail(k, s) => Flow::Fail(k, s),
    }
}

/// An integer at full width, or an error.
pub open spec fn integer_of(f: Flow<Value>, m: Seq<char>) -> Flow<i64> {
    match f {
        Flow::Done(v) => match v.widened() {
            Some(i) => Flow::Done(i),
            None => broken(m),
        },
        f => stopped(f),
    }
}

/// A truth value, or an error.
pub open spec fn truth_of(f: Flow<Value>, m: Seq<char>) -> Flow<bool> {
    match f {
        Flow::Done(Value::Bool(b)) => Flow::Done(b),
        Flow::Done(_) => broken(m),
        f => stopped(f),
    }
}

// ---------------------------------------------------------------------------
// Meaning
// ---------------------------------------------------------------------------

/// Evaluates an expression; `left` more calls may nest.
pub open spec fn expr(w: World, left: nat, e: EExpr, s: St) -> (St, Flow<Value>)
    decreases left, 0nat, e, 0nat,
{
    match e.kind {
        EExprKind::IntLit(v) => (s, Flow::Done(Value::int_of(v, e.ty))),
        EExprKind::FloatLit(b) => (s, Flow::Done(Value::float_of(w.floats, b, e.ty))),
        EExprKind::BoolLit(b) => (s, Flow::Done(Value::Bool(b))),
        EExprKind::Var(id) => (s, s.lookup(id)),
        EExprKind::ArrayRef(id) => (s, s.lookup(id)),
        EExprKind::Unary(op, o) => {
            let (s1, f) = expr(w, left, *o, s);
            match f {
                Flow::Done(v) => (s1, unary_value(w.floats, op, v)),
                f => (s1, f),
            }
        },
        EExprKind::Bin(op, l, r) => {
            let (s1, f) = expr(w, left, *l, s);
            if op == BinOp::And || op == BinOp::Or {
                match truth_of(f, "logical operand was not bool"@) {
                    Flow::Done(b) => if b == (op == BinOp::Or) {
                        (s1, Flow::Done(Value::Bool(b)))
                    } else {
                        let (s2, g) = expr(w, left, *r, s1);
                        match truth_of(g, "logical operand was not bool"@) {
                            Flow::Done(c) => (s2, Flow::Done(Value::Bool(c))),
                            g => (s2, stopped(g)),
                        }
                    },
                    f => (s1, stopped(f)),
                }
            } else {
                match f {
                    Flow::Done(x) => {
                        let (s2, g) = expr(w, left, *r, s1);
                        match g {
                            Flow::Done(y) => (s2, binary_value(w.floats, op, x, y, e.span)),
                            g => (s2, g),
                        }
                    },
                    f => (s1, f),
                }
            }
        },
        EExprKind::Index(base, idx) => {
            let (s1, f) = expr(w, left, *idx, s);
            match integer_of(f, "array index evaluated to a non-integer"@) {
                Flow::Done(i) => (s1, s1.load(base, i, idx.span)),
                f => (s1, stopped(f)),
            }
        },
        EExprKind::Cast(o, to) => {
            let (s1, f) = expr(w, left, *o, s);
            match f {
                Flow::Done(v) => (s1, Flow::Done(cast_value(w.floats, v, to))),
                f => (s1, f),
            }
        },
        EExprKind::Call(ETarget::Builtin(b, args)) => {
            if args@.len() < arity(b) {
                (s, broken("argument count mismatch"@))
            } else {
                let (s1, f) = eval_args(w, left, args@, arity(b), s);
                match f {
                    Flow::Done(vals) => builtin_value(w, b, vals, e.ty, e.span, s1),
                    f => (s1, stopped(f)),
                }
            }
        },
        EExprKind::Call(ETarget::User { idx, args }) => {
            let (s1, f) = eval_args(w, left, args@, args@.len(), s);
            match f {
                Flow::Done(vals) => match call_fault(w, left, idx, vals.len(), e.span) {
                    Some((k, at)) => (s1, Flow::Fail(k, at)),
                    None => {
                        let callee = w.program.funcs@[idx as int];
                        let inner = St { scopes: seq![root_scope(w, callee, vals)], ..s1 };
                        let (s2, g) = if left > 0 {
                            block(w, (left - 1) as nat, callee.body, inner)
                        } else {
                            (inner, Flow::Done(()))
                        };
                        (St { scopes: s1.scopes, ..s2 }, call_result(g))
                    },
                },
                f => (s1, stopped(f)),
            }
        },
    }
}

/// Evaluates the first `k` arguments, from left to right.
pub open spec fn eval_args(w: World, left: nat, args: Seq<EExpr>, k: nat, s: St) -> (
    St,
    Flow<Seq<Value>>,
)
    decreases left, 0nat, args, k,
{
    if k == 0 || k > args.len() {
        (s, Flow::Done(seq![]))
    } else {
        let (s1, f) = eval_args(w, left, args, (k - 1) as nat, s);
        match f {
            Flow::Done(vals) => {
                let (s2, g) = expr(w, left, args[k - 1], s1);
                match g {
                    Flow::Done(v) => (s2, Flow::Done(vals.push(v))),
                    g => (s2, stopped(g)),
                }
            },
            f => (s1, f),
        }
    }
}

/// How many arguments a function that is always there takes.
pub open spec fn arity(b: Builtin) -> nat {
    match b {
        Builtin::Min => 2,
        Builtin::Max => 2,
        _ => 1,
    }
}

/// What a function that is always there gives.
pub open spec fn builtin_value(
    w: World,
    b: Builtin,
    vals: Seq<Value>,
    ty: Ty,
    span: Span,
    s: St,
) -> (St, Flow<Value>) {
    match b {
        Builtin::Print => (s.print(vals[0].printed(w.floats)), Flow::Done(Value::Unit)),
        Builtin::Zeros => match integer_of(
            Flow::Done(vals[0]),
            "range bound evaluated to a non-integer"@,
        ) {
            Flow::Done(n) => s.zeros(n, ty, span),
            f => (s, stopped(f)),
        },
        Builtin::Len => (s, s.length(vals[0])),
        Builtin::Abs => (s, abs_value(w.floats, vals[0])),
        Builtin::Sqrt => (s, sqrt_value(w.floats, vals[0])),
        Builtin::Min => (s, minmax_value(w.floats, true, vals[0], vals[1])),
        Builtin::Max => (s, minmax_value(w.floats, false, vals[0], vals[1])),
    }
}

/// Runs a block in a scope of its own.
pub open spec fn block(w: World, left: nat, b: EBlock, s: St) -> (St, Flow<()>)
    decreases left, 1nat, b, 0nat,
{
    let (s1, f) = stmts(w, left, b.stmts@, b.stmts@.len(), s.push());
    (s1.pop(), f)
}

/// Runs the first `k` statements, up to the first that stops.
pub open spec fn stmts(w: World, left: nat, list: Seq<EStmt>, k: nat, s: St) -> (St, Flow<()>)
    decreases left, 1nat, list, k,
{
    if k == 0 || k > list.len() {
        (s, Flow::Done(()))
    } else {
        let (s1, f) = stmts(w, left, list, (k - 1) as nat, s);
        match f {
            Flow::Done(_) => stmt(w, left, list[k - 1], s1),
            f => (s1, f),
        }
    }
}

/// Runs a statement.
pub open spec fn stmt(w: World, left: nat, t: EStmt, s: St) -> (St, Flow<()>)
    decreases left, 1nat, t, 0nat,
{
    match t {
        EStmt::Let { sym, init } => {
            let (s1, f) = expr(w, left, init, s);
            match f {
                Flow::Done(v) => (s1.bind(sym, v), Flow::Done(())),
                f => (s1, stopped(f)),
            }
        },
        EStmt::Assign { base, index, value, .. } => match index {
            None => {
                let (s1, f) = expr(w, left, value, s);
                match f {
                    Flow::Done(v) => s1.assign(base, v),
                    f => (s1, stopped(f)),
                }
            },
            Some(idx) => {
                let (s1, f) = expr(w, left, *idx, s);
                match integer_of(f, "array index evaluated to a non-integer"@) {
                    Flow::Done(i) => {
                        let (s2, g) = expr(w, left, value, s1);
                        match g {
                            Flow::Done(v) => s2.store(base, i, v, idx.span),
                            g => (s2, stopped(g)),
                        }
                    },
                    f => (s1, stopped(f)),
                }
            },
        },
        EStmt::If { cond, then_blk, else_arm } => {
            let (s1, f) = expr(w, left, cond, s);
            match truth_of(f, "if condition evaluated to non-bool"@) {
                Flow::Done(b) => if b {
                    block(w, left, then_blk, s1)
                } else {
                    match else_arm {
                        None => (s1, Flow::Done(())),
                        Some(EElse::If(inner)) => if_chain(w, left, *inner, s1),
                        Some(EElse::Block(b2)) => block(w, left, b2, s1),
                    }
                },
                f => (s1, stopped(f)),
            }
        },
        EStmt::For { iv, start, end, body, .. } => {
            let (s1, f) = expr(w, left, *start, s);
            match integer_of(f, "range bound evaluated to a non-integer"@) {
                Flow::Done(lo) => {
                    let (s2, g) = expr(w, left, *end, s1);
                    match integer_of(g, "range bound evaluated to a non-integer"@) {
                        Flow::Done(hi) => {
                            let (s3, h) = for_from(w, left, iv, body, lo as int, hi as int, s2.push());
                            (s3.pop(), h)
                        },
                        g => (s2, stopped(g)),
                    }
                },
                f => (s1, stopped(f)),
            }
        },
        EStmt::Return { value, .. } => match value {
            None => (s, Flow::Return(Value::Unit)),
            Some(e) => {
                let (s1, f) = expr(w, left, e, s);
                match f {
                    Flow::Done(v) => (s1, Flow::Return(v)),
                    f => (s1, stopped(f)),
                }
            },
        },
        EStmt::Effect(e) => {
            let (s1, f) = expr(w, left, e, s);
            match f {
                Flow::Done(_) => (s1, Flow::Done(())),
                f => (s1, stopped(f)),
            }
        },
        EStmt::Nested(b) => block(w, left, b, s),
    }
}

/// Runs the body for every integer from `i` up to, but without, `hi`.
pub open spec fn for_from(w: World, left: nat, iv: SymId, body: EBlock, i: int, hi: int, s: St) -> (
    St,
    Flow<()>,
)
    decreases left, 1nat, body, if i < hi {
        (hi - i) as nat
    } else {
        0nat
    },
{
    if i >= hi {
        (s, Flow::Done(()))
    } else {
        let (s1, f) = block(w, left, body, s.bind(iv, Value::I64(i as i64)));
        match f {
            Flow::Done(_) => for_from(w, left, iv, body, i + 1, hi, s1),
            f => (s1, f),
        }
    }
}

/// Runs one link of an else-if chain.
pub open spec fn if_chain(w: World, left: nat, c: EIf, s: St) -> (St, Flow<()>)
    decreases left, 1nat, c, 0nat,
{
    let (s1, f) = expr(w, left, c.cond, s);
    match truth_of(f, "if condition evaluated to non-bool"@) {
        Flow::Done(b) => if b {
            block(w, left, c.then_blk, s1)
        } else {
            match c.else_arm {
                None => (s1, Flow::Done(())),
                Some(EElse::If(inner)) => if_chain(w, left, *inner, s1),
                Some(EElse::Block(b2)) => block(w, left, b2, s1),
            }
        },
        f => (s1, stopped(f)),
    }
}

/// The checksum after the arrays that the scope binds to symbols below `k`, in the order
/// of the symbols.
pub open spec fn fnv_arrays(h: u64, scope: Map<u32, Value>, heap: Seq<Seq<Value>>, k: nat) -> u64
    decreases k,
{
    if k == 0 {
        h
    } else {
        let before = fnv_arrays(h, scope, heap, (k - 1) as nat);
        let id = (k - 1) as u32;
        if scope.dom().contains(id) && scope[id] is Array {
            fnv_value(before, scope[id], heap)
        } else {
            before
        }
    }
}

/// A function of that name.
pub open spec fn fn_named(name: Seq<char>) -> spec_fn(AdaptedFn) -> bool {
    |f: AdaptedFn| f.name@ == name
}

/// What a run comes to.
#[verifier::ext_equal]
pub struct Outcome {
    pub printed: Seq<Seq<char>>,
    /// The checksum, or why the run failed and where.
    pub end: Result<u64, (KindV, Span)>,
}

/// Runs `main`: its statements run in the outermost scope, whose arrays enter the
/// checksum when they are done.
pub open spec fn run_main(w: World) -> Outcome {
    match first_where(w.program.funcs@, fn_named("main"@)) {
        Some(m) => {
            let main = w.program.funcs@[m];
            let root = bind_consts(
                w.floats,
                empty_scope(),
                w.program.consts@,
                w.program.consts@.len(),
            );
            let start = St {
                scopes: seq![root],
                heap: seq![],
                printed: seq![],
                checksum: FNV_OFFSET,
            };
            let (s, f) = stmts(
                w,
                MAX_DEPTH as nat,
                main.body.stmts@,
                main.body.stmts@.len(),
                start,
            );
            match f {
                Flow::Fail(k, at) => Outcome { printed: s.printed, end: Err((k, at)) },
                _ => Outcome {
                    printed: s.printed,
                    end: Ok(
                        if s.scopes.len() > 0 {
                            fnv_arrays(s.checksum, s.scopes[0], s.heap, 0x1_0000_0000)
                        } else {
                            s.checksum
                        },
                    ),
                },
            }
        },
        None => Outcome {
            printed: seq![],
            end: Err((KindV::Internal("program has no main"@), nowhere())),
        },
    }
}

// ---------------------------------------------------------------------------
// The interpreter
// ---------------------------------------------------------------------------

/// A running program.
pub struct Interp<'p, F, P> {
    program: &'p AdaptedProgram,
    floats: &'p Floats<F, P>,
    scopes: Vec<HashMap<u32, Value>>,
    heap: Vec<Vec<Value>>,
    printed: Vec<String>,
    checksum: u64,
}

/// Views of scopes.
pub open spec fn scope_views(s: Seq<HashMap<u32, Value>>) -> Seq<Map<u32, Value>> {
    s.map_values(|m: HashMap<u32, Value>| m@)
}

impl<'p, F, P> View for Interp<'p, F, P> {
    type V = St;

    closed spec fn view(&self) -> St {
        St {
            scopes: scope_views(self.scopes@),
            heap: heap_view(self.heap@),
            printed: texts(self.printed@),
            checksum: self.checksum,
        }
    }
}

/// How the evaluation of arguments ended.
pub open spec fn args_flow(r: Result<Vec<Value>, Stop>) -> Flow<Seq<Value>> {
    match r {
        Ok(v) => Flow::Done(v@),
        Err(Stop::Return(v)) => Flow::Return(v),
        Err(Stop::Fail(k, s)) => Flow::Fail(k@, s),
    }
}

/// `0 <= i < len`, else an error at the place.
fn check_bounds(len: usize, i: i64, span: Span) -> (r: Result<(), Stop>)
    ensures
        flow_of(r) == bounds_flow(len as nat, i, span),
{
    if 0 <= i && (i as u64) < len as u64 {
        Ok(())
    } else {
        Err(Stop::Fail(RunErrorKind::Bounds { len, idx: i }, span))
    }
}

impl<
    'p,
    F: Fn(FloatOp, Precision, u64, u64) -> u64,
    P: Fn(Precision, u64) -> String,
> Interp<'p, F, P> {
    /// What stays the same while the program runs.
    pub closed spec fn world(self) -> World {
        World { program: *self.program, floats: self.floats.world() }
    }

    /// Floating-point work is functional.
    pub closed spec fn ready(self) -> bool {
        self.floats.functional()
    }

    /// The innermost scope that binds the symbol.
    fn find_scope(&self, id: SymId) -> (r: Option<usize>)
        ensures
            match scope_of(self@.scopes, id.0, self@.scopes.len()) {
                Some(k) => r == Some(k as usize) && 0 <= k < self@.scopes.len() && k == k as usize
                    && self@.scopes[k].dom().contains(id.0),
                None => r is None,
            },
    {
        let mut k: usize = self.scopes.len();
        while k > 0
            invariant
                k <= self.scopes@.len(),
                self@.scopes == scope_views(self.scopes@),
                scope_of(self@.scopes, id.0, self@.scopes.len()) == scope_of(
                    self@.scopes,
                    id.0,
                    k as nat,
                ),
            decreases k,
        {
            proof {
                assert(self@.scopes[k - 1] == self.scopes@[k - 1]@);
            }
            if self.scopes[k - 1].contains_key(&id.0) {
                return Some(k - 1);
            }
            k = k - 1;
        }
        None
    }

    /// The value of a symbol.
    fn lookup(&self, id: SymId) -> (r: Result<Value, Stop>)
        ensures
            flow_of(r) == self@.lookup(id),
    {
        match self.find_scope(id) {
            Some(k) => {
                proof {
                    assert(self@.scopes[k as int] == self.scopes@[k as int]@);
                }
                match self.scopes[k].get(&id.0) {
                    Some(v) => Ok(*v),
                    None => Ok(Value::Unit),
                }
            },
            None => {
                let mut s = "symbol #".to_owned();
                push_natural(&mut s, id.0 as u128);
                push_text(&mut s, " not bound at run time");
                internal(s)
            },
        }
    }

    /// Puts a value into a scope.
    fn put(&mut self, k: usize, id: SymId, v: Value)
        requires
            (k as int) < old(self)@.scopes.len(),
        ensures
            final(self)@ == (St {
                scopes: old(self)@.scopes.update(
                    k as int,
                    old(self)@.scopes[k as int].insert(id.0, v),
                ),
                ..old(self)@
            }),
            final(self).world() == old(self).world(),
            final(self).ready() == old(self).ready(),
    {
        let ghost start = self@;
        let mut m: HashMap<u32, Value> = HashMap::new();
        proof {
            assert(start.scopes[k as int] == self.scopes@[k as int]@);
        }
        self.scopes.set_and_swap(k, &mut m);
        m.insert(id.0, v);
        let ghost scope = m@;
        self.scopes.set(k, m);
        proof {
            assert(scope_views(self.scopes@) =~= start.scopes.update(k as int, scope));
        }
    }

    /// Assigns a symbol where it is bound.
    fn assign(&mut self, id: SymId, v: Value) -> (r: Result<(), Stop>)
        ensures
            (final(self)@, flow_of(r)) == old(self)@.assign(id, v),
            final(self).world() == old(self).world(),
            final(self).ready() == old(self).ready(),
    {
        match self.find_scope(id) {
            Some(k) => {
                self.put(k, id, v);
                Ok(())
            },
            None => {
                let mut s = "assignment to unbound symbol #".to_owned();
                push_natural(&mut s, id.0 as u128);
                internal(s)
            },
        }
    }

    /// Binds a symbol in the innermost scope.
    fn bind(&mut self, id: SymId, v: Value)
        ensures
            final(self)@ == old(self)@.bind(id, v),
            final(self).world() == old(self).world(),
            final(self).ready() == old(self).ready(),
    {
        let n: usize = self.scopes.len();
        if n > 0 {
            self.put(n - 1, id, v);
        }
    }

    /// Enters a scope.
    fn push_scope(&mut self)
        ensures
            final(self)@ == old(self)@.push(),
            final(self).world() == old(self).world(),
            final(self).ready() == old(self).ready(),
    {
        let ghost start = self@;
        let m: HashMap<u32, Value> = HashMap::new();
        let ghost scope = m@;
        self.scopes.push(m);
        proof {
            assert(scope =~= empty_scope());
            assert(scope_views(self.scopes@) =~= start.scopes.push(scope));
        }
    }

    /// Leaves the innermost scope.
    fn pop_scope(&mut self)
        ensures
            final(self)@ == old(self)@.pop(),
            final(self).world() == old(self).world(),
            final(self).ready() == old(self).ready(),
    {
        let ghost start = self@;
        let _ = self.scopes.pop();
        proof {
            assert(scope_views(self.scopes@) =~= start.pop().scopes);
        }
    }

    /// The array that a value is.
    fn array_of(&self, v: Value) -> (r: Option<usize>)
        ensures
            match self@.array(v) {
                Some(a) => r matches Some(h) && v == Value::Array(h) && (h as int)
                    < self@.heap.len() && self@.heap[h as int] == a,
                None => r is None,
            },
    {
        match v {
            Value::Array(h) => if h < self.heap.len() {
                Some(h)
            } else {
                None
            },
            _ => None,
        }
    }

    /// An element of an array.
    fn array_load(&self, base: SymId, i: i64, span: Span) -> (r: Result<Value, Stop>)
        ensures
            flow_of(r) == self@.load(base, i, span),
    {
        let v = match self.lookup(base) {
            Ok(v) => v,
            Err(stop) => {
                return Err(stop);
            },
        };
        match self.array_of(v) {
            Some(h) => {
                proof {
                    assert(self@.heap[h as int] == self.heap@[h as int]@);
                }
                match check_bounds(self.heap[h].len(), i, span) {
                    Ok(_) => Ok(self.heap[h][i as usize]),
                    Err(stop) => Err(stop),
                }
            },
            None => internal("indexing a non-array".to_owned()),
        }
    }

    /// Writes an element of an array.
    fn array_store(&mut self, base: SymId, i: i64, x: Value, span: Span) -> (r: Result<(), Stop>)
        ensures
            (final(self)@, flow_of(r)) == old(self)@.store(base, i, x, span),
            final(self).world() == old(self).world(),
            final(self).ready() == old(self).ready(),
    {
        let ghost start = self@;
        let v = match self.lookup(base) {
            Ok(v) => v,
            Err(stop) => {
                return Err(stop);
            },
        };
        match self.array_of(v) {
            Some(h) => {
                proof {
                    assert(self@.heap[h as int] == self.heap@[h as int]@);
                }
                match check_bounds(self.heap[h].len(), i, span) {
                    Ok(_) => {
                        let mut a: Vec<Value> = Vec::new();
                        self.heap.set_and_swap(h, &mut a);
                        a.set(i as usize, x);
                        let ghost now = a@;
                        self.heap.set(h, a);
                        proof {
                            assert(heap_view(self.heap@) =~= start.heap.update(h as int, now));
                        }
                        Ok(())
                    },
                    Err(stop) => Err(stop),
                }
            },
            None => internal("element assignment into a non-array".to_owned()),
        }
    }

    /// Prints a line.
    fn print_line(&mut self, line: String)
        ensures
            final(self)@ == old(self)@.print(line@),
            final(self).world() == old(self).world(),
            final(self).ready() == old(self).ready(),
    {
        let ghost start = self@;
        proof {
            reveal_with_fuel(fnv, 2);
        }
        let h: u64 = hash_text(self.checksum, line.as_str());
        self.checksum = hash_byte(h, 10);
        self.printed.push(line);
        proof {
            assert(texts(self.printed@) =~= start.printed.push(line@));
        }
    }

    /// A new array of zeros.
    fn make_zeros(&mut self, n: i64, ty: Ty, span: Span) -> (r: Result<Value, Stop>)
        ensures
            (final(self)@, flow_of(r)) == old(self)@.zeros(n, ty, span),
            final(self).world() == old(self).world(),
            final(self).ready() == old(self).ready(),
    {
        let ghost start = self@;
        if n < 0 {
            return Err(Stop::Fail(RunErrorKind::NegativeZeros { n }, span));
        }
        let e: ElemTy = match ty {
            Ty::Array(e) => e,
            _ => {
                return internal("zeros element type unresolved".to_owned());
            },
        };
        if n as u64 > usize::MAX as u64 {
            return internal("zeros length does not fit the address space".to_owned());
        }
        let count: usize = n as usize;
        let zero = Value::zero(e);
        let mut a: Vec<Value> = Vec::new();
        let mut k: usize = 0;
        while k < count
            invariant
                k <= count,
                zero == Value::zero_of(e),
                a@ == Seq::new(k as nat, |i: int| Value::zero_of(e)),
            decreases count - k,
        {
            a.push(zero);
            k = k + 1;
            assert(a@ =~= Seq::new(k as nat, |i: int| Value::zero_of(e)));
        }
        let h: usize = self.heap.len();
        let ghost made = a@;
        self.heap.push(a);
        proof {
            assert(heap_view(self.heap@) =~= start.heap.push(made));
        }
        Ok(Value::Array(h))
    }

    /// `len`
    fn length(&self, v: Value) -> (r: Result<Value, Stop>)
        ensures
            flow_of(r) == self@.length(v),
    {
        match self.array_of(v) {
            Some(h) => {
                proof {
                    assert(self@.heap[h as int] == self.heap@[h as int]@);
                }
                Ok(Value::I64(self.heap[h].len() as i64))
            },
            None => internal("len() of a non-array".to_owned()),
        }
    }

    /// What a function that is always there gives.
    fn builtin(&mut self, b: Builtin, vals: &Vec<Value>, ty: Ty, span: Span) -> (r: Result<
        Value,
        Stop,
    >)
        requires
            old(self).ready(),
            vals@.len() >= arity(b),
        ensures
            (final(self)@, flow_of(r)) == builtin_value(
                old(self).world(),
                b,
                vals@,
                ty,
                span,
                old(self)@,
            ),
            final(self).world() == old(self).world(),
            final(self).ready(),
    {
        match b {
            Builtin::Print => {
                let line = vals[0].render(self.floats);
                self.print_line(line);
                Ok(Value::Unit)
            },
            Builtin::Zeros => match vals[0].as_i64_widen() {
                Some(n) => self.make_zeros(n, ty, span),
                None => internal("range bound evaluated to a non-integer".to_owned()),
            },
            Builtin::Len => self.length(vals[0]),
            Builtin::Abs => self.floats.abs(vals[0]),
            Builtin::Sqrt => self.floats.sqrt(vals[0]),
            Builtin::Min => self.floats.minmax(true, vals[0], vals[1]),
            Builtin::Max => self.floats.minmax(false, vals[0], vals[1]),
        }
    }
}

impl<
    'p,
    F: Fn(FloatOp, Precision, u64, u64) -> u64,
    P: Fn(Precision, u64) -> String,
> Interp<'p, F, P> {
    /// Evaluates an expression.
    #[verifier::rlimit(40)]
    fn expr(&mut self, e: &EExpr, left: usize) -> (r: Result<Value, Stop>)
        requires
            old(self).ready(),
        ensures
            (final(self)@, flow_of(r)) == expr(old(self).world(), left as nat, *e, old(self)@),
            final(self).world() == old(self).world(),
            final(self).ready(),
        decreases left, 0nat, e, 0nat,
    {
        match &e.kind {
            EExprKind::IntLit(v) => Ok(Value::int_lit(*v, e.ty)),
            EExprKind::FloatLit(b) => Ok(Value::float_lit(self.floats, *b, e.ty)),
            EExprKind::BoolLit(b) => Ok(Value::Bool(*b)),
            EExprKind::Var(id) => self.lookup(*id),
            EExprKind::ArrayRef(id) => self.lookup(*id),
            EExprKind::Unary(op, o) => match self.expr(o, left) {
                Ok(v) => self.floats.unary(*op, v),
                Err(stop) => Err(stop),
            },
            EExprKind::Bin(op, l, r) => {
                let x = match self.expr(l, left) {
                    Ok(x) => x,
                    Err(stop) => {
                        return Err(stop);
                    },
                };
                if *op == BinOp::And || *op == BinOp::Or {
                    let decided = *op == BinOp::Or;
                    let b = match x {
                        Value::Bool(b) => b,
                        _ => {
                            return internal("logical operand was not bool".to_owned());
                        },
                    };
                    if b == decided {
                        return Ok(Value::Bool(b));
                    }
                    return match self.expr(r, left) {
                        Ok(Value::Bool(c)) => Ok(Value::Bool(c)),
                        Ok(_) => internal("logical operand was not bool".to_owned()),
                        Err(stop) => Err(stop),
                    };
                }
                match self.expr(r, left) {
                    Ok(y) => self.floats.binary(*op, x, y, e.span),
                    Err(stop) => Err(stop),
                }
            },
            EExprKind::Index(base, idx) => match self.expr(idx, left) {
                Ok(v) => match v.as_i64_widen() {
                    Some(i) => self.array_load(*base, i, idx.span),
                    None => internal("array index evaluated to a non-integer".to_owned()),
                },
                Err(stop) => Err(stop),
            },
            EExprKind::Cast(o, to) => match self.expr(o, left) {
                Ok(v) => Ok(self.floats.cast(v, *to)),
                Err(stop) => Err(stop),
            },
            EExprKind::Call(target) => match target {
                ETarget::Builtin(b, args) => {
                    let need: usize = match b {
                        Builtin::Min => 2,
                        Builtin::Max => 2,
                        _ => 1,
                    };
                    if args.len() < need {
                        return internal("argument count mismatch".to_owned());
                    }
                    match self.eval_args(args, need, left) {
                        Ok(vals) => self.builtin(*b, &vals, e.ty, e.span),
                        Err(stop) => Err(stop),
                    }
                },
                ETarget::User { idx, args } => {
                    let vals = match self.eval_args(args, args.len(), left) {
                        Ok(vals) => vals,
                        Err(stop) => {
                            return Err(stop);
                        },
                    };
                    let program: &'p AdaptedProgram = self.program;
                    if *idx as usize >= program.funcs.len() {
                        let mut s = "no function with index ".to_owned();
                        push_natural(&mut s, *idx as u128);
                        return internal(s);
                    }
                    let callee: &'p AdaptedFn = &program.funcs[*idx as usize];
                    if vals.len() != callee.params.len() {
                        return internal("argument count mismatch".to_owned());
                    }
                    if left == 0 {
                        return Err(Stop::Fail(RunErrorKind::StackExhausted, e.span));
                    }
                    let ghost outer = self@;
                    let root = self.root_scope_of(callee, &vals);
                    let ghost root_view = root@;
                    let mut saved: Vec<HashMap<u32, Value>> = Vec::new();
                    saved.push(root);
                    proof {
                        assert(scope_views(saved@) =~= seq![root_view]);
                    }
                    std::mem::swap(&mut saved, &mut self.scopes);
                    let out = self.block(&callee.body, left - 1);
                    self.scopes = saved;
                    match out {
                        Ok(_) => Ok(Value::Unit),
                        Err(Stop::Return(v)) => Ok(v),
                        Err(Stop::Fail(k, s)) => Err(Stop::Fail(k, s)),
                    }
                },
            },
        }
    }

    /// What the scope of a function holds when it is entered.
    fn root_scope_of(&self, f: &AdaptedFn, vals: &Vec<Value>) -> (r: HashMap<u32, Value>)
        requires
            self.ready(),
            vals@.len() == f.params@.len(),
        ensures
            r@ == root_scope(self.world(), *f, vals@),
    {
        let mut root: HashMap<u32, Value> = HashMap::new();
        proof {
            assert(root@ =~= empty_scope());
        }
        let mut k: usize = 0;
        while k < f.params.len()
            invariant
                vals@.len() == f.params@.len(),
                k <= f.params@.len(),
                root@ == bind_params(f.params@, vals@, k as nat),
            decreases f.params@.len() - k,
        {
            root.insert((f.params[k].0).0, vals[k]);
            k = k + 1;
        }
        self.with_consts(root)
    }

    /// The constants bound as well.
    fn with_consts(&self, root: HashMap<u32, Value>) -> (r: HashMap<u32, Value>)
        requires
            self.ready(),
        ensures
            r@ == bind_consts(
                self.world().floats,
                root@,
                self.world().program.consts@,
                self.world().program.consts@.len(),
            ),
    {
        let ghost start = root@;
        let mut scope = root;
        let consts = &self.program.consts;
        let mut k: usize = 0;
        while k < consts.len()
            invariant
                self.ready(),
                *consts == self.world().program.consts,
                k <= consts@.len(),
                scope@ == bind_consts(self.world().floats, start, consts@, k as nat),
            decreases consts@.len() - k,
        {
            let c = &consts[k];
            scope.insert(c.sym.0, Value::from_const(self.floats, &c.value, c.ty));
            k = k + 1;
        }
        scope
    }

    /// Evaluates the first `n` arguments, from left to right.
    fn eval_args(&mut self, args: &Vec<EExpr>, n: usize, left: usize) -> (r: Result<
        Vec<Value>,
        Stop,
    >)
        requires
            old(self).ready(),
            n <= args@.len(),
        ensures
            (final(self)@, args_flow(r)) == eval_args(
                old(self).world(),
                left as nat,
                args@,
                n as nat,
                old(self)@,
            ),
            r matches Ok(v) ==> v@.len() == n,
            final(self).world() == old(self).world(),
            final(self).ready(),
        decreases left, 0nat, args, n,
    {
        let ghost w = self.world();
        let ghost start = self@;
        let mut vals: Vec<Value> = Vec::new();
        assert(vals@ =~= seq![]);
        let mut k: usize = 0;
        while k < n
            invariant
                w == old(self).world(),
                start == old(self)@,
                self.world() == w,
                self.ready(),
                k <= n <= args@.len(),
                vals@.len() == k,
                eval_args(w, left as nat, args@, k as nat, start) == (
                    self@,
                    Flow::<Seq<Value>>::Done(vals@),
                ),
            decreases n - k,
        {
            match self.expr(&args[k], left) {
                Ok(v) => {
                    vals.push(v);
                },
                Err(stop) => {
                    proof {
                        lemma_args_stop(w, left as nat, args@, (k + 1) as nat, n as nat, start);
                    }
                    return Err(stop);
                },
            }
            k = k + 1;
        }
        Ok(vals)
    }

    /// Runs a block in a scope of its own.
    fn block(&mut self, b: &EBlock, left: usize) -> (r: Result<(), Stop>)
        requires
            old(self).ready(),
        ensures
            (final(self)@, flow_of(r)) == block(old(self).world(), left as nat, *b, old(self)@),
            final(self).world() == old(self).world(),
            final(self).ready(),
        decreases left, 1nat, b, 0nat,
    {
        self.push_scope();
        let out = self.stmts(&b.stmts, left);
        self.pop_scope();
        out
    }

    /// Runs statements in the current scope, up to the first that stops.
    fn stmts(&mut self, list: &Vec<EStmt>, left: usize) -> (r: Result<(), Stop>)
        requires
            old(self).ready(),
        ensures
            (final(self)@, flow_of(r)) == stmts(
                old(self).world(),
                left as nat,
                list@,
                list@.len(),
                old(self)@,
            ),
            final(self).world() == old(self).world(),
            final(self).ready(),
        decreases left, 1nat, list, list@.len(),
    {
        let ghost w = self.world();
        let ghost start = self@;
        let mut k: usize = 0;
        while k < list.len()
            invariant
                w == old(self).world(),
                start == old(self)@,
                self.world() == w,
                self.ready(),
                k <= list@.len(),
                stmts(w, left as nat, list@, k as nat, start) == (self@, Flow::<()>::Done(())),
            decreases list@.len() - k,
        {
            match self.stmt(&list[k], left) {
                Ok(_) => {},
                Err(stop) => {
                    proof {
                        lemma_stmts_stop(
                            w,
                            left as nat,
                            list@,
                            (k + 1) as nat,
                            list@.len(),
                            start,
                        );
                    }
                    return Err(stop);
                },
            }
            k = k + 1;
        }
        Ok(())
    }

    /// Runs a statement.
    #[verifier::rlimit(40)]
    fn stmt(&mut self, t: &EStmt, left: usize) -> (r: Result<(), Stop>)
        requires
            old(self).ready(),
        ensures
            (final(self)@, flow_of(r)) == stmt(old(self).world(), left as nat, *t, old(self)@),
            final(self).world() == old(self).world(),
            final(self).ready(),
        decreases left, 1nat, t, 0nat,
    {
        match t {
            EStmt::Let { sym, init } => match self.expr(init, left) {
                Ok(v) => {
                    self.bind(*sym, v);
                    Ok(())
                },
                Err(stop) => Err(stop),
            },
            EStmt::Assign { base, index, value, .. } => match index {
                None => match self.expr(value, left) {
                    Ok(v) => self.assign(*base, v),
                    Err(stop) => Err(stop),
                },
                Some(idx) => {
                    let i: i64 = match self.expr(idx, left) {
                        Ok(v) => match v.as_i64_widen() {
                            Some(i) => i,
                            None => {
                                return internal(
                                    "array index evaluated to a non-integer".to_owned(),
                                );
                            },
                        },
                        Err(stop) => {
                            return Err(stop);
                        },
                    };
                    match self.expr(value, left) {
                        Ok(v) => self.array_store(*base, i, v, idx.span),
                        Err(stop) => Err(stop),
                    }
                },
            },
            EStmt::If { cond, then_blk, else_arm } => {
                let b = match self.expr(cond, left) {
                    Ok(Value::Bool(b)) => b,
                    Ok(_) => {
                        return internal("if condition evaluated to non-bool".to_owned());
                    },
                    Err(stop) => {
                        return Err(stop);
                    },
                };
                if b {
                    return self.block(then_blk, left);
                }
                match else_arm {
                    None => Ok(()),
                    Some(arm) => match arm {
                        EElse::If(inner) => self.if_chain(inner, left),
                        EElse::Block(b2) => self.block(b2, left),
                    },
                }
            },
            EStmt::For { iv, start, end, body, .. } => {
                let lo: i64 = match self.expr(start, left) {
                    Ok(v) => match v.as_i64_widen() {
                        Some(i) => i,
                        None => {
                            return internal("range bound evaluated to a non-integer".to_owned());
                        },
                    },
                    Err(stop) => {
                        return Err(stop);
                    },
                };
                let hi: i64 = match self.expr(end, left) {
                    Ok(v) => match v.as_i64_widen() {
                        Some(i) => i,
                        None => {
                            return internal("range bound evaluated to a non-integer".to_owned());
                        },
                    },
                    Err(stop) => {
                        return Err(stop);
                    },
                };
                self.push_scope();
                let out = self.for_range(*iv, body, lo, hi, left);
                self.pop_scope();
                out
            },
            EStmt::Return { value, .. } => match value {
                None => Err(Stop::Return(Value::Unit)),
                Some(e) => match self.expr(e, left) {
                    Ok(v) => Err(Stop::Return(v)),
                    Err(stop) => Err(stop),
                },
            },
            EStmt::Effect(e) => match self.expr(e, left) {
                Ok(_) => Ok(()),
                Err(stop) => Err(stop),
            },
            EStmt::Nested(b) => self.block(b, left),
        }
    }

    /// Runs the body for every integer from `lo` up to, but without, `hi`.
    fn for_range(&mut self, iv: SymId, body: &EBlock, lo: i64, hi: i64, left: usize) -> (r: Result<
        (),
        Stop,
    >)
        requires
            old(self).ready(),
        ensures
            (final(self)@, flow_of(r)) == for_from(
                old(self).world(),
                left as nat,
                iv,
                *body,
                lo as int,
                hi as int,
                old(self)@,
            ),
            final(self).world() == old(self).world(),
            final(self).ready(),
        decreases left, 1nat, body, 1nat,
    {
        let ghost w = self.world();
        let ghost start = self@;
        let mut i: i64 = lo;
        while i < hi
            invariant
                w == old(self).world(),
                start == old(self)@,
                self.world() == w,
                self.ready(),
                for_from(w, left as nat, iv, *body, lo as int, hi as int, start) == for_from(
                    w,
                    left as nat,
                    iv,
                    *body,
                    i as int,
                    hi as int,
                    self@,
                ),
            decreases hi - i,
        {
            self.bind(iv, Value::I64(i));
            match self.block(body, left) {
                Ok(_) => {},
                Err(stop) => {
                    return Err(stop);
                },
            }
            i = i + 1;
        }
        Ok(())
    }

    /// Runs one link of an else-if chain.
    fn if_chain(&mut self, c: &EIf, left: usize) -> (r: Result<(), Stop>)
        requires
            old(self).ready(),
        ensures
            (final(self)@, flow_of(r)) == if_chain(old(self).world(), left as nat, *c, old(self)@),
            final(self).world() == old(self).world(),
            final(self).ready(),
        decreases left, 1nat, c, 0nat,
    {
        let b = match self.expr(&c.cond, left) {
            Ok(Value::Bool(b)) => b,
            Ok(_) => {
                return internal("if condition evaluated to non-bool".to_owned());
            },
            Err(stop) => {
                return Err(stop);
            },
        };
        if b {
            return self.block(&c.then_blk, left);
        }
        match &c.else_arm {
            None => Ok(()),
            Some(arm) => match arm {
                EElse::If(inner) => self.if_chain(inner, left),
                EElse::Block(b2) => self.block(b2, left),
            },
        }
    }
}

/// An argument that stops ends the list.
proof fn lemma_args_stop(w: World, left: nat, args: Seq<EExpr>, k: nat, n: nat, s: St)
    requires
        k <= n <= args.len(),
        !(eval_args(w, left, args, k, s).1 is Done),
    ensures
        eval_args(w, left, args, n, s) == eval_args(w, left, args, k, s),
    decreases n,
{
    if k < n {
        lemma_args_stop(w, left, args, k, (n - 1) as nat, s);
    }
}

/// A statement that stops ends the list.
proof fn lemma_stmts_stop(w: World, left: nat, list: Seq<EStmt>, k: nat, n: nat, s: St)
    requires
        k <= n <= list.len(),
        !(stmts(w, left, list, k, s).1 is Done),
    ensures
        stmts(w, left, list, n, s) == stmts(w, left, list, k, s),
    decreases n,
{
    if k < n {
        lemma_stmts_stop(w, left, list, k, (n - 1) as nat, s);
    }
}

// ---------------------------------------------------------------------------
// Runs
// ---------------------------------------------------------------------------

/// What a successful run gives: the printed lines, and a checksum of them and of the
/// arrays that are left at its end.
#[derive(Debug)]
pub struct RunOutput {
    pub printed: Vec<String>,
    pub checksum: u64,
}

/// The result is the outcome.
pub open spec fn is_outcome(r: Result<RunOutput, RunError>, o: Outcome) -> bool {
    match o.end {
        Ok(sum) => r matches Ok(out) && texts(out.printed@) == o.printed && out.checksum == sum,
        Err((k, at)) => r matches Err(e) && e.kind@ == k && e.span == at && texts(
            e.printed_so_far@,
        ) == o.printed,
    }
}

/// Ids that the scope does not bind add nothing.
proof fn lemma_arrays_end(h: u64, scope: Map<u32, Value>, heap: Seq<Seq<Value>>, k: nat, n: nat)
    requires
        k <= n <= 0x1_0000_0000,
        forall|id: u32| #[trigger] scope.dom().contains(id) ==> id < k,
    ensures
        fnv_arrays(h, scope, heap, n) == fnv_arrays(h, scope, heap, k),
    decreases n,
{
    if k < n {
        lemma_arrays_end(h, scope, heap, k, (n - 1) as nat);
        let id = (n - 1) as u32;
        assert(!scope.dom().contains(id));
    }
}

impl<
    'p,
    F: Fn(FloatOp, Precision, u64, u64) -> u64,
    P: Fn(Precision, u64) -> String,
> Interp<'p, F, P> {
    /// A number above every symbol that the scope binds.
    fn above_symbols(scope: &HashMap<u32, Value>) -> (r: u64)
        ensures
            r <= 0x1_0000_0000,
            forall|id: u32| #[trigger] scope@.dom().contains(id) ==> id < r,
    {
        let mut top: u64 = 0;
        for id in it: scope.keys()
            invariant
                top <= 0x1_0000_0000,
                it.seq().unref().to_set() == scope@.dom(),
                forall|j: int| 0 <= j < it.index() ==> *(#[trigger] it.seq()[j]) < top,
        {
            if *id as u64 >= top {
                top = *id as u64 + 1;
            }
        }
        proof {
            assert forall|id: u32| #[trigger] scope@.dom().contains(id) implies id < top by {}
        }
        top
    }

    /// The checksum with the arrays of the outermost scope.
    fn hash_final_arrays(&self) -> (r: u64)
        ensures
            r == (if self@.scopes.len() > 0 {
                fnv_arrays(self@.checksum, self@.scopes[0], self@.heap, 0x1_0000_0000)
            } else {
                self@.checksum
            }),
    {
        if self.scopes.len() == 0 {
            return self.checksum;
        }
        let scope = &self.scopes[0];
        proof {
            assert(self@.scopes[0] == self.scopes@[0]@);
        }
        let top: u64 = Self::above_symbols(scope);
        let mut h: u64 = self.checksum;
        let mut id: u64 = 0;
        while id < top
            invariant
                id <= top <= 0x1_0000_0000,
                scope@ == self@.scopes[0],
                h == fnv_arrays(self@.checksum, scope@, self@.heap, id as nat),
            decreases top - id,
        {
            if let Some(v) = scope.get(&(id as u32)) {
                if let Value::Array(_) = *v {
                    h = v.hash_bits_into(h, &self.heap);
                }
            }
            id = id + 1;
        }
        proof {
            lemma_arrays_end(
                self@.checksum,
                scope@,
                self@.heap,
                top as nat,
                0x1_0000_0000,
            );
        }
        h
    }
}

/// Runs a program from its `main`.
#[verifier::rlimit(40)]
pub fn execute<F: Fn(FloatOp, Precision, u64, u64) -> u64, P: Fn(Precision, u64) -> String>(
    program: &AdaptedProgram,
    floats: &Floats<F, P>,
) -> (r: Result<RunOutput, RunError>)
    requires
        floats.functional(),
    ensures
        is_outcome(
            r,
            run_main((World { program: *program, floats: floats.world() })),
        ),
{
    let ghost w = World { program: *program, floats: floats.world() };
    let ghost p = fn_named("main"@);
    let mut m: usize = 0;
    while m < program.funcs.len() && !is_text(&program.funcs[m].name, "main")
        invariant
            p == fn_named("main"@),
            m <= program.funcs@.len(),
            forall|j: int| 0 <= j < m ==> !p(#[trigger] program.funcs@[j]),
        decreases program.funcs@.len() - m,
    {
        m = m + 1;
    }
    if m >= program.funcs.len() {
        proof {
            lemma_first_where_none(program.funcs@, p);
        }
        let e = RunError::new(
            RunErrorKind::Internal("program has no main".to_owned()),
            Span { start: 0, end: 0 },
        );
        assert(texts(e.printed_so_far@) =~= seq![]);
        return Err(e);
    }
    proof {
        lemma_first_where_is(program.funcs@, p, m as int);
    }
    let mut it = Interp {
        program,
        floats,
        scopes: Vec::new(),
        heap: Vec::new(),
        printed: Vec::new(),
        checksum: FNV_OFFSET,
    };
    let empty: HashMap<u32, Value> = HashMap::new();
    proof {
        assert(empty@ =~= empty_scope());
    }
    let root = it.with_consts(empty);
    let ghost root_view = root@;
    it.scopes.push(root);
    proof {
        assert(it@ =~= St {
            scopes: seq![root_view],
            heap: seq![],
            printed: seq![],
            checksum: FNV_OFFSET,
        });
        assert(it.world() == w);
    }
    match it.stmts(&program.funcs[m].body.stmts, MAX_DEPTH) {
        Err(Stop::Fail(kind, span)) => {
            return Err(RunError { kind, span, printed_so_far: it.printed });
        },
        _ => {},
    }
    let checksum: u64 = it.hash_final_arrays();
    Ok(RunOutput { printed: it.printed, checksum })
}

} // verus!
