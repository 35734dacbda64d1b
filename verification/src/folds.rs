//! Chains as folds: what an accumulating instruction makes of the accumulator is the
//! accumulator combined with a term, and integers are combined in any order.
use vstd::prelude::*;

use crate::dispatch::{combined_i32, combined_i64};
use crate::error::Span;
use crate::floats::FloatWorld;
use crate::interp::{binary_value, minmax_value, Flow};
use crate::ir::{BinOp, FuncIr, Inst};
use crate::partials::{
    by_i32, by_i64, lemma_crop_32, lemma_crop_64, lemma_mul_groups_32, lemma_mul_groups_64,
};
use crate::reduce::{chain_op, Accumulator, ReductionOp};
use crate::value::Value;

verus! {

/// What comes out of a step that ends with a value.
pub open spec fn outcome(f: Flow<Value>) -> Option<Value> {
    match f {
        Flow::Done(v) => Some(v),
        _ => None,
    }
}

/// What an operator gives, if it gives a value.
pub open spec fn operated(w: FloatWorld, op: BinOp, a: Value, b: Value) -> Option<Value> {
    outcome(binary_value(w, op, a, b, Span { start: 0, end: 0 }))
}

/// What a chain makes of the accumulator and of the other operand, in the words of the
/// interpreter.
pub open spec fn chain_value(
    w: FloatWorld,
    inst: Inst,
    acc: Accumulator,
    x: Value,
    t: Value,
) -> Option<Value> {
    match inst {
        Inst::Bin { op, a, .. } => if acc.is(a) {
            operated(w, op, x, t)
        } else {
            operated(w, op, t, x)
        },
        Inst::Call(c) => if acc.is(c.args@[0]) {
            outcome(minmax_value(w, c.callee@ == "min"@, x, t))
        } else {
            outcome(minmax_value(w, c.callee@ == "min"@, t, x))
        },
        _ => None,
    }
}

/// The term that a 64-bit operand stands for: itself, or its negation in a difference.
pub open spec fn term_i64(inst: Inst, t: Value) -> Option<i64> {
    match t {
        Value::I64(n) => if inst is Bin && inst->Bin_op is Sub {
            Some(0i64.wrapping_sub(n))
        } else {
            Some(n)
        },
        _ => None,
    }
}

/// The term that a 32-bit operand stands for.
pub open spec fn term_i32(inst: Inst, t: Value) -> Option<i32> {
    match t {
        Value::I32(n) => if inst is Bin && inst->Bin_op is Sub {
            Some(0i32.wrapping_sub(n))
        } else {
            Some(n)
        },
        _ => None,
    }
}

/// A recognized chain folds: what it makes of a 64-bit accumulator is the accumulator
/// combined with its term, bit by bit.
pub proof fn law_chains_fold_i64(w: FloatWorld, func: FuncIr, acc: Accumulator, x: i64, t: Value)
    requires
        chain_op(func, acc) is Some,
    ensures
        ({
            let inst = func.def_inst(acc.chain)->0;
            chain_value(w, inst, acc, Value::I64(x), t) == (match term_i64(inst, t) {
                Some(n) => Some(Value::I64(combined_i64(chain_op(func, acc)->0, x, n))),
                None => None,
            })
        }),
{
    if let Value::I64(n) = t {
        assert(x * n == n * x) by (nonlinear_arith);
    }
}

/// The same for a 32-bit accumulator.
pub proof fn law_chains_fold_i32(w: FloatWorld, func: FuncIr, acc: Accumulator, x: i32, t: Value)
    requires
        chain_op(func, acc) is Some,
    ensures
        ({
            let inst = func.def_inst(acc.chain)->0;
            chain_value(w, inst, acc, Value::I32(x), t) == (match term_i32(inst, t) {
                Some(n) => Some(Value::I32(combined_i32(chain_op(func, acc)->0, x, n))),
                None => None,
            })
        }),
{
    if let Value::I32(n) = t {
        assert(x * n == n * x) by (nonlinear_arith);
    }
}

/// Terms may be combined with a total in either order.
pub open spec fn swaps<B>(f: spec_fn(B, B) -> B, a: B, b: B, c: B) -> bool {
    f(f(a, b), c) == f(f(a, c), b)
}

/// A function that combines in any order and has a value that changes nothing.
pub open spec fn combines<B>(f: spec_fn(B, B) -> B, unit: B) -> bool {
    &&& forall|a: B, b: B, c: B| #[trigger] swaps(f, a, b, c)
    &&& forall|a: B| #[trigger] f(unit, a) == a
}

/// The value that changes nothing.
pub open spec fn unit_i64(op: ReductionOp) -> i64 {
    match op {
        ReductionOp::Add => 0,
        ReductionOp::Mul => 1,
        ReductionOp::Min => i64::MAX,
        ReductionOp::Max => i64::MIN,
    }
}

/// The value that changes nothing.
pub open spec fn unit_i32(op: ReductionOp) -> i32 {
    match op {
        ReductionOp::Add => 0,
        ReductionOp::Mul => 1,
        ReductionOp::Min => i32::MAX,
        ReductionOp::Max => i32::MIN,
    }
}

/// 64-bit integers are combined in any order.
pub proof fn lemma_combines_i64(op: ReductionOp)
    ensures
        combines(by_i64(op), unit_i64(op)),
{
    let f = by_i64(op);
    assert forall|a: i64, b: i64, c: i64| #[trigger] swaps(f, a, b, c) by {
        if op == ReductionOp::Mul {
            lemma_mul_groups_64(a, b, c);
            lemma_mul_groups_64(a, c, b);
            assert(b * c == c * b) by (nonlinear_arith);
        }
    }
    assert forall|a: i64| #[trigger] f(unit_i64(op), a) == a by {
        if op == ReductionOp::Mul {
            let k = lemma_crop_64(1 * a);
        }
    }
}

/// 32-bit integers are combined in any order.
pub proof fn lemma_combines_i32(op: ReductionOp)
    ensures
        combines(by_i32(op), unit_i32(op)),
{
    let f = by_i32(op);
    assert forall|a: i32, b: i32, c: i32| #[trigger] swaps(f, a, b, c) by {
        if op == ReductionOp::Mul {
            lemma_mul_groups_32(a, b, c);
            lemma_mul_groups_32(a, c, b);
            assert(b * c == c * b) by (nonlinear_arith);
        }
    }
    assert forall|a: i32| #[trigger] f(unit_i32(op), a) == a by {
        if op == ReductionOp::Mul {
            let k = lemma_crop_32(1 * a);
        }
    }
}

} // verus!
