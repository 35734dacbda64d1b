//! What values are combined to: the arithmetic of integers, in the terms of mathematics.
use vstd::prelude::*;

use crate::access::{lemma_wraps, turned, wraps_to};
use crate::error::{KindV, Span};
use crate::floats::FloatWorld;
use crate::interp::{abs_value, binary_value, cast_value, minmax_value, unary_value, Flow};
use crate::ir::{BinOp, Ty, UnOp};
use crate::partials::lemma_crop_32;
use crate::value::Value;

verus! {

/// Sums, differences and products of 64-bit integers are those of mathematics, up to
/// multiples of 2^64.
pub proof fn law_integers_wrap_64(w: FloatWorld, x: i64, y: i64, span: Span)
    ensures
        binary_value(w, BinOp::Add, Value::I64(x), Value::I64(y), span) matches Flow::Done(
            Value::I64(z),
        ) && wraps_to(z as int, x + y),
        binary_value(w, BinOp::Sub, Value::I64(x), Value::I64(y), span) matches Flow::Done(
            Value::I64(z),
        ) && wraps_to(z as int, x - y),
        binary_value(w, BinOp::Mul, Value::I64(x), Value::I64(y), span) matches Flow::Done(
            Value::I64(z),
        ) && wraps_to(z as int, x * y),
{
    assert(x == turned(x as int, 0) && y == turned(y as int, 0));
    assert(wraps_to(x as int, x as int) && wraps_to(y as int, y as int));
    lemma_wraps(BinOp::Add, x, y, x as int, y as int);
    lemma_wraps(BinOp::Sub, x, y, x as int, y as int);
    lemma_wraps(BinOp::Mul, x, y, x as int, y as int);
}

/// The numbers differ by a multiple of the range of 32-bit integers.
pub open spec fn wraps_to_32(x: int, y: int) -> bool {
    exists|k: int| x == #[trigger] turned_32(y, k)
}

/// A number after so many turns round the range of 32-bit integers.
pub open spec fn turned_32(y: int, k: int) -> int {
    y + 0x1_0000_0000 * k
}

/// The same for 32-bit integers and multiples of 2^32.
pub proof fn law_integers_wrap_32(w: FloatWorld, x: i32, y: i32, span: Span)
    ensures
        binary_value(w, BinOp::Add, Value::I32(x), Value::I32(y), span) matches Flow::Done(
            Value::I32(z),
        ) && wraps_to_32(z as int, x + y),
        binary_value(w, BinOp::Sub, Value::I32(x), Value::I32(y), span) matches Flow::Done(
            Value::I32(z),
        ) && wraps_to_32(z as int, x - y),
        binary_value(w, BinOp::Mul, Value::I32(x), Value::I32(y), span) matches Flow::Done(
            Value::I32(z),
        ) && wraps_to_32(z as int, x * y),
{
    let a = x.wrapping_add(y);
    let s = x.wrapping_sub(y);
    let p = x.wrapping_mul(y);
    assert(wraps_to_32(a as int, x + y)) by {
        let k: int = if x + y > i32::MAX {
            -1
        } else if x + y < i32::MIN {
            1
        } else {
            0
        };
        assert(a == turned_32(x + y, k));
    }
    assert(wraps_to_32(s as int, x - y)) by {
        let k: int = if x - y > i32::MAX {
            -1
        } else if x - y < i32::MIN {
            1
        } else {
            0
        };
        assert(s == turned_32(x - y, k));
    }
    assert(wraps_to_32(p as int, x * y)) by {
        let k = lemma_crop_32(x * y);
        assert(p == turned_32(x * y, k) || p == turned_32(x * y, -k));
    }
}

/// The quotient and the remainder are those of a division that rounds towards zero.
pub open spec fn divides(x: int, y: int, q: int, r: int) -> bool {
    &&& x == q * y + r
    &&& -(if y < 0 {
        -y
    } else {
        y
    }) < r < (if y < 0 {
        -y
    } else {
        y
    })
    &&& x > 0 ==> r >= 0
    &&& x < 0 ==> r <= 0
    &&& x == 0 ==> r == 0
}

/// A division by zero ends with that error, and so does its remainder; the least integer is
/// not divided by -1; and every other quotient and its remainder are those of a division
/// that rounds towards zero.
pub proof fn law_divisions_round_towards_zero_64(w: FloatWorld, x: i64, y: i64, span: Span)
    ensures
        ({
            let q = binary_value(w, BinOp::Div, Value::I64(x), Value::I64(y), span);
            let r = binary_value(w, BinOp::Rem, Value::I64(x), Value::I64(y), span);
            if y == 0 {
                q == Flow::<Value>::Fail(KindV::DivByZero, span) && r == q
            } else if x == -0x8000_0000_0000_0000 && y == -1 {
                q == Flow::<Value>::Fail(KindV::IdivOverflow, span) && r == q
            } else {
                &&& q matches Flow::Done(Value::I64(a)) && (r matches Flow::Done(Value::I64(b))
                    && divides(x as int, y as int, a as int, b as int))
            }
        }),
{
    if y != 0 && !(x == i64::MIN && y == -1) {
        lemma_divides(x as int, y as int);
        let n = if x < 0 {
            -x
        } else {
            x as int
        };
        let m = if y < 0 {
            -y
        } else {
            y as int
        };
        lemma_small(n, m);
        assert(x * -1 == -x && y * -1 == -y);
        assert(divides(
            x as int,
            y as int,
            x.checked_div(y)->0 as int,
            x.checked_rem(y)->0 as int,
        ));
    }
}

/// The same for 32-bit integers.
pub proof fn law_divisions_round_towards_zero_32(w: FloatWorld, x: i32, y: i32, span: Span)
    ensures
        ({
            let q = binary_value(w, BinOp::Div, Value::I32(x), Value::I32(y), span);
            let r = binary_value(w, BinOp::Rem, Value::I32(x), Value::I32(y), span);
            if y == 0 {
                q == Flow::<Value>::Fail(KindV::DivByZero, span) && r == q
            } else if x == -0x8000_0000 && y == -1 {
                q == Flow::<Value>::Fail(KindV::IdivOverflow, span) && r == q
            } else {
                &&& q matches Flow::Done(Value::I32(a)) && (r matches Flow::Done(Value::I32(b))
                    && divides(x as int, y as int, a as int, b as int))
            }
        }),
{
    if y != 0 && !(x == i32::MIN && y == -1) {
        lemma_divides(x as int, y as int);
        let n = if x < 0 {
            -x
        } else {
            x as int
        };
        let m = if y < 0 {
            -y
        } else {
            y as int
        };
        lemma_small(n, m);
        assert(x * -1 == -x && y * -1 == -y);
        assert(divides(
            x as int,
            y as int,
            x.checked_div(y)->0 as int,
            x.checked_rem(y)->0 as int,
        ));
    }
}

/// Quotients are no larger than what is divided.
proof fn lemma_small(n: int, m: int)
    requires
        n >= 0,
        m >= 1,
    ensures
        0 <= n / m <= n,
        m >= 2 ==> 2 * (n / m) <= n,
        0 <= n % m <= n,
{
    vstd::arithmetic::div_mod::lemma_fundamental_div_mod(n, m);
    assert(0 <= n / m && 0 <= n % m) by (nonlinear_arith)
        requires
            n >= 0,
            m >= 1,
    ;
    assert(n / m <= m * (n / m) && (m >= 2 ==> 2 * (n / m) <= m * (n / m))) by (nonlinear_arith)
        requires
            0 <= n / m,
            m >= 1,
    ;
}

/// Quotients and remainders by the signs of the numbers.
proof fn lemma_divides(x: int, y: int)
    requires
        y != 0,
    ensures
        x >= 0 ==> divides(x, y, x / y, x % y),
        x < 0 ==> divides(x, y, -((-x) / y), -((-x) % y)),
        x < 0 ==> divides(x, y, (-x) / (-y), -((-x) % (-y))),
        x < 0 ==> divides(x, y, (-x) / (-y), -((-x) % y)),
        x >= 0 ==> divides(x, y, -(x / (-y)), x % (-y)),
        x >= 0 ==> divides(x, y, -(x / (-y)), x % y),
{
    let m = -y;
    let n = -x;
    vstd::arithmetic::div_mod::lemma_fundamental_div_mod(x, y);
    vstd::arithmetic::div_mod::lemma_fundamental_div_mod(n, y);
    vstd::arithmetic::div_mod::lemma_fundamental_div_mod(x, m);
    vstd::arithmetic::div_mod::lemma_fundamental_div_mod(n, m);
    assert(0 <= x % y && 0 <= n % y && 0 <= x % m && 0 <= n % m) by (nonlinear_arith)
        requires
            y != 0,
            m != 0,
    ;
    assert((y > 0 ==> x % y < y && n % y < y) && (y < 0 ==> x % y < -y && n % y < -y))
        by (nonlinear_arith)
        requires
            y != 0,
    ;
    assert((m > 0 ==> x % m < m && n % m < m) && (m < 0 ==> x % m < -m && n % m < -m))
        by (nonlinear_arith)
        requires
            m != 0,
    ;
    assert(y * (x / y) == (x / y) * y) by (nonlinear_arith);
    assert(y * (n / y) == (n / y) * y && (-(n / y)) * y == -((n / y) * y)) by (nonlinear_arith);
    assert(m * (x / m) == (x / m) * m && (x / m) * m == -((x / m) * y) && (-(x / m)) * y == -((x
        / m) * y)) by (nonlinear_arith)
        requires
            m == -y,
    ;
    assert(m * (n / m) == (n / m) * m && (n / m) * m == -((n / m) * y)) by (nonlinear_arith)
        requires
            m == -y,
    ;
    assert(x % y == x % m && n % y == n % m && x / m == -(x / y) && n / m == -(n / y))
        by (nonlinear_arith)
        requires
            m == -y,
            y != 0,
            x == y * (x / y) + x % y,
            x == m * (x / m) + x % m,
            n == y * (n / y) + n % y,
            n == m * (n / m) + n % m,
            0 <= x % y,
            0 <= x % m,
            0 <= n % y,
            0 <= n % m,
            y > 0 ==> x % y < y && n % y < y && x % m < y && n % m < y,
            y < 0 ==> x % y < -y && n % y < -y && x % m < -y && n % m < -y,
    ;
}

/// Integers are compared by their order.
pub proof fn law_comparisons_follow_the_order(w: FloatWorld, x: i64, y: i64, a: i32, b: i32, span: Span)
    ensures
        binary_value(w, BinOp::Lt, Value::I64(x), Value::I64(y), span) == Flow::Done(
            Value::Bool(x < y),
        ),
        binary_value(w, BinOp::Gt, Value::I64(x), Value::I64(y), span) == binary_value(
            w,
            BinOp::Lt,
            Value::I64(y),
            Value::I64(x),
            span,
        ),
        binary_value(w, BinOp::Le, Value::I64(x), Value::I64(y), span) == Flow::Done(
            Value::Bool(!(y < x)),
        ),
        binary_value(w, BinOp::Ge, Value::I64(x), Value::I64(y), span) == Flow::Done(
            Value::Bool(!(x < y)),
        ),
        binary_value(w, BinOp::Eq, Value::I64(x), Value::I64(y), span) == Flow::Done(
            Value::Bool(!(x < y) && !(y < x)),
        ),
        binary_value(w, BinOp::Ne, Value::I64(x), Value::I64(y), span) == Flow::Done(
            Value::Bool(x < y || y < x),
        ),
        binary_value(w, BinOp::Lt, Value::I32(a), Value::I32(b), span) == Flow::Done(
            Value::Bool(a < b),
        ),
        binary_value(w, BinOp::Gt, Value::I32(a), Value::I32(b), span) == binary_value(
            w,
            BinOp::Lt,
            Value::I32(b),
            Value::I32(a),
            span,
        ),
        binary_value(w, BinOp::Le, Value::I32(a), Value::I32(b), span) == Flow::Done(
            Value::Bool(!(b < a)),
        ),
        binary_value(w, BinOp::Ge, Value::I32(a), Value::I32(b), span) == Flow::Done(
            Value::Bool(!(a < b)),
        ),
        binary_value(w, BinOp::Eq, Value::I32(a), Value::I32(b), span) == Flow::Done(
            Value::Bool(!(a < b) && !(b < a)),
        ),
        binary_value(w, BinOp::Ne, Value::I32(a), Value::I32(b), span) == Flow::Done(
            Value::Bool(a < b || b < a),
        ),
{
}

/// The least and the greatest of two integers are one of the two, and no greater and no less
/// than either.
pub proof fn law_extremes_are_extreme(w: FloatWorld, x: i64, y: i64, a: i32, b: i32)
    ensures
        minmax_value(w, true, Value::I64(x), Value::I64(y)) matches Flow::Done(Value::I64(z)) && (z
            == x || z == y) && z <= x && z <= y,
        minmax_value(w, false, Value::I64(x), Value::I64(y)) matches Flow::Done(Value::I64(z)) && (
        z == x || z == y) && z >= x && z >= y,
        minmax_value(w, true, Value::I32(a), Value::I32(b)) matches Flow::Done(Value::I32(z)) && (z
            == a || z == b) && z <= a && z <= b,
        minmax_value(w, false, Value::I32(a), Value::I32(b)) matches Flow::Done(Value::I32(z)) && (
        z == a || z == b) && z >= a && z >= b,
{
}

/// An integer and its negation make zero, up to multiples of the range; and the magnitude of
/// an integer that has a negation is not negative and is one of the two.
pub proof fn law_negations_and_magnitudes(w: FloatWorld, x: i64, a: i32)
    ensures
        unary_value(w, UnOp::Neg, Value::I64(x)) matches Flow::Done(Value::I64(z)) && wraps_to(
            x + z,
            0,
        ) && (x > i64::MIN ==> z == -x),
        unary_value(w, UnOp::Neg, Value::I32(a)) matches Flow::Done(Value::I32(z)) && wraps_to_32(
            a + z,
            0,
        ) && (a > i32::MIN ==> z == -a),
        abs_value(w, Value::I64(x)) matches Flow::Done(Value::I64(z)) && (x > i64::MIN ==> z >= 0
            && (z == x || z == -x)) && (x == i64::MIN ==> z == x),
        abs_value(w, Value::I32(a)) matches Flow::Done(Value::I32(z)) && (a > i32::MIN ==> z >= 0
            && (z == a || z == -a)) && (a == i32::MIN ==> z == a),
        unary_value(w, UnOp::Not, Value::Bool(true)) == Flow::Done(Value::Bool(false)),
        unary_value(w, UnOp::Not, Value::Bool(false)) == Flow::Done(Value::Bool(true)),
{
    let z = 0i64.wrapping_sub(x);
    let c = 0i32.wrapping_sub(a);
    assert(x + z == turned(0, 0) || x + z == turned(0, -1));
    assert(a + c == turned_32(0, 0) || a + c == turned_32(0, -1));
}

/// An integer that is converted to 64 bits stays the number that it is; one that is
/// converted to 32 bits does so up to multiples of 2^32, and exactly where it fits. What is
/// converted to its own type stays as it is.
pub proof fn law_integers_keep_their_number(w: FloatWorld, x: i64, a: i32)
    ensures
        cast_value(w, Value::I32(a), Ty::I64) == Value::I64(a as i64),
        cast_value(w, Value::I64(x), Ty::I32) matches Value::I32(z) && wraps_to_32(
            z as int,
            x as int,
        ) && (i32::MIN <= x <= i32::MAX ==> z == x),
        cast_value(w, Value::I64(x), Ty::I64) == Value::I64(x),
        cast_value(w, Value::I32(a), Ty::I32) == Value::I32(a),
{
    let z = x as i32;
    let k = (z - x) / 0x1_0000_0000;
    assert(((x as i32) as i64 - x) as int % 0x1_0000_0000 == 0) by {
        lemma_low_half(x);
    }
    assert(z == turned_32(x as int, k));
}

/// The low half of a 64-bit integer differs from it by a multiple of 2^32.
proof fn lemma_low_half(x: i64)
    ensures
        ((x as i32) - x) % 0x1_0000_0000 == 0,
{
    let u = x as u64;
    let z = x as i32;
    assert(z as u32 == (x as u64 % 0x1_0000_0000) as u32) by (bit_vector)
        requires
            z == x as i32,
    ;
    assert(u == x || u == x + 0x1_0000_0000_0000_0000) by (bit_vector)
        requires
            u == x as u64,
    ;
    assert(z as u32 == z || z as u32 == z + 0x1_0000_0000) by (bit_vector);
}

} // verus!
