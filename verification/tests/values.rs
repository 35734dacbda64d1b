//! Values, and their arithmetic.

use helix::floats::{FloatOp, Floats, Precision};
use helix::ir::{ElemTy, Ty};
use helix::value::{ConstLit, Value, FNV_OFFSET};

/// Floating-point operations on bit patterns.
fn float_op(op: FloatOp, p: Precision, a: u64, b: u64) -> u64 {
    match p {
        Precision::Single => {
            let (x, y) = (f32::from_bits(a as u32), f32::from_bits(b as u32));
            let f = |v: f32| u64::from(v.to_bits());
            match op {
                FloatOp::Add => f(x + y),
                FloatOp::Sub => f(x - y),
                FloatOp::Mul => f(x * y),
                FloatOp::Div => f(x / y),
                FloatOp::Lt => u64::from(x < y),
                FloatOp::Gt => u64::from(x > y),
                FloatOp::Le => u64::from(x <= y),
                FloatOp::Ge => u64::from(x >= y),
                FloatOp::Eq => u64::from(x == y),
                FloatOp::Ne => u64::from(x != y),
                FloatOp::Neg => f(-x),
                FloatOp::Abs => f(x.abs()),
                FloatOp::Sqrt => f(x.sqrt()),
                FloatOp::Min => f(x.min(y)),
                FloatOp::Max => f(x.max(y)),
                FloatOp::FromInt => f((a as i64) as f32),
                FloatOp::ToI32 => (x as i32) as i64 as u64,
                FloatOp::ToI64 => (x as i64) as u64,
                FloatOp::FromOther => f(f64::from_bits(a) as f32),
            }
        }
        Precision::Double => {
            let (x, y) = (f64::from_bits(a), f64::from_bits(b));
            let f = |v: f64| v.to_bits();
            match op {
                FloatOp::Add => f(x + y),
                FloatOp::Sub => f(x - y),
                FloatOp::Mul => f(x * y),
                FloatOp::Div => f(x / y),
                FloatOp::Lt => u64::from(x < y),
                FloatOp::Gt => u64::from(x > y),
                FloatOp::Le => u64::from(x <= y),
                FloatOp::Ge => u64::from(x >= y),
                FloatOp::Eq => u64::from(x == y),
                FloatOp::Ne => u64::from(x != y),
                FloatOp::Neg => f(-x),
                FloatOp::Abs => f(x.abs()),
                FloatOp::Sqrt => f(x.sqrt()),
                FloatOp::Min => f(x.min(y)),
                FloatOp::Max => f(x.max(y)),
                FloatOp::FromInt => f((a as i64) as f64),
                FloatOp::ToI32 => (x as i32) as i64 as u64,
                FloatOp::ToI64 => (x as i64) as u64,
                FloatOp::FromOther => f(f64::from(f32::from_bits(a as u32))),
            }
        }
    }
}

/// How floating-point numbers are printed.
fn float_text(p: Precision, bits: u64) -> String {
    match p {
        Precision::Single => format!("{:?}", f32::from_bits(bits as u32)),
        Precision::Double => format!("{:?}", f64::from_bits(bits)),
    }
}

#[test]
fn zero_matches_element_type() {
    assert_eq!(Value::zero(ElemTy::I32), Value::I32(0));
    assert_eq!(Value::zero(ElemTy::I64), Value::I64(0));
    assert_eq!(Value::zero(ElemTy::F32), Value::F32(0.0f32.to_bits()));
    assert_eq!(Value::zero(ElemTy::F64), Value::F64(0.0f64.to_bits()));
    assert_eq!(Value::zero(ElemTy::Bool), Value::Bool(false));
}

#[test]
fn consts_respect_declared_width() {
    let fl = Floats { ops: float_op, fmt: float_text };
    assert_eq!(Value::from_const(&fl, &ConstLit::Int(7), Ty::I32), Value::I32(7));
    assert_eq!(Value::from_const(&fl, &ConstLit::Int(7), Ty::I64), Value::I64(7));
    assert_eq!(
        Value::from_const(&fl, &ConstLit::Float(0.5f64.to_bits()), Ty::F32),
        Value::F32(0.5f32.to_bits())
    );
    assert_eq!(
        Value::from_const(&fl, &ConstLit::Float(0.5f64.to_bits()), Ty::F64),
        Value::F64(0.5f64.to_bits())
    );
    assert_eq!(
        Value::from_const(&fl, &ConstLit::Bool(true), Ty::Bool),
        Value::Bool(true)
    );
}

#[test]
fn render_uses_canonical_formatter() {
    let fl = Floats { ops: float_op, fmt: float_text };
    let f64v = |x: f64| Value::F64(x.to_bits());
    let f32v = |x: f32| Value::F32(x.to_bits());
    assert_eq!(Value::I64(-12).render(&fl), "-12");
    // i32 prints widened, indistinguishable from i64 (spec: print any scalar).
    assert_eq!(Value::I32(-12).render(&fl), "-12");
    assert_eq!(Value::Bool(false).render(&fl), "false");
    assert_eq!(f64v(1.0).render(&fl), "1.0");
    // f32 must NOT be widened before formatting.
    assert_eq!(f32v(0.1).render(&fl), "0.1");
    assert_eq!(f64v(0.1).render(&fl), "0.1");
    assert_eq!(f64v(f64::NAN).render(&fl), "NaN");
    assert_eq!(f64v(f64::INFINITY).render(&fl), "inf");
    assert_eq!(f32v(f32::NEG_INFINITY).render(&fl), "-inf");
}

#[test]
fn widening_only_accepts_integers() {
    assert_eq!(Value::I32(-3).as_i64_widen(), Some(-3));
    assert_eq!(Value::I64(9).as_i64_widen(), Some(9));
    assert_eq!(Value::F64(1.0f64.to_bits()).as_i64_widen(), None);
    assert_eq!(Value::Bool(true).as_i64_widen(), None);
}

#[test]
fn scalars_enter_the_checksum_as_their_bytes() {
    let fnv = |bytes: &[u8]| {
        let mut h = FNV_OFFSET;
        for b in bytes {
            h ^= u64::from(*b);
            h = h.wrapping_mul(0x0000_0100_0000_01b3);
        }
        h
    };
    assert_eq!(Value::I64(-2).hash_scalar(FNV_OFFSET), fnv(&(-2i64).to_le_bytes()));
    assert_eq!(Value::I32(7).hash_scalar(FNV_OFFSET), fnv(&7i32.to_le_bytes()));
    assert_eq!(Value::Bool(true).hash_scalar(FNV_OFFSET), fnv(&[1]));
    let x = 2.5f64;
    assert_eq!(Value::F64(x.to_bits()).hash_scalar(FNV_OFFSET), fnv(&x.to_le_bytes()));
    // all NaNs count as one
    assert_eq!(
        Value::F64(f64::NAN.to_bits() | 1).hash_scalar(FNV_OFFSET),
        Value::F64(f64::NAN.to_bits()).hash_scalar(FNV_OFFSET)
    );
    // elements of an array, one after another
    let heap = vec![vec![Value::I64(1), Value::I64(2)]];
    let mut bytes = 1i64.to_le_bytes().to_vec();
    bytes.extend(2i64.to_le_bytes());
    assert_eq!(Value::Array(0).hash_bits_into(FNV_OFFSET, &heap), fnv(&bytes));
}
