//! Values of running programs.
//!
//! Arrays are handles into a heap: passing one passes the array itself, so that writes
//! of a callee are seen by its caller.
use vstd::prelude::*;

use crate::floats::{canonical, canonical_bits, FloatOp, FloatWorld, Floats, Precision};
use crate::ir::{ElemTy, Ty};
use crate::text::{integer_text, push_integer, push_text};

verus! {

/// Start of the checksum.
pub const FNV_OFFSET: u64 = 0xcbf2_9ce4_8422_2325;

/// Factor of the checksum.
pub const FNV_PRIME: u64 = 0x0000_0100_0000_01b3;

/// A value. Floating-point numbers are held as their bits.
#[derive(Clone, Copy, Debug, PartialEq, Eq, Structural)]
pub enum Value {
    Unit,
    I32(i32),
    I64(i64),
    F32(u32),
    F64(u64),
    Bool(bool),
    /// An array, by its place in the heap.
    Array(usize),
}

/// A constant of the source; a floating-point number is held as its double-precision
/// bits.
#[derive(Clone, Copy, Debug, PartialEq, Eq, Structural)]
pub enum ConstLit {
    Int(i64),
    Float(u64),
    Bool(bool),
}

/// One byte more in the checksum.
pub open spec fn fnv_step(h: u64, b: u8) -> u64 {
    (h ^ (b as u64)).wrapping_mul(FNV_PRIME)
}

/// The checksum after more bytes.
pub open spec fn fnv(h: u64, bytes: Seq<u8>) -> u64
    decreases bytes.len(),
{
    if bytes.len() == 0 {
        h
    } else {
        fnv(fnv_step(h, bytes[0]), bytes.skip(1))
    }
}

/// The `n` low bytes of a number, the least first.
pub open spec fn le_bytes(v: u64, n: nat) -> Seq<u8>
    decreases n,
{
    if n == 0 {
        seq![]
    } else {
        seq![(v % 256) as u8] + le_bytes(v / 256, (n - 1) as nat)
    }
}

/// Adds one byte to the checksum.
pub fn hash_byte(h: u64, b: u8) -> (r: u64)
    ensures
        r == fnv_step(h, b),
{
    (h ^ (b as u64)).wrapping_mul(FNV_PRIME)
}

/// Adds the `n` low bytes of a number to the checksum.
pub fn hash_le(h: u64, v: u64, n: usize) -> (r: u64)
    ensures
        r == fnv(h, le_bytes(v, n as nat)),
    decreases n,
{
    if n == 0 {
        return h;
    }
    let b: u8 = (v % 256) as u8;
    proof {
        let all = le_bytes(v, n as nat);
        assert(all[0] == b);
        assert(all.skip(1) =~= le_bytes(v / 256, (n - 1) as nat));
    }
    hash_le(hash_byte(h, b), v / 256, n - 1)
}

/// Adds a text to the checksum.
pub fn hash_text(h: u64, s: &str) -> (r: u64)
    ensures
        r == fnv(h, vstd::utf8::encode_utf8(s@)),
{
    let bytes = s.as_bytes();
    let ghost all = bytes@;
    let mut x: u64 = h;
    let mut i: usize = 0;
    assert(all.skip(0) =~= all);
    while i < bytes.len()
        invariant
            all == bytes@,
            i <= all.len(),
            fnv(h, all) == fnv(x, all.skip(i as int)),
        decreases all.len() - i,
    {
        proof {
            let rest = all.skip(i as int);
            assert(rest[0] == all[i as int]);
            assert(rest.skip(1) =~= all.skip(i + 1));
        }
        x = hash_byte(x, bytes[i]);
        i = i + 1;
    }
    assert(all.skip(i as int) =~= seq![]);
    x
}

impl Value {
    /// The zero that fills a new array.
    pub open spec fn zero_of(e: ElemTy) -> Value {
        match e {
            ElemTy::I32 => Value::I32(0),
            ElemTy::I64 => Value::I64(0),
            ElemTy::F32 => Value::F32(0),
            ElemTy::F64 => Value::F64(0),
            ElemTy::Bool => Value::Bool(false),
        }
    }

    /// The zero that fills a new array.
    pub fn zero(e: ElemTy) -> (r: Value)
        ensures
            r == Value::zero_of(e),
    {
        match e {
            ElemTy::I32 => Value::I32(0),
            ElemTy::I64 => Value::I64(0),
            ElemTy::F32 => Value::F32(0),
            ElemTy::F64 => Value::F64(0),
            ElemTy::Bool => Value::Bool(false),
        }
    }

    /// An integer literal at the width of its type.
    pub open spec fn int_of(v: i64, ty: Ty) -> Value {
        if ty == Ty::I32 {
            Value::I32(v as i32)
        } else {
            Value::I64(v)
        }
    }

    /// A floating-point literal at the precision of its type.
    pub open spec fn float_of(w: FloatWorld, bits: u64, ty: Ty) -> Value {
        if ty == Ty::F32 {
            Value::F32((w.ops)(FloatOp::FromOther, Precision::Single, bits, 0) as u32)
        } else {
            Value::F64(bits)
        }
    }

    /// The value of a constant of the type.
    pub open spec fn const_value(w: FloatWorld, lit: ConstLit, ty: Ty) -> Value {
        match lit {
            ConstLit::Int(v) => Value::int_of(v, ty),
            ConstLit::Float(b) => Value::float_of(w, b, ty),
            ConstLit::Bool(b) => Value::Bool(b),
        }
    }

    /// An integer literal at the width of its type.
    pub fn int_lit(v: i64, ty: Ty) -> (r: Value)
        ensures
            r == Value::int_of(v, ty),
    {
        if ty == Ty::I32 {
            Value::I32(v as i32)
        } else {
            Value::I64(v)
        }
    }

    /// A floating-point literal at the precision of its type.
    pub fn float_lit<
        F: Fn(FloatOp, Precision, u64, u64) -> u64,
        P: Fn(Precision, u64) -> String,
    >(floats: &Floats<F, P>, bits: u64, ty: Ty) -> (r: Value)
        requires
            floats.functional(),
        ensures
            r == Value::float_of(floats.world(), bits, ty),
    {
        if ty == Ty::F32 {
            Value::F32(floats.op(FloatOp::FromOther, Precision::Single, bits, 0) as u32)
        } else {
            Value::F64(bits)
        }
    }

    /// The value of a constant of the type.
    pub fn from_const<
        F: Fn(FloatOp, Precision, u64, u64) -> u64,
        P: Fn(Precision, u64) -> String,
    >(floats: &Floats<F, P>, lit: &ConstLit, ty: Ty) -> (r: Value)
        requires
            floats.functional(),
        ensures
            r == Value::const_value(floats.world(), *lit, ty),
    {
        match *lit {
            ConstLit::Int(v) => Value::int_lit(v, ty),
            ConstLit::Float(b) => Value::float_lit(floats, b, ty),
            ConstLit::Bool(b) => Value::Bool(b),
        }
    }

    /// The name of the type of the value.
    pub open spec fn type_text(self) -> Seq<char> {
        match self {
            Value::Unit => "()"@,
            Value::I32(_) => "i32"@,
            Value::I64(_) => "i64"@,
            Value::F32(_) => "f32"@,
            Value::F64(_) => "f64"@,
            Value::Bool(_) => "bool"@,
            Value::Array(_) => "[T]"@,
        }
    }

    /// The name of the type of the value.
    pub fn ty_name(&self) -> (r: &'static str)
        ensures
            r@ == self.type_text(),
    {
        match self {
            Value::Unit => "()",
            Value::I32(_) => "i32",
            Value::I64(_) => "i64",
            Value::F32(_) => "f32",
            Value::F64(_) => "f64",
            Value::Bool(_) => "bool",
            Value::Array(_) => "[T]",
        }
    }

    /// An integer at full width.
    pub open spec fn widened(self) -> Option<i64> {
        match self {
            Value::I32(v) => Some(v as i64),
            Value::I64(v) => Some(v),
            _ => None,
        }
    }

    /// An integer at full width; `None` for other values.
    pub fn as_i64_widen(&self) -> (r: Option<i64>)
        ensures
            r == self.widened(),
    {
        match *self {
            Value::I32(v) => Some(v as i64),
            Value::I64(v) => Some(v),
            _ => None,
        }
    }

    /// The value as it is printed.
    pub open spec fn printed(self, w: FloatWorld) -> Seq<char> {
        match self {
            Value::I32(v) => integer_text(v as int),
            Value::I64(v) => integer_text(v as int),
            Value::F32(b) => (w.fmt)(Precision::Single, b as u64),
            Value::F64(b) => (w.fmt)(Precision::Double, b),
            Value::Bool(b) => if b {
                "true"@
            } else {
                "false"@
            },
            v => "<internal: printing a "@ + v.type_text() + " value>"@,
        }
    }

    /// The value as it is printed.
    pub fn render<
        F: Fn(FloatOp, Precision, u64, u64) -> u64,
        P: Fn(Precision, u64) -> String,
    >(&self, floats: &Floats<F, P>) -> (r: String)
        requires
            floats.functional(),
        ensures
            r@ == self.printed(floats.world()),
    {
        match *self {
            Value::I32(v) => {
                let mut s = String::new();
                push_integer(&mut s, v as i128);
                assert(s@ =~= integer_text(v as int));
                s
            },
            Value::I64(v) => {
                let mut s = String::new();
                push_integer(&mut s, v as i128);
                assert(s@ =~= integer_text(v as int));
                s
            },
            Value::F32(b) => floats.print(Precision::Single, b as u64),
            Value::F64(b) => floats.print(Precision::Double, b),
            Value::Bool(b) => if b {
                "true".to_owned()
            } else {
                "false".to_owned()
            },
            _ => {
                let mut s = "<internal: printing a ".to_owned();
                push_text(&mut s, self.ty_name());
                push_text(&mut s, " value>");
                s
            },
        }
    }

    /// The bytes of a scalar in the checksum: the least byte first, and one pattern for
    /// all NaNs. Other values have none.
    pub open spec fn scalar_bytes(self) -> Seq<u8> {
        match self {
            Value::I32(v) => le_bytes((v as u32) as u64, 4),
            Value::I64(v) => le_bytes(v as u64, 8),
            Value::F32(b) => le_bytes(canonical(Precision::Single, b as u64), 4),
            Value::F64(b) => le_bytes(canonical(Precision::Double, b), 8),
            Value::Bool(b) => if b {
                seq![1u8]
            } else {
                seq![0u8]
            },
            _ => seq![],
        }
    }

    /// The checksum after a scalar.
    pub fn hash_scalar(&self, h: u64) -> (r: u64)
        ensures
            r == fnv(h, self.scalar_bytes()),
    {
        reveal_with_fuel(fnv, 2);
        match *self {
            Value::I32(v) => hash_le(h, (v as u32) as u64, 4),
            Value::I64(v) => hash_le(h, v as u64, 8),
            Value::F32(b) => hash_le(h, canonical_bits(Precision::Single, b as u64), 4),
            Value::F64(b) => hash_le(h, canonical_bits(Precision::Double, b), 8),
            Value::Bool(b) => hash_byte(
                h,
                if b {
                    1
                } else {
                    0
                },
            ),
            _ => h,
        }
    }
}

/// The checksum after the first `k` elements of an array.
pub open spec fn fnv_elements(h: u64, s: Seq<Value>, k: nat) -> u64
    decreases k,
{
    if k == 0 {
        h
    } else {
        fnv(fnv_elements(h, s, (k - 1) as nat), s[k - 1].scalar_bytes())
    }
}

/// The arrays of a running program.
pub open spec fn heap_view(heap: Seq<Vec<Value>>) -> Seq<Seq<Value>> {
    heap.map_values(|v: Vec<Value>| v@)
}

/// The checksum after a value: a scalar, or the elements of an array one by one.
pub open spec fn fnv_value(h: u64, v: Value, heap: Seq<Seq<Value>>) -> u64 {
    match v {
        Value::Array(a) => if a < heap.len() {
            fnv_elements(h, heap[a as int], heap[a as int].len())
        } else {
            h
        },
        v => fnv(h, v.scalar_bytes()),
    }
}

impl Value {
    /// The checksum after the value.
    pub fn hash_bits_into(&self, h: u64, heap: &Vec<Vec<Value>>) -> (r: u64)
        ensures
            r == fnv_value(h, *self, heap_view(heap@)),
    {
        match *self {
            Value::Array(a) => {
                if a >= heap.len() {
                    return h;
                }
                let s = &heap[a];
                let mut x: u64 = h;
                let mut k: usize = 0;
                while k < s.len()
                    invariant
                        k <= s@.len(),
                        x == fnv_elements(h, s@, k as nat),
                    decreases s@.len() - k,
                {
                    x = s[k].hash_scalar(x);
                    k = k + 1;
                }
                assert(heap_view(heap@)[a as int] == s@);
                x
            },
            _ => self.hash_scalar(h),
        }
    }
}

} // verus!
