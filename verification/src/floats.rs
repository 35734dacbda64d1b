//! Floating-point work that is done outside: arithmetic and printing on bit patterns.
//!
//! A computation takes the operations as functions. All that is asked of them is that
//! they are functions: the same operands give the same result.
use vstd::prelude::*;

verus! {

/// An operation on floating-point numbers. Numbers are bit patterns; those of single
/// precision take the low half. Comparisons give 1 or 0.
#[derive(Clone, Copy, Debug, PartialEq, Eq, Structural)]
pub enum FloatOp {
    Add,
    Sub,
    Mul,
    Div,
    Lt,
    Gt,
    Le,
    Ge,
    Eq,
    Ne,
    Neg,
    Abs,
    Sqrt,
    /// The lesser of two numbers, neither of which is a NaN.
    Min,
    /// The greater of two numbers, neither of which is a NaN.
    Max,
    /// From a signed 64-bit integer.
    FromInt,
    /// To a signed 32-bit integer, saturating; a NaN gives 0.
    ToI32,
    /// To a signed 64-bit integer, saturating; a NaN gives 0.
    ToI64,
    /// From the other precision.
    FromOther,
}

/// What an operation gives, at single or double precision.
pub type FloatModel = spec_fn(FloatOp, Precision, u64, u64) -> u64;

/// How a number is printed.
pub type PrintModel = spec_fn(Precision, u64) -> Seq<char>;

/// The precision of an operation, of its result where it converts.
#[derive(Clone, Copy, Debug, PartialEq, Eq, Structural)]
pub enum Precision {
    Single,
    Double,
}

/// `f` gives what `g` says.
pub open spec fn computes<F: Fn(FloatOp, Precision, u64, u64) -> u64>(f: F, g: FloatModel) -> bool {
    &&& forall|op: FloatOp, p: Precision, a: u64, b: u64| #[trigger] f.requires((op, p, a, b))
    &&& forall|op: FloatOp, p: Precision, a: u64, b: u64, r: u64| #[trigger]
        f.ensures((op, p, a, b), r) ==> r == g(op, p, a, b)
}

/// `f` prints what `g` says.
pub open spec fn prints<P: Fn(Precision, u64) -> String>(f: P, g: PrintModel) -> bool {
    &&& forall|p: Precision, a: u64| #[trigger] f.requires((p, a))
    &&& forall|p: Precision, a: u64, r: String| #[trigger]
        f.ensures((p, a), r) ==> r@ == g(p, a)
}

/// What is done outside.
#[derive(Debug)]
pub struct Floats<F, P> {
    pub ops: F,
    pub fmt: P,
}

/// What is done outside, as mathematical functions.
pub struct FloatWorld {
    pub ops: FloatModel,
    pub fmt: PrintModel,
}

impl<F: Fn(FloatOp, Precision, u64, u64) -> u64, P: Fn(Precision, u64) -> String> Floats<F, P> {
    /// The functions behave like these.
    pub open spec fn is(self, w: FloatWorld) -> bool {
        computes(self.ops, w.ops) && prints(self.fmt, w.fmt)
    }

    /// The functions are functions.
    pub open spec fn functional(self) -> bool {
        exists|w: FloatWorld| #[trigger] self.is(w)
    }

    /// What the functions are.
    pub open spec fn world(self) -> FloatWorld {
        choose|w: FloatWorld| #[trigger] self.is(w)
    }

    /// Applies an operation.
    pub fn op(&self, op: FloatOp, p: Precision, a: u64, b: u64) -> (r: u64)
        requires
            self.functional(),
        ensures
            r == (self.world().ops)(op, p, a, b),
    {
        (self.ops)(op, p, a, b)
    }

    /// Prints a number.
    pub fn print(&self, p: Precision, bits: u64) -> (r: String)
        requires
            self.functional(),
        ensures
            r@ == (self.world().fmt)(p, bits),
    {
        (self.fmt)(p, bits)
    }
}

/// The bits are those of a NaN.
pub open spec fn nan(p: Precision, bits: u64) -> bool {
    match p {
        Precision::Single => bits & 0x7fff_ffff > 0x7f80_0000,
        Precision::Double => bits & 0x7fff_ffff_ffff_ffff > 0x7ff0_0000_0000_0000,
    }
}

/// Whether the bits are those of a NaN.
pub fn is_nan(p: Precision, bits: u64) -> (r: bool)
    ensures
        r == nan(p, bits),
{
    match p {
        Precision::Single => bits & 0x7fff_ffff > 0x7f80_0000,
        Precision::Double => bits & 0x7fff_ffff_ffff_ffff > 0x7ff0_0000_0000_0000,
    }
}

/// One bit pattern for all NaNs; other numbers keep theirs.
pub open spec fn canonical(p: Precision, bits: u64) -> u64 {
    if nan(p, bits) {
        match p {
            Precision::Single => 0x7fc0_0000,
            Precision::Double => 0x7ff8_0000_0000_0000,
        }
    } else {
        bits
    }
}

/// One bit pattern for all NaNs; other numbers keep theirs.
pub fn canonical_bits(p: Precision, bits: u64) -> (r: u64)
    ensures
        r == canonical(p, bits),
{
    if is_nan(p, bits) {
        match p {
            Precision::Single => 0x7fc0_0000,
            Precision::Double => 0x7ff8_0000_0000_0000,
        }
    } else {
        bits
    }
}

} // verus!
