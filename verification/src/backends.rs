//! Where compiled programs and the interpreter have to say the same, and what is kept for
//! compiled code.
use vstd::prelude::*;

use crate::dispatch::{
    cell_word, combined_bits, combined_by, combined_i32, combined_i64, first_acc, Combine, CombineTy,
};
use crate::error::{KindV, RunError, Span};
use crate::floats::{FloatModel, FloatOp, FloatWorld, Precision};
use crate::host::{le_value, line_of, placed, pow256, rounded_bytes, Printed};
use crate::interp::{binary_value, minmax_value, Flow, RunOutput};
use crate::ir::BinOp;
use crate::jit::hook_at;
use crate::outline::RKind;
use crate::parallel::PlannedRegion;
use crate::reduce::ReductionOp;
use crate::search::{lemma_first_where_is, lemma_first_where_none};
use crate::selftest::{agree, hex_text};
use crate::text::texts;
use crate::traps::{trap_text, zeros_bytes};
use crate::value::{fnv, le_bytes, Value};

verus! {

/// A value is printed as the same line by compiled code and by the interpreter.
pub proof fn law_both_print_alike(w: FloatWorld, n: i64, k: i32, d: u64, s: u32, b: bool, c: i64)
    requires
        b <==> c != 0,
    ensures
        line_of(Printed::I64(n), w.fmt) == Value::I64(n).printed(w),
        line_of(Printed::I64(k as i64), w.fmt) == Value::I32(k).printed(w),
        line_of(Printed::F64(d), w.fmt) == Value::F64(d).printed(w),
        line_of(Printed::F32(s as u64), w.fmt) == Value::F32(s).printed(w),
        line_of(Printed::Bool(c), w.fmt) == Value::Bool(b).printed(w),
        Value::Bool(b).printed(w) == (if b {
            "true"@
        } else {
            "false"@
        }),
{
}

/// A runtime error has the same message in compiled code and in the interpreter.
pub proof fn law_both_fail_alike(idx: i64, len: usize, n: i64, rest: i64)
    requires
        len <= i64::MAX,
    ensures
        trap_text(0, n, rest) == KindV::DivByZero.text(),
        trap_text(1, n, rest) == KindV::IdivOverflow.text(),
        trap_text(2, idx, len as i64) == (KindV::Bounds { len, idx }).text(),
        trap_text(3, n, rest) == (KindV::NegativeZeros { n }).text(),
{
}

/// Accumulators are combined as the interpreter computes.
pub proof fn law_partial_results_are_combined_as_computed(
    w: FloatWorld,
    x: i64,
    y: i64,
    a: i32,
    b: i32,
    span: Span,
)
    ensures
        binary_value(w, BinOp::Add, Value::I64(x), Value::I64(y), span) == Flow::Done(
            Value::I64(combined_i64(ReductionOp::Add, x, y)),
        ),
        binary_value(w, BinOp::Mul, Value::I64(x), Value::I64(y), span) == Flow::Done(
            Value::I64(combined_i64(ReductionOp::Mul, x, y)),
        ),
        minmax_value(w, true, Value::I64(x), Value::I64(y)) == Flow::Done(
            Value::I64(combined_i64(ReductionOp::Min, x, y)),
        ),
        minmax_value(w, false, Value::I64(x), Value::I64(y)) == Flow::Done(
            Value::I64(combined_i64(ReductionOp::Max, x, y)),
        ),
        binary_value(w, BinOp::Add, Value::I32(a), Value::I32(b), span) == Flow::Done(
            Value::I32(combined_i32(ReductionOp::Add, a, b)),
        ),
        binary_value(w, BinOp::Mul, Value::I32(a), Value::I32(b), span) == Flow::Done(
            Value::I32(combined_i32(ReductionOp::Mul, a, b)),
        ),
        minmax_value(w, true, Value::I32(a), Value::I32(b)) == Flow::Done(
            Value::I32(combined_i32(ReductionOp::Min, a, b)),
        ),
        minmax_value(w, false, Value::I32(a), Value::I32(b)) == Flow::Done(
            Value::I32(combined_i32(ReductionOp::Max, a, b)),
        ),
{
}

/// A region without an accumulator combines nothing; one with an accumulator combines by its
/// own operator, at the width and in the kind of number of its accumulator.
pub proof fn law_regions_combine_by_their_operator(kind: RKind, g: FloatModel, a: u64, b: u64)
    ensures
        kind is DoAll ==> combined_bits(combined_by(kind), g, a, b) == a,
        kind matches RKind::Reduction(s) ==> {
            &&& s.width == 8 && !s.float ==> combined_bits(combined_by(kind), g, a, b) as i64
                == combined_i64(s.op, a as i64, b as i64)
            &&& s.width == 4 && !s.float ==> combined_bits(combined_by(kind), g, a, b) as i32
                == combined_i32(s.op, a as i32, b as i32)
            &&& s.width == 8 && s.float ==> combined_by(kind) == Combine::Of(s.op, CombineTy::F64)
            &&& s.width == 4 && s.float ==> combined_by(kind) == Combine::Of(s.op, CombineTy::F32)
        },
{
    match kind {
        RKind::Reduction(s) => {
            let z = combined_i64(s.op, a as i64, b as i64);
            assert((z as u64) as i64 == z) by (bit_vector);
            let y = combined_i32(s.op, a as i32, b as i32);
            assert(((y as u32) as u64) as i32 == y) by (bit_vector);
        },
        _ => {},
    }
}

/// The memory of an array holds all its elements, in whole words, with less than a word over.
pub proof fn law_arrays_get_whole_words(len: i64, elem_size: i64)
    requires
        len >= 1,
        elem_size >= 1,
        len * elem_size <= i64::MAX,
        len * elem_size <= usize::MAX - 7,
    ensures
        rounded_bytes(len as int, elem_size as int) % 8 == 0,
        len * elem_size <= rounded_bytes(len as int, elem_size as int) < len * elem_size + 8,
        zeros_bytes(len, elem_size) == len * elem_size,
{
    assert(len * elem_size >= 1) by (nonlinear_arith)
        requires
            len >= 1,
            elem_size >= 1,
    ;
}

/// What is placed in a list is found where it was placed; everything else stays, and what was
/// not there before is zero.
pub proof fn law_placed_values_are_found<T>(s: Seq<T>, i: int, zero: T, v: T, j: int)
    requires
        i >= 0,
    ensures
        placed(s, i, zero, v)[i] == v,
        placed(s, i, zero, v).len() == (if i < s.len() {
            s.len() as int
        } else {
            i + 1
        }),
        0 <= j < s.len() && j != i ==> placed(s, i, zero, v)[j] == s[j],
        s.len() <= j < i ==> placed(s, i, zero, v)[j] == zero,
{
}

/// Bytes that were written of a number give the number back, as far as they hold it.
pub proof fn law_bytes_give_the_number_back(v: u64, n: nat)
    ensures
        le_bytes(v, n).len() == n,
        le_value(le_bytes(v, n)) == v as nat % pow256(n),
        n == 8 ==> le_value(le_bytes(v, n)) == v,
        n == 4 && v <= u32::MAX ==> le_value(le_bytes(v, n)) == v,
    decreases n,
{
    lemma_pow256(n);
    if n > 0 {
        let rest = le_bytes(v / 256, (n - 1) as nat);
        law_bytes_give_the_number_back(v / 256, (n - 1) as nat);
        lemma_pow256((n - 1) as nat);
        assert(le_bytes(v, n).skip(1) =~= rest);
        let m = pow256((n - 1) as nat) as int;
        let q = (v / 256) as int;
        let low = (v % 256) as int;
        assert(pow256(n) == 256 * m);
        vstd::arithmetic::div_mod::lemma_fundamental_div_mod(q, m);
        let t = q / m;
        let r = q % m;
        assert(v == (256 * m) * t + (low + 256 * r)) by (nonlinear_arith)
            requires
                v == 256 * q + low,
                q == m * t + r,
        ;
        assert(0 <= low + 256 * r < 256 * m);
        vstd::arithmetic::div_mod::lemma_fundamental_div_mod_converse(
            v as int,
            256 * m,
            t,
            low + 256 * r,
        );
    } else {
        assert(v as nat % 1 == 0);
    }
    if n == 8 || (n == 4 && v <= u32::MAX) {
        reveal_with_fuel(pow256, 9);
        if n == 8 {
            assert(pow256(8) == 0x1_0000_0000_0000_0000);
        } else {
            assert(pow256(4) == 0x1_0000_0000);
        }
        vstd::arithmetic::div_mod::lemma_small_mod(v as nat, pow256(n));
    }
}

/// Powers are positive.
proof fn lemma_pow256(n: nat)
    ensures
        pow256(n) >= 1,
    decreases n,
{
    if n > 0 {
        lemma_pow256((n - 1) as nat);
    }
}

/// The digits of a checksum are hexadecimal ones; the last is that of the remainder by
/// sixteen, and those before it are the digits of the quotient.
pub proof fn law_checksums_are_hexadecimal(v: nat, k: nat)
    requires
        k >= 1,
    ensures
        hex_text(v, k).len() == k,
        hex_text(v, k).last() == "0123456789abcdef"@[(v % 16) as int],
        hex_text(v, k).drop_last() == hex_text(v / 16, (k - 1) as nat),
    decreases k,
{
    reveal_strlit("0123456789abcdef");
    if k > 1 {
        law_checksums_are_hexadecimal(v / 16, (k - 1) as nat);
    }
    assert(hex_text(v, k).drop_last() =~= hex_text(v / 16, (k - 1) as nat));
}

/// Both ways of running a program agree where both fail, or where both end and print the same
/// lines in the same order; and only there.
pub proof fn law_backends_agree_line_by_line(
    interp: Result<RunOutput, RunError>,
    printed: Seq<String>,
    jit_ok: bool,
)
    ensures
        interp is Err ==> (agree(interp, printed, jit_ok) <==> !jit_ok),
        interp matches Ok(out) ==> (agree(interp, printed, jit_ok) <==> jit_ok
            && out.printed@.len() == printed.len() && forall|i: int|
            0 <= i < printed.len() ==> #[trigger] out.printed@[i]@ == printed[i]@),
{
    match interp {
        Ok(out) => {
            let a = texts(out.printed@);
            let b = texts(printed);
            if jit_ok && a == b {
                assert(a.len() == out.printed@.len() && b.len() == printed.len());
                assert forall|i: int| 0 <= i < printed.len() implies #[trigger] out.printed@[i]@
                    == printed[i]@ by {
                    assert(a[i] == out.printed@[i]@);
                    assert(b[i] == printed[i]@);
                }
            }
            if out.printed@.len() == printed.len() && forall|i: int|
                0 <= i < printed.len() ==> #[trigger] out.printed@[i]@ == printed[i]@ {
                assert forall|i: int| 0 <= i < a.len() implies a[i] == b[i] by {
                    assert(out.printed@[i]@ == printed[i]@);
                }
                assert(a =~= b);
            }
        },
        Err(_) => {},
    }
}

/// A function hands over its first region, and nothing where it has none.
pub proof fn law_functions_hand_over_their_first_region(
    regions: Seq<PlannedRegion>,
    f: usize,
    k: int,
)
    ensures
        0 <= k < regions.len() && regions[k].func_idx == f && (forall|j: int|
            0 <= j < k ==> (#[trigger] regions[j]).func_idx != f) ==> {
            &&& hook_at(regions, f) is Some
            &&& hook_at(regions, f)->0.header == regions[k].header
            &&& hook_at(regions, f)->0.exit == regions[k].exit
            &&& hook_at(regions, f)->0.region_id == regions[k].region_id
            &&& hook_at(regions, f)->0.kind == regions[k].kind
            &&& hook_at(regions, f)->0.arrays == regions[k].layout.arrays@
            &&& hook_at(regions, f)->0.scalars == regions[k].layout.scalars@
            &&& hook_at(regions, f)->0.start_ssa == regions[k].start_ssa
            &&& hook_at(regions, f)->0.end_ssa == regions[k].end_ssa
            &&& regions[k].start_const is Some ==> hook_at(regions, f)->0.start_const
                == regions[k].start_const->0
            &&& regions[k].end_const is Some ==> hook_at(regions, f)->0.end_const
                == regions[k].end_const->0
            &&& hook_at(regions, f)->0.acc_dst == regions[k].acc_dst
        },
        (forall|j: int| 0 <= j < regions.len() ==> (#[trigger] regions[j]).func_idx != f)
            ==> hook_at(regions, f) is None,
{
    let p = crate::jit::of_func(f);
    if 0 <= k < regions.len() && regions[k].func_idx == f && (forall|j: int|
        0 <= j < k ==> (#[trigger] regions[j]).func_idx != f) {
        assert forall|j: int| 0 <= j < k implies !p(#[trigger] regions[j]) by {}
        assert(p(regions[k]));
        lemma_first_where_is(regions, p, k);
    }
    if forall|j: int| 0 <= j < regions.len() ==> (#[trigger] regions[j]).func_idx != f {
        assert forall|j: int| 0 <= j < regions.len() implies !p(#[trigger] regions[j]) by {}
        lemma_first_where_none(regions, p);
    }
}

/// Accumulators that are floating-point numbers are combined by the operation of the same
/// name, at their precision.
pub proof fn law_floats_are_combined_by_their_operation(g: FloatModel, a: u64, b: u64)
    ensures
        combined_bits(Combine::Of(ReductionOp::Add, CombineTy::F64), g, a, b) == g(
            FloatOp::Add,
            Precision::Double,
            a,
            b,
        ),
        combined_bits(Combine::Of(ReductionOp::Mul, CombineTy::F64), g, a, b) == g(
            FloatOp::Mul,
            Precision::Double,
            a,
            b,
        ),
        combined_bits(Combine::Of(ReductionOp::Min, CombineTy::F64), g, a, b) == g(
            FloatOp::Min,
            Precision::Double,
            a,
            b,
        ),
        combined_bits(Combine::Of(ReductionOp::Max, CombineTy::F64), g, a, b) == g(
            FloatOp::Max,
            Precision::Double,
            a,
            b,
        ),
        combined_bits(Combine::Of(ReductionOp::Add, CombineTy::F32), g, a, b) == g(
            FloatOp::Add,
            Precision::Single,
            a,
            b,
        ),
        combined_bits(Combine::Of(ReductionOp::Mul, CombineTy::F32), g, a, b) == g(
            FloatOp::Mul,
            Precision::Single,
            a,
            b,
        ),
        combined_bits(Combine::Of(ReductionOp::Min, CombineTy::F32), g, a, b) == g(
            FloatOp::Min,
            Precision::Single,
            a,
            b,
        ),
        combined_bits(Combine::Of(ReductionOp::Max, CombineTy::F32), g, a, b) == g(
            FloatOp::Max,
            Precision::Single,
            a,
            b,
        ),
{
}

/// The first accumulator begins with the seed. The others begin with what changes nothing: the
/// bits of negative zero for sums and of one for products of floating-point numbers, zero and
/// one for those of integers; and with the seed for extremes.
pub proof fn law_accumulators_begin_neutral(
    g: FloatModel,
    seed: u64,
    p: int,
    op: ReductionOp,
    t: CombineTy,
    a: u64,
)
    requires
        p >= 1,
    ensures
        first_acc(Combine::Of(op, t), seed, 0) == seed,
        op is Min || op is Max ==> first_acc(Combine::Of(op, t), seed, p) == seed,
        first_acc(Combine::Of(ReductionOp::Add, CombineTy::F64), seed, p)
            == 0x8000_0000_0000_0000,
        first_acc(Combine::Of(ReductionOp::Add, CombineTy::F32), seed, p) == 0x8000_0000,
        first_acc(Combine::Of(ReductionOp::Mul, CombineTy::F64), seed, p)
            == 0x3ff0_0000_0000_0000,
        first_acc(Combine::Of(ReductionOp::Mul, CombineTy::F32), seed, p) == 0x3f80_0000,
        (op is Add || op is Mul) && t is I64 ==> combined_i64(
            op,
            a as i64,
            first_acc(Combine::Of(op, t), seed, p) as i64,
        ) == a as i64,
        (op is Add || op is Mul) && t is I32 ==> combined_i32(
            op,
            a as i32,
            first_acc(Combine::Of(op, t), seed, p) as i32,
        ) == a as i32,
{
}

/// No word of a cell is a word of another one or of the context.
pub proof fn law_cells_do_not_overlap(ctx_words: int, p: int, k: int, q: int, j: int)
    requires
        p >= 0 && q >= 0,
        0 <= k < 16 && 0 <= j < 16,
    ensures
        cell_word(ctx_words, p, k) >= ctx_words,
        cell_word(ctx_words, p, k) == cell_word(ctx_words, q, j) ==> p == q && k == j,
{
}

/// A checksum takes the bytes one by one: each is mixed in, and the product with the prime is
/// kept at 64 bits.
pub proof fn law_checksums_take_bytes_one_by_one(h: u64, b: u8, bytes: Seq<u8>)
    ensures
        fnv(h, seq![]) == h,
        fnv(h, seq![b] + bytes) == fnv((h ^ (b as u64)).wrapping_mul(0x100_0000_01b3), bytes),
{
    assert((seq![b] + bytes).skip(1) =~= bytes);
}

} // verus!
