//! Partial results of reductions.
//!
//! Every participant folds the values of its own part of a loop; the partial results are
//! combined afterwards, in the order of the parts. For integers this gives what a single
//! walk over the whole loop gives, whatever the parts are.
use vstd::arithmetic::div_mod::{lemma_fundamental_div_mod, lemma_mod_multiples_vanish};
use vstd::arithmetic::mul::{
    lemma_mul_is_associative, lemma_mul_is_commutative, lemma_mul_is_distributive_add,
};
use vstd::prelude::*;
use vstd::wrapping::{i32_specs, i64_specs};

use crate::dispatch::{
    cell_word, combined_i32, combined_i64, first_acc, neutral, total, Combine, CombineTy,
};
use crate::floats::FloatModel;
use crate::reduce::ReductionOp;

verus! {

/// The values folded from the left, from a value on.
pub open spec fn fold<A>(f: spec_fn(A, A) -> A, start: A, xs: Seq<A>) -> A
    decreases xs.len(),
{
    if xs.len() == 0 {
        start
    } else {
        f(fold(f, start, xs.drop_last()), xs.last())
    }
}

/// All parts, one after the other.
pub open spec fn whole<A>(parts: Seq<Seq<A>>) -> Seq<A>
    decreases parts.len(),
{
    if parts.len() == 0 {
        seq![]
    } else {
        whole(parts.drop_last()) + parts.last()
    }
}

/// The partial results combined in order. The first part starts from `start`, every
/// other part from `rest`.
pub open spec fn joined<A>(f: spec_fn(A, A) -> A, start: A, rest: A, parts: Seq<Seq<A>>) -> A
    decreases parts.len(),
{
    if parts.len() == 0 {
        start
    } else if parts.len() == 1 {
        fold(f, start, parts[0])
    } else {
        f(joined(f, start, rest, parts.drop_last()), fold(f, rest, parts.last()))
    }
}

/// Three values can be grouped either way.
spec fn groups<A>(f: spec_fn(A, A) -> A, a: A, b: A, c: A) -> bool {
    f(f(a, b), c) == f(a, f(b, c))
}

/// The function is associative.
spec fn associative<A>(f: spec_fn(A, A) -> A) -> bool {
    forall|a: A, b: A, c: A| #[trigger] groups(f, a, b, c)
}

/// Folding two lists after another is folding the second from the result of the first.
proof fn lemma_fold_twice<A>(f: spec_fn(A, A) -> A, start: A, xs: Seq<A>, ys: Seq<A>)
    ensures
        fold(f, start, xs + ys) == fold(f, fold(f, start, xs), ys),
    decreases ys.len(),
{
    if ys.len() == 0 {
        assert(xs + ys =~= xs);
    } else {
        lemma_fold_twice(f, start, xs, ys.drop_last());
        assert((xs + ys).drop_last() =~= xs + ys.drop_last());
    }
}

/// A fold from a value that leaves `total` as it is can be combined with it afterwards.
proof fn lemma_fold_later<A>(f: spec_fn(A, A) -> A, total: A, rest: A, ys: Seq<A>)
    requires
        associative(f),
        f(total, rest) == total,
    ensures
        f(total, fold(f, rest, ys)) == fold(f, total, ys),
    decreases ys.len(),
{
    if ys.len() > 0 {
        lemma_fold_later(f, total, rest, ys.drop_last());
        let g = fold(f, rest, ys.drop_last());
        assert(groups(f, total, g, ys.last()));
    }
}

/// The partial results give what the whole gives, where `rest` leaves every fold from
/// `start` as it is.
proof fn lemma_joined<A>(f: spec_fn(A, A) -> A, start: A, rest: A, parts: Seq<Seq<A>>)
    requires
        associative(f),
        forall|xs: Seq<A>| f(#[trigger] fold(f, start, xs), rest) == fold(f, start, xs),
    ensures
        joined(f, start, rest, parts) == fold(f, start, whole(parts)),
    decreases parts.len(),
{
    if parts.len() == 1 {
        assert(whole(parts.drop_last()) =~= seq![]);
        assert(whole(parts) =~= parts[0]);
    } else if parts.len() > 1 {
        lemma_joined(f, start, rest, parts.drop_last());
        let before = whole(parts.drop_last());
        lemma_fold_twice(f, start, before, parts.last());
        lemma_fold_later(f, fold(f, start, before), rest, parts.last());
    }
}

// ---------------------------------------------------------------------------
// 64-bit integers
// ---------------------------------------------------------------------------

/// A wrapped product differs from the product by a multiple of the range.
pub proof fn lemma_crop_64(x: int) -> (k: int)
    ensures
        i64_specs::signed_crop(x) == x + 0x1_0000_0000_0000_0000 * k,
{
    let m = 0x1_0000_0000_0000_0000int;
    lemma_fundamental_div_mod(x, m);
    if x % m > i64::MAX {
        -(x / m) - 1
    } else {
        -(x / m)
    }
}

/// Numbers that differ by a multiple of the range wrap to the same number.
proof fn lemma_same_crop_64(x: int, k: int)
    ensures
        i64_specs::signed_crop(x + 0x1_0000_0000_0000_0000 * k) == i64_specs::signed_crop(x),
{
    lemma_mod_multiples_vanish(k, x, 0x1_0000_0000_0000_0000);
}

/// Wrapping products can be taken in any grouping.
pub proof fn lemma_mul_groups_64(a: i64, b: i64, c: i64)
    ensures
        a.wrapping_mul(b).wrapping_mul(c) == a.wrapping_mul(b.wrapping_mul(c)),
{
    let m = 0x1_0000_0000_0000_0000int;
    let k = lemma_crop_64(a * b);
    let l = lemma_crop_64(b * c);
    let ab = a.wrapping_mul(b);
    let bc = b.wrapping_mul(c);
    assert(ab * c == a * b * c + m * (k * c)) by {
        lemma_mul_is_commutative(ab as int, c as int);
        lemma_mul_is_distributive_add(c as int, a * b, m * k);
        lemma_mul_is_commutative(c as int, a * b);
        lemma_mul_is_commutative(c as int, m * k);
        lemma_mul_is_associative(m, k, c as int);
    }
    assert(a * bc == a * b * c + m * (a * l)) by {
        lemma_mul_is_distributive_add(a as int, b * c, m * l);
        lemma_mul_is_associative(a as int, b as int, c as int);
        lemma_mul_is_associative(a as int, m, l);
        lemma_mul_is_commutative(a as int, m);
        lemma_mul_is_associative(m, a as int, l);
    }
    lemma_same_crop_64(a * b * c, k * c);
    lemma_same_crop_64(a * b * c, a * l);
}

/// How 64-bit integers are combined.
pub open spec fn by_i64(op: ReductionOp) -> spec_fn(i64, i64) -> i64 {
    |a: i64, b: i64| combined_i64(op, a, b)
}

/// The value that a total of 64-bit integers is left as it is by.
pub open spec fn rest_i64(op: ReductionOp, start: i64) -> i64 {
    neutral(Combine::Of(op, CombineTy::I64), start as u64) as i64
}

/// A fold for the least or the greatest is not beyond its start.
proof fn lemma_bounded_64(op: ReductionOp, start: i64, xs: Seq<i64>)
    ensures
        op == ReductionOp::Min ==> fold(by_i64(op), start, xs) <= start,
        op == ReductionOp::Max ==> fold(by_i64(op), start, xs) >= start,
    decreases xs.len(),
{
    if xs.len() > 0 {
        lemma_bounded_64(op, start, xs.drop_last());
    }
}

/// Whatever the parts of a loop are, the partial results of 64-bit integers combine to
/// what one walk over all of it gives, bit by bit.
pub proof fn law_partial_results_combine_i64(op: ReductionOp, start: i64, parts: Seq<Seq<i64>>)
    ensures
        joined(by_i64(op), start, rest_i64(op, start), parts) == fold(
            by_i64(op),
            start,
            whole(parts),
        ),
{
    let f = by_i64(op);
    assert(start as u64 as i64 == start) by (bit_vector);
    assert forall|a: i64, b: i64, c: i64| #[trigger] groups(f, a, b, c) by {
        if op == ReductionOp::Mul {
            lemma_mul_groups_64(a, b, c);
        }
    }
    assert forall|xs: Seq<i64>|
        f(#[trigger] fold(f, start, xs), rest_i64(op, start)) == fold(f, start, xs) by {
        lemma_bounded_64(op, start, xs);
        if op == ReductionOp::Mul {
            let t = fold(f, start, xs);
            let k = lemma_crop_64(t * 1);
        }
    }
    lemma_joined(f, start, rest_i64(op, start), parts);
}

// ---------------------------------------------------------------------------
// 32-bit integers
// ---------------------------------------------------------------------------

/// A wrapped product differs from the product by a multiple of the range.
pub proof fn lemma_crop_32(x: int) -> (k: int)
    ensures
        i32_specs::signed_crop(x) == x + 0x1_0000_0000 * k,
{
    let m = 0x1_0000_0000int;
    lemma_fundamental_div_mod(x, m);
    if x % m > i32::MAX {
        -(x / m) - 1
    } else {
        -(x / m)
    }
}

/// Numbers that differ by a multiple of the range wrap to the same number.
proof fn lemma_same_crop_32(x: int, k: int)
    ensures
        i32_specs::signed_crop(x + 0x1_0000_0000 * k) == i32_specs::signed_crop(x),
{
    lemma_mod_multiples_vanish(k, x, 0x1_0000_0000);
}

/// Wrapping products can be taken in any grouping.
pub proof fn lemma_mul_groups_32(a: i32, b: i32, c: i32)
    ensures
        a.wrapping_mul(b).wrapping_mul(c) == a.wrapping_mul(b.wrapping_mul(c)),
{
    let m = 0x1_0000_0000int;
    let k = lemma_crop_32(a * b);
    let l = lemma_crop_32(b * c);
    let ab = a.wrapping_mul(b);
    let bc = b.wrapping_mul(c);
    assert(ab * c == a * b * c + m * (k * c)) by {
        lemma_mul_is_commutative(ab as int, c as int);
        lemma_mul_is_distributive_add(c as int, a * b, m * k);
        lemma_mul_is_commutative(c as int, a * b);
        lemma_mul_is_commutative(c as int, m * k);
        lemma_mul_is_associative(m, k, c as int);
    }
    assert(a * bc == a * b * c + m * (a * l)) by {
        lemma_mul_is_distributive_add(a as int, b * c, m * l);
        lemma_mul_is_associative(a as int, b as int, c as int);
        lemma_mul_is_associative(a as int, m, l);
        lemma_mul_is_commutative(a as int, m);
        lemma_mul_is_associative(m, a as int, l);
    }
    lemma_same_crop_32(a * b * c, k * c);
    lemma_same_crop_32(a * b * c, a * l);
}

/// How 32-bit integers are combined.
pub open spec fn by_i32(op: ReductionOp) -> spec_fn(i32, i32) -> i32 {
    |a: i32, b: i32| combined_i32(op, a, b)
}

/// The value that a total of 32-bit integers is left as it is by.
pub open spec fn rest_i32(op: ReductionOp, start: i32) -> i32 {
    neutral(Combine::Of(op, CombineTy::I32), start as u32 as u64) as i32
}

/// A fold for the least or the greatest is not beyond its start.
proof fn lemma_bounded_32(op: ReductionOp, start: i32, xs: Seq<i32>)
    ensures
        op == ReductionOp::Min ==> fold(by_i32(op), start, xs) <= start,
        op == ReductionOp::Max ==> fold(by_i32(op), start, xs) >= start,
    decreases xs.len(),
{
    if xs.len() > 0 {
        lemma_bounded_32(op, start, xs.drop_last());
    }
}

/// Whatever the parts of a loop are, the partial results of 32-bit integers combine to
/// what one walk over all of it gives, bit by bit.
pub proof fn law_partial_results_combine_i32(op: ReductionOp, start: i32, parts: Seq<Seq<i32>>)
    ensures
        joined(by_i32(op), start, rest_i32(op, start), parts) == fold(
            by_i32(op),
            start,
            whole(parts),
        ),
{
    let f = by_i32(op);
    assert(start as u32 as u64 as i32 == start) by (bit_vector);
    assert forall|a: i32, b: i32, c: i32| #[trigger] groups(f, a, b, c) by {
        if op == ReductionOp::Mul {
            lemma_mul_groups_32(a, b, c);
        }
    }
    assert forall|xs: Seq<i32>|
        f(#[trigger] fold(f, start, xs), rest_i32(op, start)) == fold(f, start, xs) by {
        lemma_bounded_32(op, start, xs);
        if op == ReductionOp::Mul {
            let t = fold(f, start, xs);
            let k = lemma_crop_32(t * 1);
        }
    }
    lemma_joined(f, start, rest_i32(op, start), parts);
}

/// The accumulators of the first cells hold the folds of the parts, each from what its
/// cell starts from.
pub open spec fn cells_hold_i64(
    mem: Seq<u64>,
    ctx_words: int,
    op: ReductionOp,
    seed: u64,
    parts: Seq<Seq<i64>>,
) -> bool {
    forall|p: int|
        0 <= p < parts.len() ==> (#[trigger] mem[cell_word(ctx_words, p, 1)]) as i64 == fold(
            by_i64(op),
            first_acc(Combine::Of(op, CombineTy::I64), seed, p) as i64,
            parts[p],
        )
}

/// The first `n` cells combined are the first `n` partial results combined.
proof fn lemma_total_64(
    g: FloatModel,
    mem: Seq<u64>,
    ctx_words: int,
    op: ReductionOp,
    seed: u64,
    parts: Seq<Seq<i64>>,
    n: nat,
)
    requires
        1 <= n <= parts.len(),
        cells_hold_i64(mem, ctx_words, op, seed, parts),
    ensures
        total(Combine::Of(op, CombineTy::I64), g, mem, ctx_words, n) as i64 == joined(
            by_i64(op),
            seed as i64,
            rest_i64(op, seed as i64),
            parts.take(n as int),
        ),
    decreases n,
{
    assert((seed as i64) as u64 == seed) by (bit_vector);
    assert(cell_word(ctx_words, 0, 1) == ctx_words + 1);
    assert(mem[cell_word(ctx_words, n - 1, 1)] as i64 == fold(
        by_i64(op),
        first_acc(Combine::Of(op, CombineTy::I64), seed, n - 1) as i64,
        parts[n - 1],
    ));
    if n > 1 {
        lemma_total_64(g, mem, ctx_words, op, seed, parts, (n - 1) as nat);
        assert(parts.take(n as int).drop_last() =~= parts.take(n - 1));
        let a = total(Combine::Of(op, CombineTy::I64), g, mem, ctx_words, (n - 1) as nat);
        let x = combined_i64(op, a as i64, mem[cell_word(ctx_words, n - 1, 1)] as i64);
        assert((x as u64) as i64 == x) by (bit_vector);
    }
}

/// Where the cells of a reduction of 64-bit integers hold the folds of their parts,
/// gathering them gives what one walk over the whole loop gives.
pub proof fn law_gathered_cells_give_the_whole_i64(
    g: FloatModel,
    mem: Seq<u64>,
    ctx_words: int,
    op: ReductionOp,
    seed: u64,
    parts: Seq<Seq<i64>>,
)
    requires
        parts.len() >= 1,
        cells_hold_i64(mem, ctx_words, op, seed, parts),
    ensures
        total(Combine::Of(op, CombineTy::I64), g, mem, ctx_words, parts.len()) as i64 == fold(
            by_i64(op),
            seed as i64,
            whole(parts),
        ),
{
    lemma_total_64(g, mem, ctx_words, op, seed, parts, parts.len());
    assert(parts.take(parts.len() as int) =~= parts);
    law_partial_results_combine_i64(op, seed as i64, parts);
}

/// The accumulators of the first cells hold the folds of the parts, each from what its
/// cell starts from.
pub open spec fn cells_hold_i32(
    mem: Seq<u64>,
    ctx_words: int,
    op: ReductionOp,
    seed: u64,
    parts: Seq<Seq<i32>>,
) -> bool {
    forall|p: int|
        0 <= p < parts.len() ==> (#[trigger] mem[cell_word(ctx_words, p, 1)]) as i32 == fold(
            by_i32(op),
            first_acc(Combine::Of(op, CombineTy::I32), seed, p) as i32,
            parts[p],
        )
}

/// The first `n` cells combined are the first `n` partial results combined.
proof fn lemma_total_32(
    g: FloatModel,
    mem: Seq<u64>,
    ctx_words: int,
    op: ReductionOp,
    seed: u64,
    parts: Seq<Seq<i32>>,
    n: nat,
)
    requires
        1 <= n <= parts.len(),
        cells_hold_i32(mem, ctx_words, op, seed, parts),
    ensures
        total(Combine::Of(op, CombineTy::I32), g, mem, ctx_words, n) as i32 == joined(
            by_i32(op),
            seed as i32,
            rest_i32(op, seed as i32),
            parts.take(n as int),
        ),
    decreases n,
{
    assert(((seed as i32) as u32 as u64) as i32 == seed as i32) by (bit_vector);
    assert(cell_word(ctx_words, 0, 1) == ctx_words + 1);
    assert(mem[cell_word(ctx_words, n - 1, 1)] as i32 == fold(
        by_i32(op),
        first_acc(Combine::Of(op, CombineTy::I32), seed, n - 1) as i32,
        parts[n - 1],
    ));
    if n > 1 {
        lemma_total_32(g, mem, ctx_words, op, seed, parts, (n - 1) as nat);
        assert(parts.take(n as int).drop_last() =~= parts.take(n - 1));
        let a = total(Combine::Of(op, CombineTy::I32), g, mem, ctx_words, (n - 1) as nat);
        let x = combined_i32(op, a as i32, mem[cell_word(ctx_words, n - 1, 1)] as i32);
        assert(((x as u32) as u64) as i32 == x) by (bit_vector);
    }
}

/// Where the cells of a reduction of 32-bit integers hold the folds of their parts,
/// gathering them gives what one walk over the whole loop gives.
pub proof fn law_gathered_cells_give_the_whole_i32(
    g: FloatModel,
    mem: Seq<u64>,
    ctx_words: int,
    op: ReductionOp,
    seed: u64,
    parts: Seq<Seq<i32>>,
)
    requires
        parts.len() >= 1,
        cells_hold_i32(mem, ctx_words, op, seed, parts),
    ensures
        total(Combine::Of(op, CombineTy::I32), g, mem, ctx_words, parts.len()) as i32 == fold(
            by_i32(op),
            seed as i32,
            whole(parts),
        ),
{
    lemma_total_32(g, mem, ctx_words, op, seed, parts, parts.len());
    assert(parts.take(parts.len() as int) =~= parts);
    law_partial_results_combine_i32(op, seed as i32, parts);
}

} // verus!
