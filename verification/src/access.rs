//! Affine subscript extraction: recovers `a*i + b` from the values that feed the
//! index of each load and store of a loop.
use std::collections::HashMap;

use vstd::prelude::*;

use crate::deps::Affine;
use crate::ir::{BinOp, BlockId, FuncIr, Inst, LocalId, ValueId};
use crate::loops::{has_member, Loop};
use crate::partials::lemma_crop_64;

verus! {

broadcast use vstd::std_specs::hash::group_hash_axioms;

/// Operand chains longer than this are not followed.
pub const MAX_CHAIN: u32 = 32;

/// What is known of one memory access inside a loop.
#[derive(Debug)]
pub struct Access {
    /// The array local that is accessed.
    pub arr: LocalId,
    pub is_write: bool,
    /// Number of the instruction, counted over the blocks of the loop.
    pub site: u32,
    /// Affine form of the index with respect to the loop, where there is one.
    pub affine: Option<Affine>,
    /// The loop loads the index, or a part of it, or gets it from a call.
    pub gathered: bool,
    /// Text of the index expression; empty while the printer has none to offer.
    pub raw_index: String,
}

/// The affine form with these coefficients, where they fit.
pub open spec fn affine_of(a: int, b: int) -> Option<Affine> {
    if i128::MIN <= a <= i128::MAX && i128::MIN <= b <= i128::MAX {
        Some(Affine { a: a as i128, b: b as i128 })
    } else {
        None
    }
}

/// The affine form of `x op y`. Sums and differences of affine forms are affine, and
/// so is a product with a factor that does not vary.
pub open spec fn combined(op: BinOp, l: Option<Affine>, r: Option<Affine>) -> Option<Affine> {
    match (l, r) {
        (Some(x), Some(y)) => match op {
            BinOp::Add => affine_of(x.a + y.a, x.b + y.b),
            BinOp::Sub => affine_of(x.a - y.a, x.b - y.b),
            BinOp::Mul => if x.a == 0 {
                affine_of(x.b * y.a, x.b * y.b)
            } else if y.a == 0 {
                affine_of(x.a * y.b, x.b * y.b)
            } else {
                None
            },
            _ => None,
        },
        _ => None,
    }
}

/// The affine form of a constant.
pub open spec fn constant_form(c: Option<i64>) -> Option<Affine> {
    match c {
        Some(x) => Some(Affine { a: 0, b: x as i128 }),
        None => None,
    }
}

/// The affine form of `v` in a loop over `blocks` with induction value `iv`, and what
/// is remembered afterwards.
///
/// Each value is worked out once and remembered. Values defined outside the loop are
/// affine only where they are constants; a chain of more than [`MAX_CHAIN`] operands
/// is given up.
pub open spec fn affine_form(
    func: FuncIr,
    blocks: Seq<BlockId>,
    iv: ValueId,
    v: ValueId,
    memo: Map<u32, Option<Affine>>,
    depth: nat,
) -> (Option<Affine>, Map<u32, Option<Affine>>)
    decreases MAX_CHAIN + 1 - depth,
{
    if depth > MAX_CHAIN {
        (None, memo)
    } else if memo.dom().contains(v.0) {
        (memo[v.0], memo)
    } else if v == iv {
        let unit = Some(Affine { a: 1, b: 0 });
        (unit, memo.insert(v.0, unit))
    } else {
        let (result, after) = if !blocks.contains(func.home(v)) {
            (constant_form(func.literal(v)), memo)
        } else {
            match func.def_inst(v) {
                Some(Inst::Const { c, .. }) => (constant_form(c.int_value()), memo),
                Some(Inst::Bin { op, a, b, .. }) => {
                    let (l, m1) = affine_form(func, blocks, iv, a, memo, depth + 1);
                    let (r, m2) = affine_form(func, blocks, iv, b, m1, depth + 1);
                    (combined(op, l, r), m2)
                },
                _ => (None, memo),
            }
        };
        (result, after.insert(v.0, result))
    }
}

/// The affine form of the index `v`.
pub open spec fn index_form(
    func: FuncIr,
    blocks: Seq<BlockId>,
    iv: ValueId,
    v: ValueId,
) -> Option<Affine> {
    affine_form(func, blocks, iv, v, Map::empty(), 0).0
}

/// The affine form with these coefficients, where they fit.
fn make_affine(a: Option<i128>, b: Option<i128>) -> (r: Option<Affine>)
    ensures
        r == (match (a, b) {
            (Some(x), Some(y)) => Some(Affine { a: x, b: y }),
            _ => None,
        }),
{
    match (a, b) {
        (Some(x), Some(y)) => Some(Affine { a: x, b: y }),
        _ => None,
    }
}

/// The affine form of `x op y`.
fn combine(op: BinOp, l: Option<Affine>, r: Option<Affine>) -> (f: Option<Affine>)
    ensures
        f == combined(op, l, r),
{
    match (l, r) {
        (Some(x), Some(y)) => match op {
            BinOp::Add => make_affine(x.a.checked_add(y.a), x.b.checked_add(y.b)),
            BinOp::Sub => make_affine(x.a.checked_sub(y.a), x.b.checked_sub(y.b)),
            BinOp::Mul => if x.a == 0 {
                make_affine(x.b.checked_mul(y.a), x.b.checked_mul(y.b))
            } else if y.a == 0 {
                make_affine(x.a.checked_mul(y.b), x.b.checked_mul(y.b))
            } else {
                None
            },
            _ => None,
        },
        _ => None,
    }
}

/// Works out the affine form of `v`, remembering every value on the way.
fn classify_rec(
    func: &FuncIr,
    blocks: &Vec<BlockId>,
    iv: ValueId,
    v: ValueId,
    memo: &mut HashMap<u32, Option<Affine>>,
    depth: u32,
) -> (r: Option<Affine>)
    requires
        func.wf(),
        depth <= MAX_CHAIN + 1,
    ensures
        (r, final(memo)@) == affine_form(*func, blocks@, iv, v, old(memo)@, depth as nat),
    decreases MAX_CHAIN + 1 - depth,
{
    if depth > MAX_CHAIN {
        return None;
    }
    if let Some(hit) = memo.get(&v.0) {
        return *hit;
    }
    if v == iv {
        let unit = Some(Affine { a: 1, b: 0 });
        memo.insert(v.0, unit);
        return unit;
    }
    let outside = !has_member(blocks, func.def_block(v));
    let result: Option<Affine> = if outside {
        match func.const_of(v) {
            Some(c) => Some(Affine::const_val(c)),
            None => None,
        }
    } else {
        match func.inst_defining(v) {
            Some(Inst::Const { c, .. }) => match c.as_i64() {
                Some(x) => Some(Affine::const_val(x)),
                None => None,
            },
            Some(Inst::Bin { op, a, b, .. }) => {
                let l = classify_rec(func, blocks, iv, *a, memo, depth + 1);
                let r = classify_rec(func, blocks, iv, *b, memo, depth + 1);
                combine(*op, l, r)
            },
            _ => None,
        }
    };
    memo.insert(v.0, result);
    result
}

/// Expresses the value `v` as `a*iv + b` within the loop, where `iv_name` is the
/// induction value in the header; and the text of the index, which is empty.
pub fn classify(func: &FuncIr, loop_: &Loop, iv_name: ValueId, v: ValueId) -> (r: (
    Option<Affine>,
    String,
))
    requires
        func.wf(),
    ensures
        r.0 == index_form(*func, loop_.blocks@, iv_name, v),
        r.1@ == Seq::<char>::empty(),
{
    let mut memo: HashMap<u32, Option<Affine>> = HashMap::new();
    let form = classify_rec(func, &loop_.blocks, iv_name, v, &mut memo, 0);
    (form, String::new())
}

/// Operand chains longer than this are not searched for loads.
pub const MAX_GATHER: u32 = 12;

/// A load or a call of the loop goes into the value, through fewer than `d` definitions.
pub open spec fn gathers(func: FuncIr, blocks: Seq<BlockId>, v: ValueId, d: nat) -> bool
    decreases d,
{
    if d == 0 || !blocks.contains(func.home(v)) {
        false
    } else {
        match func.def_inst(v) {
            Some(Inst::Load(_)) => true,
            Some(Inst::Call(_)) => true,
            Some(Inst::Bin { a, b, .. }) => gathers(func, blocks, a, (d - 1) as nat) || gathers(
                func,
                blocks,
                b,
                (d - 1) as nat,
            ),
            Some(Inst::Unary { a, .. }) => gathers(func, blocks, a, (d - 1) as nat),
            Some(Inst::Cast { val, .. }) => gathers(func, blocks, val, (d - 1) as nat),
            _ => false,
        }
    }
}

/// Whether a load or a call of the loop goes into the value.
fn does_gather(func: &FuncIr, blocks: &Vec<BlockId>, v: ValueId, d: u32) -> (r: bool)
    requires
        func.wf(),
    ensures
        r == gathers(*func, blocks@, v, d as nat),
    decreases d,
{
    if d == 0 || !has_member(blocks, func.def_block(v)) {
        return false;
    }
    match func.inst_defining(v) {
        Some(Inst::Load(_)) => true,
        Some(Inst::Call(_)) => true,
        Some(Inst::Bin { a, b, .. }) => does_gather(func, blocks, *a, d - 1) || does_gather(
            func,
            blocks,
            *b,
            d - 1,
        ),
        Some(Inst::Unary { a, .. }) => does_gather(func, blocks, *a, d - 1),
        Some(Inst::Cast { val, .. }) => does_gather(func, blocks, *val, d - 1),
        _ => false,
    }
}

/// The array and the index of a load or store, and whether it writes.
pub open spec fn touches(inst: Inst) -> Option<(LocalId, ValueId, bool)> {
    match inst {
        Inst::Load(l) => Some((l.arr, l.idx, false)),
        Inst::Store { arr, idx, .. } => Some((arr, idx, true)),
        _ => None,
    }
}

/// One access as mathematical values.
pub struct Touch {
    pub arr: LocalId,
    pub is_write: bool,
    pub site: int,
    pub affine: Option<Affine>,
    pub gathered: bool,
}

impl View for Access {
    type V = Touch;

    open spec fn view(&self) -> Touch {
        Touch {
            arr: self.arr,
            is_write: self.is_write,
            site: self.site as int,
            affine: self.affine,
            gathered: self.gathered,
        }
    }
}

/// The accesses among the first `k` instructions of a block whose first instruction
/// has number `base`.
pub open spec fn block_touches(
    func: FuncIr,
    blocks: Seq<BlockId>,
    iv: ValueId,
    insts: Seq<Inst>,
    base: int,
    k: nat,
) -> Seq<Touch>
    decreases k,
{
    if k == 0 {
        seq![]
    } else {
        let before = block_touches(func, blocks, iv, insts, base, (k - 1) as nat);
        match touches(insts[k - 1]) {
            Some((arr, idx, is_write)) => before.push(
                Touch {
                    arr,
                    is_write,
                    site: base + k - 1,
                    affine: index_form(func, blocks, iv, idx),
                    gathered: gathers(func, blocks, idx, MAX_GATHER as nat),
                },
            ),
            None => before,
        }
    }
}

/// How many instructions the first `n` blocks of the list hold.
pub open spec fn inst_count(func: FuncIr, blocks: Seq<BlockId>, n: nat) -> nat
    decreases n,
{
    if n == 0 {
        0
    } else {
        inst_count(func, blocks, (n - 1) as nat) + func.at(blocks[n - 1]).insts@.len()
    }
}

/// The accesses of the first `n` blocks of the list, in program order.
pub open spec fn loop_touches(func: FuncIr, blocks: Seq<BlockId>, iv: ValueId, n: nat) -> Seq<
    Touch,
>
    decreases n,
{
    if n == 0 {
        seq![]
    } else {
        let insts = func.at(blocks[n - 1]).insts@;
        loop_touches(func, blocks, iv, (n - 1) as nat) + block_touches(
            func,
            blocks,
            iv,
            insts,
            inst_count(func, blocks, (n - 1) as nat) as int,
            insts.len(),
        )
    }
}

/// The accesses of a loop, in program order.
pub open spec fn accesses_of(func: FuncIr, blocks: Seq<BlockId>, iv: ValueId) -> Seq<Touch> {
    loop_touches(func, blocks, iv, blocks.len())
}

/// Views of accesses.
pub open spec fn touch_views(s: Seq<Access>) -> Seq<Touch> {
    s.map_values(|a: Access| a@)
}

/// The number of instructions only grows along the list.
proof fn lemma_inst_count(func: FuncIr, blocks: Seq<BlockId>, m: nat, n: nat)
    requires
        m <= n,
    ensures
        inst_count(func, blocks, m) <= inst_count(func, blocks, n),
    decreases n,
{
    if m < n {
        lemma_inst_count(func, blocks, m, (n - 1) as nat);
    }
}

/// Collects every load and store of the loop in program order, with the affine form
/// of its index.
pub fn collect(func: &FuncIr, lp: &Loop, iv: ValueId) -> (r: Vec<Access>)
    requires
        func.wf(),
        forall|i: int| 0 <= i < lp.blocks@.len() ==> func.has_block(#[trigger] lp.blocks@[i]),
        inst_count(*func, lp.blocks@, lp.blocks@.len()) <= u32::MAX,
    ensures
        touch_views(r@) == accesses_of(*func, lp.blocks@, iv),
        forall|i: int| 0 <= i < r@.len() ==> (#[trigger] r@[i]).raw_index@ == Seq::<char>::empty(),
{
    let mut out: Vec<Access> = Vec::new();
    let mut n: usize = 0;
    let mut site: u32 = 0;
    while n < lp.blocks.len()
        invariant
            func.wf(),
            n <= lp.blocks@.len(),
            forall|i: int|
                0 <= i < lp.blocks@.len() ==> func.has_block(#[trigger] lp.blocks@[i]),
            inst_count(*func, lp.blocks@, lp.blocks@.len()) <= u32::MAX,
            site == inst_count(*func, lp.blocks@, n as nat),
            touch_views(out@) == loop_touches(*func, lp.blocks@, iv, n as nat),
            forall|i: int|
                0 <= i < out@.len() ==> (#[trigger] out@[i]).raw_index@ == Seq::<char>::empty(),
        decreases lp.blocks@.len() - n,
    {
        let insts = &func.block(lp.blocks[n]).insts;
        let ghost base = site as int;
        let ghost start = loop_touches(*func, lp.blocks@, iv, n as nat);
        proof {
            lemma_inst_count(*func, lp.blocks@, (n + 1) as nat, lp.blocks@.len());
        }
        let mut k: usize = 0;
        while k < insts.len()
            invariant
                func.wf(),
                n < lp.blocks@.len(),
                insts@ == func.at(lp.blocks@[n as int]).insts@,
                k <= insts@.len(),
                site == base + k,
                base + insts@.len() <= u32::MAX,
                touch_views(out@) == start + block_touches(
                    *func,
                    lp.blocks@,
                    iv,
                    insts@,
                    base,
                    k as nat,
                ),
                forall|i: int|
                    0 <= i < out@.len() ==> (#[trigger] out@[i]).raw_index@ == Seq::<
                        char,
                    >::empty(),
            decreases insts@.len() - k,
        {
            let hit: Option<(LocalId, ValueId, bool)> = match &insts[k] {
                Inst::Load(l) => Some((l.arr, l.idx, false)),
                Inst::Store { arr, idx, .. } => Some((*arr, *idx, true)),
                _ => None,
            };
            if let Some((arr, idx, is_write)) = hit {
                let (affine, raw_index) = classify(func, lp, iv, idx);
                let ghost before = out@;
                let gathered = does_gather(func, &lp.blocks, idx, MAX_GATHER);
                out.push(Access { arr, is_write, site, affine, gathered, raw_index });
                proof {
                    let added = out@[before.len() as int]@;
                    assert(touch_views(out@) =~= touch_views(before).push(added));
                    assert(start + block_touches(
                        *func,
                        lp.blocks@,
                        iv,
                        insts@,
                        base,
                        (k + 1) as nat,
                    ) =~= touch_views(before).push(added));
                }
            }
            k = k + 1;
            site = site + 1;
        }
        n = n + 1;
    }
    out
}

/// The numbers differ by a multiple of the range of 64-bit integers.
pub open spec fn wraps_to(x: int, y: int) -> bool {
    exists|k: int| x == #[trigger] turned(y, k)
}

/// A number after so many turns round the range of 64-bit integers.
pub open spec fn turned(y: int, k: int) -> int {
    y + 0x1_0000_0000_0000_0000 * k
}

/// Sums, differences and products wrap to those of the unwrapped numbers.
pub proof fn lemma_wraps(op: BinOp, a: i64, b: i64, x: int, y: int)
    requires
        wraps_to(a as int, x),
        wraps_to(b as int, y),
    ensures
        op is Add ==> wraps_to(a.wrapping_add(b) as int, x + y),
        op is Sub ==> wraps_to(a.wrapping_sub(b) as int, x - y),
        op is Mul ==> wraps_to(a.wrapping_mul(b) as int, x * y),
{
    let m = 0x1_0000_0000_0000_0000int;
    let j = choose|k: int| a == #[trigger] turned(x, k);
    let l = choose|k: int| b == #[trigger] turned(y, k);
    if op is Add {
        let c = a.wrapping_add(b);
        let k: int = if a + b > i64::MAX {
            -1
        } else if a + b < i64::MIN {
            1
        } else {
            0
        };
        assert(c == turned(x + y, j + l + k));
    } else if op is Sub {
        let c = a.wrapping_sub(b);
        let k: int = if a - b > i64::MAX {
            -1
        } else if a - b < i64::MIN {
            1
        } else {
            0
        };
        assert(c == turned(x - y, j - l + k));
    } else if op is Mul {
        let c = a.wrapping_mul(b);
        let k = lemma_crop_64(a * b);
        let u = m * j;
        let v = m * l;
        assert((x + u) * (y + v) == x * y + x * v + u * y + u * v) by (nonlinear_arith);
        assert(x * v == m * (x * l)) by (nonlinear_arith)
            requires
                v == m * l,
        ;
        assert(u * y == m * (j * y)) by (nonlinear_arith)
            requires
                u == m * j,
        ;
        assert(u * v == m * (m * (j * l))) by (nonlinear_arith)
            requires
                u == m * j,
                v == m * l,
        ;
        assert(c == turned(x * y, x * l + j * y + m * (j * l) + k));
    }
}

/// Values of the loop at one iteration: every constant, sum, difference and product of
/// 64-bit integers has the value that its definition gives it.
pub open spec fn valuation(func: FuncIr, env: spec_fn(u32) -> i64) -> bool {
    forall|v: ValueId|
        match #[trigger] func.def_inst(v) {
            Some(Inst::Const { c, .. }) => c.int_value() matches Some(x) ==> env(v.0) == x,
            Some(Inst::Bin { op, a, b, .. }) => match op {
                BinOp::Add => env(v.0) == env(a.0).wrapping_add(env(b.0)),
                BinOp::Sub => env(v.0) == env(a.0).wrapping_sub(env(b.0)),
                BinOp::Mul => env(v.0) == env(a.0).wrapping_mul(env(b.0)),
                _ => true,
            },
            _ => true,
        }
}

/// Everything remembered is right at iteration `i`.
spec fn memo_right(memo: Map<u32, Option<Affine>>, env: spec_fn(u32) -> i64, i: int) -> bool {
    forall|k: u32| #[trigger]
        memo.dom().contains(k) ==> (memo[k] matches Some(f) ==> wraps_to(env(k) as int, f.at(i)))
}

/// The form of a combination has the value of the combination.
pub proof fn lemma_combined(op: BinOp, l: Option<Affine>, r: Option<Affine>, x: int, y: int, i: int)
    requires
        l matches Some(f) ==> x == f.at(i),
        r matches Some(f) ==> y == f.at(i),
    ensures
        combined(op, l, r) matches Some(f) ==> match op {
            BinOp::Add => f.at(i) == x + y,
            BinOp::Sub => f.at(i) == x - y,
            BinOp::Mul => f.at(i) == x * y,
            _ => true,
        },
{
    if let (Some(p), Some(q)) = (l, r) {
        assert((p.a + q.a) * i == p.a * i + q.a * i) by (nonlinear_arith);
        assert((p.a - q.a) * i == p.a * i - q.a * i) by (nonlinear_arith);
        assert(p.a == 0 ==> (p.a * i + p.b) * (q.a * i + q.b) == (p.b * q.a) * i + p.b * q.b)
            by (nonlinear_arith);
        assert(q.a == 0 ==> (p.a * i + p.b) * (q.a * i + q.b) == (p.a * q.b) * i + p.b * q.b)
            by (nonlinear_arith);
    }
}

/// The recursion behind [`law_affine_form_is_right`].
proof fn lemma_affine_form(
    func: FuncIr,
    blocks: Seq<BlockId>,
    iv: ValueId,
    v: ValueId,
    memo: Map<u32, Option<Affine>>,
    depth: nat,
    env: spec_fn(u32) -> i64,
    i: int,
)
    requires
        valuation(func, env),
        env(iv.0) == i,
        memo_right(memo, env, i),
    ensures
        ({
            let (r, after) = affine_form(func, blocks, iv, v, memo, depth);
            &&& r matches Some(f) ==> wraps_to(env(v.0) as int, f.at(i))
            &&& memo_right(after, env, i)
        }),
    decreases MAX_CHAIN + 1 - depth,
{
    if depth <= MAX_CHAIN && !memo.dom().contains(v.0) {
        let x = env(v.0) as int;
        if v == iv {
            assert(1 * i == i);
            assert(x == turned((Affine { a: 1, b: 0 }).at(i), 0));
        } else {
            if let Some(f) = constant_form(func.literal(v)) {
                assert(0 * i == 0);
                assert(x == turned(f.at(i), 0));
            }
            if blocks.contains(func.home(v)) {
                match func.def_inst(v) {
                    Some(Inst::Bin { op, a, b, .. }) => {
                        let (l, m1) = affine_form(func, blocks, iv, a, memo, depth + 1);
                        let (r, m2) = affine_form(func, blocks, iv, b, m1, depth + 1);
                        lemma_affine_form(func, blocks, iv, a, memo, depth + 1, env, i);
                        lemma_affine_form(func, blocks, iv, b, m1, depth + 1, env, i);
                        if l is Some && r is Some {
                            let (y, z) = ((l->0).at(i), (r->0).at(i));
                            lemma_combined(op, l, r, y, z, i);
                            lemma_wraps(op, env(a.0), env(b.0), y, z);
                        }
                    },
                    _ => {},
                }
            }
        }
    }
}

/// The affine form that extraction finds is right: at every iteration `i` the index is
/// `a*i + b`, up to wrapping around; where `a*i + b` is a 64-bit integer, it is the index.
pub proof fn law_affine_form_is_right(
    func: FuncIr,
    blocks: Seq<BlockId>,
    iv: ValueId,
    v: ValueId,
    env: spec_fn(u32) -> i64,
    i: int,
)
    requires
        valuation(func, env),
        env(iv.0) == i,
    ensures
        index_form(func, blocks, iv, v) matches Some(f) ==> wraps_to(env(v.0) as int, f.at(i)) && (
        i64::MIN <= f.at(i) <= i64::MAX ==> env(v.0) == f.at(i)),
{
    lemma_affine_form(func, blocks, iv, v, Map::empty(), 0, env, i);
    if let Some(f) = index_form(func, blocks, iv, v) {
        let k = choose|k: int| env(v.0) == #[trigger] turned(f.at(i), k);
    }
}

} // verus!
