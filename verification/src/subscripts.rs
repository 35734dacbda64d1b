//! Which accesses are listed, and which subscripts are read: all loads and stores of a loop,
//! in their order, and every subscript that is built from the induction value and constants.
use vstd::prelude::*;

use crate::access::{
    accesses_of, affine_form, block_touches, combined, index_form, inst_count, loop_touches, Touch,
};
use crate::deps::Affine;
use crate::ir::{BinOp, BlockId, FuncIr, Inst, LocalId, ValueId};

verus! {

/// The number is a 128-bit integer.
pub open spec fn wide(x: int) -> bool {
    i128::MIN <= x <= i128::MAX
}

/// What the operator makes of `p*i + q` and `r*i + s`, as factor and offset: one factor of a
/// product does not vary.
pub open spec fn made_of(op: BinOp, x: (int, int), y: (int, int)) -> Option<(int, int)> {
    match op {
        BinOp::Add => Some((x.0 + y.0, x.1 + y.1)),
        BinOp::Sub => Some((x.0 - y.0, x.1 - y.1)),
        BinOp::Mul => if x.0 == 0 {
            Some((x.1 * y.0, x.1 * y.1))
        } else if y.0 == 0 {
            Some((x.0 * y.1, x.1 * y.1))
        } else {
            None
        },
        _ => None,
    }
}

/// Factor and offset of a value that is built from the induction value and constants, through
/// at most `d` definitions in a row of the loop, as 128-bit integers.
pub open spec fn form_of(
    func: FuncIr,
    blocks: Seq<BlockId>,
    iv: ValueId,
    v: ValueId,
    d: nat,
) -> Option<(int, int)>
    decreases d,
{
    if v == iv {
        Some((1, 0))
    } else {
        match func.def_inst(v) {
            Some(Inst::Const { c, .. }) => match c.int_value() {
                Some(x) => Some((0, x as int)),
                None => None,
            },
            Some(Inst::Bin { op, a, b, .. }) => if d > 0 && blocks.contains(func.home(v)) {
                match (
                    form_of(func, blocks, iv, a, (d - 1) as nat),
                    form_of(func, blocks, iv, b, (d - 1) as nat),
                ) {
                    (Some(x), Some(y)) => match made_of(op, x, y) {
                        Some(z) => if wide(z.0) && wide(z.1) {
                            Some(z)
                        } else {
                            None
                        },
                        None => None,
                    },
                    _ => None,
                }
            } else {
                None
            },
            _ => None,
        }
    }
}

/// More definitions find the same.
proof fn lemma_deeper(
    func: FuncIr,
    blocks: Seq<BlockId>,
    iv: ValueId,
    v: ValueId,
    d: nat,
    e: nat,
)
    requires
        d <= e,
        form_of(func, blocks, iv, v, d) is Some,
    ensures
        form_of(func, blocks, iv, v, e) == form_of(func, blocks, iv, v, d),
        wide((form_of(func, blocks, iv, v, d)->0).0),
        wide((form_of(func, blocks, iv, v, d)->0).1),
    decreases d,
{
    if v != iv {
        if let Some(Inst::Bin { op, a, b, .. }) = func.def_inst(v) {
            lemma_deeper(func, blocks, iv, a, (d - 1) as nat, (e - 1) as nat);
            lemma_deeper(func, blocks, iv, b, (d - 1) as nat, (e - 1) as nat);
        }
    }
}

/// What is remembered of a value is its form.
spec fn remembered(
    func: FuncIr,
    blocks: Seq<BlockId>,
    iv: ValueId,
    k: u32,
    f: Option<Affine>,
) -> bool {
    f matches Some(g) && exists|d: nat| #[trigger]
        form_of(func, blocks, iv, ValueId(k), d) == Some((g.a as int, g.b as int))
}

/// Everything remembered is a form of its value.
spec fn memo_found(
    func: FuncIr,
    blocks: Seq<BlockId>,
    iv: ValueId,
    memo: Map<u32, Option<Affine>>,
) -> bool {
    forall|k: u32| #[trigger] memo.dom().contains(k) ==> remembered(func, blocks, iv, k, memo[k])
}

/// A form is found.
proof fn lemma_found(
    func: FuncIr,
    blocks: Seq<BlockId>,
    iv: ValueId,
    v: ValueId,
    d: nat,
    memo: Map<u32, Option<Affine>>,
    depth: nat,
)
    requires
        form_of(func, blocks, iv, v, d) is Some,
        depth + d <= 32,
        memo_found(func, blocks, iv, memo),
    ensures
        ({
            let (a, b) = form_of(func, blocks, iv, v, d)->0;
            affine_form(func, blocks, iv, v, memo, depth).0 == Some(
                Affine { a: a as i128, b: b as i128 },
            )
        }),
        memo_found(func, blocks, iv, affine_form(func, blocks, iv, v, memo, depth).1),
    decreases d,
{
    let (a, b) = form_of(func, blocks, iv, v, d)->0;
    let want = Some(Affine { a: a as i128, b: b as i128 });
    let (got, after) = affine_form(func, blocks, iv, v, memo, depth);
    assert(ValueId(v.0) == v);
    lemma_deeper(func, blocks, iv, v, d, d);
    assert(remembered(func, blocks, iv, v.0, want)) by {
        assert(form_of(func, blocks, iv, ValueId(v.0), d) == Some((a, b)));
    }
    if memo.dom().contains(v.0) {
        assert(remembered(func, blocks, iv, v.0, memo[v.0]));
        let g = memo[v.0]->0;
        let f = choose|f: nat| #[trigger]
            form_of(func, blocks, iv, ValueId(v.0), f) == Some((g.a as int, g.b as int));
        if f <= d {
            lemma_deeper(func, blocks, iv, v, f, d);
        } else {
            lemma_deeper(func, blocks, iv, v, d, f);
        }
    } else if v != iv {
        if let Some(Inst::Bin { op, a: x, b: y, .. }) = func.def_inst(v) {
            let e = (d - 1) as nat;
            lemma_deeper(func, blocks, iv, x, e, e);
            lemma_deeper(func, blocks, iv, y, e, e);
            lemma_found(func, blocks, iv, x, e, memo, depth + 1);
            let (l, m1) = affine_form(func, blocks, iv, x, memo, depth + 1);
            lemma_found(func, blocks, iv, y, e, m1, depth + 1);
            let (t, m2) = affine_form(func, blocks, iv, y, m1, depth + 1);
            assert(combined(op, l, t) == want);
            assert(after == m2.insert(v.0, want));
        } else {
            assert(after == memo.insert(v.0, want));
        }
    }
}

/// Every subscript that is built from the induction value and constants by sums, differences
/// and products with a constant, through at most 32 definitions in a row, is read as what it
/// is.
pub proof fn law_affine_subscripts_are_read(
    func: FuncIr,
    blocks: Seq<BlockId>,
    iv: ValueId,
    v: ValueId,
    a: i128,
    b: i128,
)
    requires
        form_of(func, blocks, iv, v, 32) == Some((a as int, b as int)),
    ensures
        index_form(func, blocks, iv, v) == Some(Affine { a, b }),
{
    lemma_found(func, blocks, iv, v, 32, Map::empty(), 0);
}

// ---------------------------------------------------------------------------
// Lists of accesses
// ---------------------------------------------------------------------------

/// The instruction loads from the array at the index, or stores there.
pub open spec fn accesses(inst: Inst, arr: LocalId, idx: ValueId, is_write: bool) -> bool {
    match inst {
        Inst::Load(l) => l.arr == arr && l.idx == idx && !is_write,
        Inst::Store { arr: a, idx: i, .. } => a == arr && i == idx && is_write,
        _ => false,
    }
}

/// The entry stands for the access of an instruction.
pub open spec fn stands_for(
    func: FuncIr,
    blocks: Seq<BlockId>,
    iv: ValueId,
    t: Touch,
    inst: Inst,
) -> bool {
    exists|idx: ValueId| #[trigger]
        accesses(inst, t.arr, idx, t.is_write) && t.affine == index_form(func, blocks, iv, idx)
}

/// The entries of a block are its loads and stores, numbered by their positions.
proof fn lemma_block_entries(
    func: FuncIr,
    blocks: Seq<BlockId>,
    iv: ValueId,
    insts: Seq<Inst>,
    base: int,
    k: nat,
)
    requires
        k <= insts.len(),
    ensures
        ({
            let s = block_touches(func, blocks, iv, insts, base, k);
            &&& forall|p: int|
                0 <= p < s.len() ==> base <= (#[trigger] s[p]).site < base + k && stands_for(
                    func,
                    blocks,
                    iv,
                    s[p],
                    insts[s[p].site - base],
                )
            &&& forall|p: int, q: int|
                0 <= p < q < s.len() ==> (#[trigger] s[p]).site < (#[trigger] s[q]).site
            &&& forall|j: int|
                0 <= j < k && (#[trigger] insts[j] is Load || insts[j] is Store) ==> exists|p: int|
                    0 <= p < s.len() && (#[trigger] s[p]).site == base + j
        }),
    decreases k,
{
    if k > 0 {
        lemma_block_entries(func, blocks, iv, insts, base, (k - 1) as nat);
        let before = block_touches(func, blocks, iv, insts, base, (k - 1) as nat);
        let s = block_touches(func, blocks, iv, insts, base, k);
        let i = insts[k - 1];
        let found = crate::access::touches(i);
        if let Some((arr, idx, is_write)) = found {
            assert(accesses(i, arr, idx, is_write));
            assert(s[before.len() as int].site == base + (k - 1));
        }
        assert forall|p: int| 0 <= p < s.len() implies base <= (#[trigger] s[p]).site < base + k
            && stands_for(func, blocks, iv, s[p], insts[s[p].site - base]) by {
            if p < before.len() {
                assert(s[p] == before[p]);
            } else {
                let (arr, idx, is_write) = found->0;
                assert(accesses(i, s[p].arr, idx, s[p].is_write));
            }
        }
        assert forall|p: int, q: int| 0 <= p < q < s.len() implies (#[trigger] s[p]).site < (
        #[trigger] s[q]).site by {
            assert(s[p] == before[p]);
            if q < before.len() {
                assert(s[q] == before[q]);
            }
        }
        assert forall|j: int|
            0 <= j < k && (#[trigger] insts[j] is Load || insts[j] is Store) implies exists|p: int|
            0 <= p < s.len() && (#[trigger] s[p]).site == base + j by {
            if j < k - 1 {
                let p = choose|p: int|
                    0 <= p < before.len() && (#[trigger] before[p]).site == base + j;
                assert(s[p] == before[p]);
            }
        }
    }
}

/// The accesses of a loop are listed in program order: their numbers, which count the
/// instructions of the blocks in the order of the list, grow; every entry stands for the load
/// or store with its number; and every load and store has an entry.
#[verifier::rlimit(30)]
pub proof fn law_accesses_are_the_loads_and_stores(
    func: FuncIr,
    blocks: Seq<BlockId>,
    iv: ValueId,
    n: nat,
)
    requires
        n <= blocks.len(),
    ensures
        ({
            let s = loop_touches(func, blocks, iv, n);
            &&& n == blocks.len() ==> s == accesses_of(func, blocks, iv)
            &&& forall|p: int|
                0 <= p < s.len() ==> exists|i: int, j: int|
                    0 <= i < n && 0 <= j < func.at(blocks[i]).insts@.len() && (
                    #[trigger] s[p]).site == inst_count(func, blocks, i as nat) + j && stands_for(
                        func,
                        blocks,
                        iv,
                        s[p],
                        #[trigger] func.at(blocks[i]).insts@[j],
                    )
            &&& forall|p: int, q: int|
                0 <= p < q < s.len() ==> (#[trigger] s[p]).site < (#[trigger] s[q]).site
            &&& forall|p: int|
                0 <= p < s.len() ==> (#[trigger] s[p]).site < inst_count(func, blocks, n)
            &&& forall|i: int, j: int|
                0 <= i < n && 0 <= j < func.at(blocks[i]).insts@.len() && (#[trigger] func.at(
                    blocks[i],
                ).insts@[j] is Load || func.at(blocks[i]).insts@[j] is Store) ==> exists|p: int|
                    0 <= p < s.len() && (#[trigger] s[p]).site == inst_count(
                        func,
                        blocks,
                        i as nat,
                    ) + j
        }),
    decreases n,
{
    if n > 0 {
        let m = (n - 1) as nat;
        law_accesses_are_the_loads_and_stores(func, blocks, iv, m);
        let before = loop_touches(func, blocks, iv, m);
        let insts = func.at(blocks[n - 1]).insts@;
        let base = inst_count(func, blocks, m) as int;
        lemma_block_entries(func, blocks, iv, insts, base, insts.len());
        let own = block_touches(func, blocks, iv, insts, base, insts.len());
        let s = loop_touches(func, blocks, iv, n);
        assert(s == before + own);
        assert forall|p: int| 0 <= p < s.len() implies exists|i: int, j: int|
            0 <= i < n && 0 <= j < func.at(blocks[i]).insts@.len() && (#[trigger] s[p]).site
                == inst_count(func, blocks, i as nat) + j && stands_for(
                func,
                blocks,
                iv,
                s[p],
                #[trigger] func.at(blocks[i]).insts@[j],
            ) by {
            if p < before.len() {
                assert(s[p] == before[p]);
                let (i, j) = choose|i: int, j: int|
                    0 <= i < m && 0 <= j < func.at(blocks[i]).insts@.len() && before[p].site
                        == inst_count(func, blocks, i as nat) + j && stands_for(
                        func,
                        blocks,
                        iv,
                        before[p],
                        #[trigger] func.at(blocks[i]).insts@[j],
                    );
                assert(stands_for(func, blocks, iv, s[p], func.at(blocks[i]).insts@[j]));
            } else {
                assert(s[p] == own[p - before.len()]);
                let j = s[p].site - base;
                assert(stands_for(func, blocks, iv, s[p], func.at(blocks[n - 1]).insts@[j]));
            }
        }
        assert forall|p: int, q: int| 0 <= p < q < s.len() implies (#[trigger] s[p]).site < (
        #[trigger] s[q]).site by {
            if q < before.len() {
                assert(s[p] == before[p] && s[q] == before[q]);
            } else if p < before.len() {
                assert(s[p] == before[p] && s[q] == own[q - before.len()]);
            } else {
                assert(s[p] == own[p - before.len()] && s[q] == own[q - before.len()]);
            }
        }
        assert forall|p: int| 0 <= p < s.len() implies (#[trigger] s[p]).site < inst_count(
            func,
            blocks,
            n,
        ) by {
            if p < before.len() {
                assert(s[p] == before[p]);
            } else {
                assert(s[p] == own[p - before.len()]);
            }
        }
        assert forall|i: int, j: int|
            0 <= i < n && 0 <= j < func.at(blocks[i]).insts@.len() && (#[trigger] func.at(
                blocks[i],
            ).insts@[j] is Load || func.at(blocks[i]).insts@[j] is Store) implies exists|p: int|
            0 <= p < s.len() && (#[trigger] s[p]).site == inst_count(func, blocks, i as nat)
                + j by {
            if i < m {
                let p = choose|p: int|
                    0 <= p < before.len() && (#[trigger] before[p]).site == inst_count(
                        func,
                        blocks,
                        i as nat,
                    ) + j;
                assert(s[p] == before[p]);
            } else {
                assert(insts[j] is Load || insts[j] is Store);
                let p = choose|p: int| 0 <= p < own.len() && (#[trigger] own[p]).site == base + j;
                assert(s[before.len() + p] == own[p]);
            }
        }
    }
}

} // verus!
