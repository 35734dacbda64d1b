//! A loop in parts: running the iterations of a loop one by one, in any order and on any
//! number of participants, does what the loop does.
use vstd::prelude::*;

use crate::access::{
    accesses_of, block_touches, gathers, inst_count, loop_touches, touches, turned, wraps_to,
    Touch, MAX_GATHER,
};
use crate::body::{bound_names_distinct, load_symbol, BodyParts};
use crate::captures::{law_bodies_find_what_was_captured, stashed_context};
use crate::ctx::{blocks_read, captures_of, lemma_captured};
use crate::canon::canonical;
use crate::dispatch::{
    cell_word, combined_i32, combined_i64, first_acc, total, Combine, CombineTy,
};
use crate::floats::FloatModel;
use crate::folds::{
    combines, lemma_combines_i32, lemma_combines_i64, law_chains_fold_i32, law_chains_fold_i64,
    swaps, term_i32, term_i64, unit_i32, unit_i64,
};
use crate::graph::{in_loop, lemma_loop_members, natural_loop};
use crate::ir::{BlockId, FuncIr, Inst, LocalId, Term, ValueId};
use crate::iterate::{
    begins, call, get, given, iterate, law_one_call_is_one_iteration, passed, Ended, Returned, State,
};
use crate::names::lemma_bound_names;
use crate::outline::{goes_back, merges_into, merges_other, only_where};
use crate::parallel::{acc_phi, region_parts};
use crate::partials::{by_i32, by_i64};
use crate::plan::RegionKind;
use crate::reduce::ReductionOp;
use crate::search::{first_where, lemma_first_where};
use crate::twins::{
    alike, chain_of, facts, folds, framed, grounded, header_cond, iv_back, lemma_twins,
    meaning, one_term, readable, same, shaped, single, touched, twin, written,
    Case, Cells, World,
};
use crate::value::Value;
use crate::verdicts::law_approved_iterations_are_independent;

verus! {

// ---------------------------------------------------------------------------
// The loop
// ---------------------------------------------------------------------------

/// The body captures the value.
pub open spec fn is_captured(p: BodyParts, v: ValueId) -> bool {
    exists|k: int| 0 <= k < p.scalars.len() && v == ValueId((#[trigger] p.scalars[k]).0)
}

/// What an iteration starts with: the captured values, the induction value and the
/// accumulator.
pub open spec fn starts(
    p: BodyParts,
    base: Map<ValueId, Value>,
    iv: Value,
    acc: Value,
    mem: Cells,
) -> State<Value, Cells> {
    let vals = Map::new(|v: ValueId| is_captured(p, v), |v: ValueId| base[v]).insert(
        p.sk.iv_dst,
        iv,
    );
    State {
        vals: match p.acc {
            Some(a) => vals.insert(a.dst, acc),
            None => vals,
        },
        mem,
        cell: acc,
    }
}

/// How a loop ends.
pub enum Looped {
    /// With an error, or a phi takes what was not computed.
    Halted,
    /// Not within so many rounds and blocks.
    Cut,
    /// With an accumulator and memory.
    Done(Value, Cells),
}

/// The round has computed what its phis take.
pub open spec fn comes_round(p: BodyParts, s: State<Value, Cells>) -> bool {
    s.vals.dom().contains(iv_back(p)) && (p.acc matches Some(a) ==> s.vals.dom().contains(a.back))
}

/// What the loop does from a round on: each round starts with what the phis of the header
/// take from the latch, and nothing else that the round before has computed is read.
pub open spec fn loop_from(
    o: World,
    p: BodyParts,
    base: Map<ValueId, Value>,
    iv: Value,
    acc: Value,
    mem: Cells,
    n: nat,
    r: nat,
) -> Looped
    decreases r,
{
    if r == 0 {
        Looped::Cut
    } else {
        match iterate(meaning(o), p, p.sk.header, starts(p, base, iv, acc, mem), n) {
            Ended::Halted => Looped::Halted,
            Ended::Cut => Looped::Cut,
            Ended::Left(s) => Looped::Done(acc, s.mem),
            Ended::Back(s) => if comes_round(p, s) {
                loop_from(
                    o,
                    p,
                    base,
                    s.vals[iv_back(p)],
                    match p.acc {
                        Some(a) => s.vals[a.back],
                        None => acc,
                    },
                    s.mem,
                    n,
                    (r - 1) as nat,
                )
            } else {
                Looped::Halted
            },
        }
    }
}

// ---------------------------------------------------------------------------
// The calls
// ---------------------------------------------------------------------------

/// What the first `k` calls of the body do, one after another: each is made by a
/// participant, for an iteration, and reads and writes the participant's accumulator.
pub open spec fn calls(
    o: World,
    p: BodyParts,
    base: Map<ValueId, Value>,
    ctx: Value,
    order: Seq<(int, i64)>,
    k: nat,
    n: nat,
    cells: Map<int, Value>,
    mem: Cells,
) -> Option<(Map<int, Value>, Cells)>
    decreases k,
{
    if k == 0 {
        Some((cells, mem))
    } else {
        match calls(o, p, base, ctx, order, (k - 1) as nat, n, cells, mem) {
            Some((cs, w)) => {
                let (who, i) = order[k - 1];
                match call(
                    meaning(o),
                    p.all_blocks(),
                    BlockId(0),
                    passed(p, starts(p, base, Value::I64(i), cs[who], w), ctx),
                    n + 1,
                ) {
                    Returned::Done(t) => Some((cs.insert(who, t.cell), t.mem)),
                    _ => None,
                }
            },
            None => None,
        }
    }
}

/// The iterations of a schedule.
pub open spec fn iterations(order: Seq<(int, i64)>) -> Seq<i64> {
    order.map_values(|e: (int, i64)| e.1)
}

/// The schedule runs every iteration from `lo` up to `end` once, on one of `np`
/// participants.
pub open spec fn covers(order: Seq<(int, i64)>, lo: i64, end: i64, np: nat) -> bool {
    &&& iterations(order).no_duplicates()
    &&& forall|i: i64| #[trigger] iterations(order).contains(i) <==> lo <= i < end
    &&& forall|k: int| 0 <= k < order.len() ==> 0 <= (#[trigger] order[k]).0 < np
}

/// No iteration writes an element that another one may touch.
pub open spec fn apart(p: BodyParts, lo: i64, end: i64) -> bool {
    forall|i: i64, j: i64, c: (LocalId, int)|
        lo <= i < end && lo <= j < end && i != j && #[trigger] written(p, i as int, c)
            ==> !#[trigger] touched(p, j as int, c)
}

/// The context holds the captured values.
pub open spec fn holds_captures(
    o: World,
    p: BodyParts,
    base: Map<ValueId, Value>,
    ctx: Value,
) -> bool {
    forall|k: int|
        0 <= k < p.scalars.len() ==> (o.context)(
            load_symbol((#[trigger] p.scalars[k]).1, p.scalars[k].2),
            ctx,
            Value::I64(p.scalars[k].3),
        ) == base[ValueId(p.scalars[k].0)]
}

/// A context that was packed from what was stashed holds the captured values.
proof fn lemma_holds_captures(
    o: World,
    ir: FuncIr,
    header: BlockId,
    kind: RegionKind,
    base: Map<ValueId, Value>,
    ctx: Value,
)
    requires
        region_parts(ir, header, kind) is Some,
        stashed_context(o, region_parts(ir, header, kind)->0, base, ctx),
    ensures
        holds_captures(o, region_parts(ir, header, kind)->0, base, ctx),
{
    let p = region_parts(ir, header, kind)->0;
    assert forall|k: int| 0 <= k < p.scalars.len() implies (o.context)(
        load_symbol((#[trigger] p.scalars[k]).1, p.scalars[k].2),
        ctx,
        Value::I64(p.scalars[k].3),
    ) == base[ValueId(p.scalars[k].0)] by {
        law_bodies_find_what_was_captured(o, ir, header, kind, base, ctx, k);
    }
}

// ---------------------------------------------------------------------------
// Shapes
// ---------------------------------------------------------------------------

/// A loop that is taken out has its shape.
pub proof fn lemma_shaped(ir: FuncIr, header: BlockId, kind: RegionKind)
    requires
        ir.wf(),
        ir.has_block(header),
        region_parts(ir, header, kind) is Some,
    ensures
        shaped(region_parts(ir, header, kind)->0),
        bound_names_distinct(region_parts(ir, header, kind)->0),
{
    let p = region_parts(ir, header, kind)->0;
    lemma_bound_names(ir, header, kind);
    lemma_loop_members(ir, header, ir.blocks@.len());
    let blocks = p.sk.blocks;
    assert(blocks == natural_loop(ir, header));
    assert(blocks[0] == header && p.sk.header == header);
    assert forall|i: int| 0 <= i < blocks.len() implies ir.has_block(#[trigger] blocks[i]) by {
        assert(natural_loop(ir, header).contains(blocks[i]));
        assert(in_loop(ir, header, blocks[i]));
    }
    let data = ir.at(header);
    lemma_first_where(data.preds@, goes_back(header, blocks));
    if let Term::Branch { cond, .. } = data.term {
        if let Some(Inst::Bin { a, .. }) = ir.def_inst(cond) {
            lemma_first_where(data.phis@, merges_into(a));
            let k = first_where(data.phis@, merges_into(a))->0;
            assert(data.phis@[k].dst == a);
        }
    }
    if let Some(a) = p.acc {
        let phis = data.phis@;
        lemma_first_where(phis, merges_other(p.sk.iv_dst));
        let k = only_where(phis, merges_other(p.sk.iv_dst))->0;
        assert(ir.at(header).phis@[k].dst == a.dst);
    }
    let uses = blocks_read(ir, blocks, blocks.len());
    lemma_captured(ir, blocks, p.sk.iv_dst, acc_phi(p.acc), uses, uses.len());
    let captures = captures_of(ir, blocks, p.sk.iv_dst, acc_phi(p.acc))->0;
    assert forall|k: int| 0 <= k < p.scalars.len() implies !blocks.contains(
        ir.home(ValueId((#[trigger] p.scalars[k]).0)),
    ) by {
        assert(captures.contains(captures[k]));
        assert(captures[k] == ValueId(p.scalars[k].0));
    }
}

impl<B> Case<B> {
    /// The same loop at iteration `i`.
    pub open spec fn at(self, i: i64) -> Case<B> {
        Case { i, ..self }
    }

    /// An iteration from an accumulator and memory.
    pub open spec fn turn(self, n: nat, y: B, w: Cells) -> Ended<Value, Cells> {
        iterate(
            self.m(),
            self.p,
            self.p.sk.header,
            starts(self.p, self.base, Value::I64(self.i), (self.e)(y), w),
            n,
        )
    }
}

/// What holds of the values that an iteration starts with.
proof fn lemma_start<B>(c: Case<B>, acc: Value, w: Cells)
    requires
        c.fits(),
        bound_names_distinct(c.p),
    ensures
        facts(c, starts(c.p, c.base, Value::I64(c.i), acc, w).vals),
        c.p.acc matches Some(a) ==> !starts(
            c.p,
            c.base,
            Value::I64(c.i),
            acc,
            w,
        ).vals.dom().contains(a.back),
{
    let p = c.p;
    let vals = starts(p, c.base, Value::I64(c.i), acc, w).vals;
    crate::twins::lemma_iv_is_phi(c);
    let kc = crate::twins::lemma_cond_inst(c);
    assert(p.ir.home(header_cond(p)) == p.sk.header) by {
        assert(p.ir.at(p.sk.header).insts@[kc].def() == Some(header_cond(p)));
    }
    assert(!is_captured(p, header_cond(p)));
    assert(!is_captured(p, iv_back(p)));
    assert(!vals.dom().contains(header_cond(p)));
    assert(p.ir.def_inst(iv_back(p)) is Some);
    assert(!vals.dom().contains(iv_back(p)));
    if let Some(a) = p.acc {
        assert(!is_captured(p, a.back));
    }
    assert forall|v: ValueId, d: nat|
        #![trigger vals.dom().contains(v), c.form(v, d)]
        vals.dom().contains(v) && vals[v] is I64 implies (c.form(v, d) matches Some(g)
        ==> wraps_to(vals[v]->I64_0 as int, g.at(c.i as int))) by {
        if c.form(v, d) is Some {
            let g = c.form(v, d)->0;
            if v == p.sk.iv_dst {
                assert(g.at(c.i as int) == c.i) by {
                    assert(1 * (c.i as int) == c.i);
                }
                assert(c.i == turned(g.at(c.i as int), 0));
            } else if p.acc is Some && v == p.acc->0.dst {
                assert(false);
            } else {
                assert(is_captured(p, v));
                let k = choose|k: int|
                    0 <= k < p.scalars.len() && v == ValueId((#[trigger] p.scalars[k]).0);
                assert(!p.sk.blocks.contains(p.ir.home(ValueId(p.scalars[k].0))));
                let z = vals[v]->I64_0;
                assert(g.at(c.i as int) == z) by {
                    assert(g.a == 0 && g.b == z);
                    assert(0 * (c.i as int) == 0);
                }
                assert(z == turned(g.at(c.i as int), 0));
            }
        }
    }
}

// ---------------------------------------------------------------------------
// Iterations
// ---------------------------------------------------------------------------

/// From memory that is `w` where the iteration touches it, and from any accumulator, the
/// iteration comes back with memory that is `u` there, has changed nothing that it may not
/// write, and has combined the accumulator with the term.
pub open spec fn does<B>(c: Case<B>, n: nat, w: Cells, u: Cells, t: B) -> bool {
    &&& framed(c.p, c.i as int, w, u)
    &&& forall|y: B, z: Cells|
        alike(c.p, c.i as int, w, z) ==> (#[trigger] c.turn(n, y, z) matches Ended::Back(s)
            && alike(c.p, c.i as int, s.mem, u) && framed(c.p, c.i as int, z, s.mem) && (
        c.p.acc matches Some(a) ==> get(c.m(), s, a.back) == (c.e)((c.f)(y, t))))
}

/// Different accumulators are different values.
pub open spec fn injective<B>(e: spec_fn(B) -> Value) -> bool {
    forall|x: B, y: B| #[trigger] e(x) == #[trigger] e(y) ==> x == y
}

/// One round of the loop is the iteration that it runs.
proof fn lemma_does<B>(c: Case<B>, unit: B, n: nat, x: B, w: Cells) -> (t: B)
    requires
        c.fits(),
        bound_names_distinct(c.p),
        combines(c.f, unit),
        injective(c.e),
        c.turn(n, x, w) matches Ended::Back(s) && comes_round(c.p, s),
    ensures
        does(c, n, w, c.turn(n, x, w)->Back_0.mem, t),
        c.i < c.end,
        c.turn(n, x, w)->Back_0.vals[iv_back(c.p)] == Value::I64(c.i.wrapping_add(1)),
        c.p.acc matches Some(a) ==> c.turn(n, x, w)->Back_0.vals[a.back] == (c.e)((c.f)(x, t)),
{
    let p = c.p;
    let i = c.i as int;
    let h = p.sk.header;
    let s = c.turn(n, x, w)->Back_0;
    let first = starts(p, c.base, Value::I64(c.i), (c.e)(x), w);
    let plain = starts(p, c.base, Value::I64(c.i), (c.e)(unit), w);
    lemma_start(c, (c.e)(x), w);
    lemma_start(c, (c.e)(unit), w);
    crate::twins::lemma_iv_is_phi(c);
    lemma_begin_twins(c, x, unit, w, w);
    lemma_twins(c, x, unit, h, first, plain, n);
    let q = c.turn(n, unit, w)->Back_0;
    let t: B = if p.acc is Some {
        let a = p.acc->0;
        assert(one_term(c, x, unit, s.vals[a.back], q.vals[a.back]));
        choose|t: B|
            s.vals[a.back] == (c.e)(#[trigger] (c.f)(x, t)) && q.vals[a.back] == (c.e)(
                (c.f)(unit, t),
            )
    } else {
        unit
    };
    assert forall|y: B, z: Cells| alike(p, i, w, z) implies (#[trigger] c.turn(n, y, z)
        matches Ended::Back(v) && alike(p, i, v.mem, s.mem) && framed(p, i, z, v.mem) && (
    p.acc matches Some(a) ==> get(c.m(), v, a.back) == (c.e)((c.f)(y, t)))) by {
        let other = starts(p, c.base, Value::I64(c.i), (c.e)(y), z);
        lemma_begin_twins(c, unit, y, w, z);
        lemma_twins(c, unit, y, h, plain, other, n);
        let v = c.turn(n, y, z)->Back_0;
        assert forall|e: (LocalId, int)| #[trigger] touched(p, i, e) implies same(
            v.mem,
            s.mem,
            e,
        ) by {
            assert(same(s.mem, q.mem, e));
            assert(same(q.mem, v.mem, e));
        }
        if let Some(a) = p.acc {
            assert(q.vals.dom().contains(a.back));
            let t2 = choose|t2: B|
                q.vals[a.back] == (c.e)(#[trigger] (c.f)(unit, t2)) && v.vals[a.back] == (c.e)(
                    (c.f)(y, t2),
                );
            assert((c.f)(unit, t2) == t2);
            assert((c.f)(unit, t) == t);
            assert((c.e)(t) == (c.e)(t2));
            assert(t == t2);
        }
    }
    t
}

/// Two runs start as twins where memory is alike.
proof fn lemma_begin_twins<B>(c: Case<B>, x: B, y: B, w: Cells, z: Cells)
    requires
        c.fits(),
        bound_names_distinct(c.p),
        alike(c.p, c.i as int, w, z),
    ensures
        twin(
            c,
            x,
            y,
            starts(c.p, c.base, Value::I64(c.i), (c.e)(x), w),
            starts(c.p, c.base, Value::I64(c.i), (c.e)(y), z),
        ),
{
    let s = starts(c.p, c.base, Value::I64(c.i), (c.e)(x), w);
    let t = starts(c.p, c.base, Value::I64(c.i), (c.e)(y), z);
    lemma_start(c, (c.e)(x), w);
    assert(s.vals.dom() =~= t.vals.dom());
}

/// The rounds of a loop: what memory was before and after each, and its term.
pub open spec fn traced<B>(c: Case<B>, n: nat, lo: i64, terms: Seq<B>, mems: Seq<Cells>) -> bool {
    &&& mems.len() == terms.len() + 1
    &&& lo + terms.len() <= i64::MAX
    &&& forall|k: int|
        0 <= k < terms.len() ==> does(
            c.at((lo + k) as i64),
            n,
            mems[k],
            mems[k + 1],
            #[trigger] terms[k],
        )
}

/// A loop that ends has gone through its rounds.
proof fn lemma_loop<B>(c: Case<B>, unit: B, n: nat, r: nat, lo: i64, x: B, w: Cells) -> (res: (
    Seq<B>,
    Seq<Cells>,
))
    requires
        forall|i: i64| i >= lo ==> #[trigger] c.at(i).fits(),
        bound_names_distinct(c.p),
        combines(c.f, unit),
        injective(c.e),
        loop_from(c.o, c.p, c.base, Value::I64(lo), (c.e)(x), w, n, r) is Done,
    ensures
        ({
            let (terms, mems) = res;
            let end = loop_from(c.o, c.p, c.base, Value::I64(lo), (c.e)(x), w, n, r);
            &&& traced(c, n, lo, terms, mems)
            &&& mems[0] == w
            &&& mems.last() == end->Done_1
            &&& terms.len() == (if lo < c.end {
                c.end - lo
            } else {
                0
            })
            &&& end->Done_0 == (if c.p.acc is Some {
                (c.e)(terms.fold_left(x, c.f))
            } else {
                (c.e)(x)
            })
        }),
    decreases r,
{
    let k = c.at(lo);
    assert(k.fits());
    assert(k.turn(n, x, w) == iterate(
        meaning(c.o),
        c.p,
        c.p.sk.header,
        starts(c.p, c.base, Value::I64(lo), (c.e)(x), w),
        n,
    ));
    match k.turn(n, x, w) {
        Ended::Back(s) => {
            let t = lemma_does(k, unit, n, x, w);
            let y = if c.p.acc is Some {
                (c.f)(x, t)
            } else {
                x
            };
            let next = (lo + 1) as i64;
            let (ts, ms) = lemma_loop(c, unit, n, (r - 1) as nat, next, y, s.mem);
            let terms = seq![t] + ts;
            let mems = seq![w] + ms;
            assert forall|j: int| 0 <= j < terms.len() implies does(
                c.at((lo + j) as i64),
                n,
                mems[j],
                mems[j + 1],
                #[trigger] terms[j],
            ) by {
                if j > 0 {
                    assert(terms[j] == ts[j - 1]);
                    assert((next + (j - 1)) as i64 == (lo + j) as i64);
                }
            }
            terms.lemma_fold_left_split(x, c.f, 1);
            assert(terms.subrange(0, 1) =~= seq![t]);
            assert(terms.subrange(1, terms.len() as int) =~= ts);
            reveal_with_fuel(Seq::fold_left, 2);
            assert(seq![t].fold_left(x, c.f) == (c.f)(x, t)) by {
                assert(seq![t].drop_last() =~= Seq::<B>::empty());
            }
            (terms, mems)
        },
        Ended::Left(s) => {
            let first = starts(c.p, c.base, Value::I64(lo), (c.e)(x), w);
            lemma_start(k, (c.e)(x), w);
            crate::twins::lemma_iv_is_phi(k);
            lemma_begin_twins(k, x, x, w, w);
            lemma_twins(k, x, x, c.p.sk.header, first, first, n);
            (Seq::empty(), seq![w])
        },
        _ => (Seq::empty(), seq![w]),
    }
}

// ---------------------------------------------------------------------------
// Schedules
// ---------------------------------------------------------------------------

/// An element that no round from `a` to `b` writes stays as it is.
proof fn lemma_stays<B>(
    c: Case<B>,
    n: nat,
    lo: i64,
    terms: Seq<B>,
    mems: Seq<Cells>,
    a: int,
    b: int,
    e: (LocalId, int),
)
    requires
        traced(c, n, lo, terms, mems),
        0 <= a <= b <= terms.len(),
        forall|k: int| a <= k < b ==> !#[trigger] written(c.p, lo + k, e),
    ensures
        same(mems[a], mems[b], e),
    decreases b - a,
{
    if a < b {
        lemma_stays(c, n, lo, terms, mems, a, b - 1, e);
        let t = terms[b - 1];
        assert(does(c.at((lo + (b - 1)) as i64), n, mems[b - 1], mems[b - 1 + 1], t));
        assert(written(c.p, lo + (b - 1), e) || same(mems[b - 1], mems[b], e));
    }
}

/// What is written is touched.
proof fn lemma_written(p: BodyParts, i: int, e: (LocalId, int))
    requires
        written(p, i, e),
    ensures
        touched(p, i, e),
{
    let (b, k) = choose|b: BlockId, k: int|
        p.sk.blocks.contains(b) && 0 <= k < p.ir.at(b).insts@.len() && crate::twins::inst_writes(
            p,
            #[trigger] p.ir.at(b).insts@[k],
            i,
            e,
        );
    assert(crate::twins::inst_touches(p, p.ir.at(b).insts@[k], i, e));
}

/// Some call among the first `k` may write the element.
pub open spec fn written_before(
    p: BodyParts,
    order: Seq<(int, i64)>,
    k: nat,
    e: (LocalId, int),
) -> bool {
    exists|j: int| 0 <= j < k && written(p, (#[trigger] order[j]).1 as int, e)
}

/// Memory after the first `k` calls: what the loop leaves where one of them writes, and
/// what was there before elsewhere.
spec fn halfway(
    p: BodyParts,
    order: Seq<(int, i64)>,
    k: nat,
    before: Cells,
    behind: Cells,
    w: Cells,
) -> bool {
    forall|e: (LocalId, int)|
        #![trigger written_before(p, order, k, e)]
        if written_before(p, order, k, e) {
            same(w, behind, e)
        } else {
            same(w, before, e)
        }
}

/// The accumulators combined.
pub open spec fn gathered<B>(f: spec_fn(B, B) -> B, cs: Seq<B>, n: nat) -> B
    decreases n,
{
    if n <= 1 {
        cs[0]
    } else {
        f(gathered(f, cs, (n - 1) as nat), cs[n - 1])
    }
}

/// Combining one accumulator with a term combines them all with it.
proof fn lemma_gathered<B>(f: spec_fn(B, B) -> B, unit: B, cs: Seq<B>, n: nat, q: int, t: B)
    requires
        combines(f, unit),
        1 <= n <= cs.len(),
        0 <= q < cs.len(),
    ensures
        gathered(f, cs.update(q, f(cs[q], t)), n) == (if q < n {
            f(gathered(f, cs, n), t)
        } else {
            gathered(f, cs, n)
        }),
    decreases n,
{
    if n > 1 {
        lemma_gathered(f, unit, cs, (n - 1) as nat, q, t);
        let g = gathered(f, cs, (n - 1) as nat);
        let x = cs[n - 1];
        assert(swaps(f, g, t, x));
        if q == n - 1 {
            let xt = f(x, t);
            assert(swaps(f, unit, g, xt));
            assert(f(g, xt) == f(xt, g));
            assert(swaps(f, x, t, g));
            assert(swaps(f, unit, x, g));
        }
    }
}

/// Combining with the term of an iteration.
spec fn terms_of<B>(lo: i64, terms: Seq<B>, f: spec_fn(B, B) -> B) -> spec_fn(B, i64) -> B {
    |x: B, i: i64| f(x, terms[i - lo])
}

/// What an iteration of the loop does when it is called.
proof fn lemma_called<B>(
    c: Case<B>,
    kind: RegionKind,
    ctx: Value,
    n: nat,
    w: Cells,
    u: Cells,
    t: B,
    y: B,
    z: Cells,
)
    requires
        c.p.ir.wf(),
        c.p.ir.blocks@.len() < u32::MAX,
        c.p.ir.has_block(c.p.sk.header),
        region_parts(c.p.ir, c.p.sk.header, kind) == Some(c.p),
        bound_names_distinct(c.p),
        holds_captures(c.o, c.p, c.base, ctx),
        does(c, n, w, u, t),
        alike(c.p, c.i as int, w, z),
    ensures
        call(
            meaning(c.o),
            c.p.all_blocks(),
            BlockId(0),
            passed(c.p, starts(c.p, c.base, Value::I64(c.i), (c.e)(y), z), ctx),
            n + 1,
        ) matches Returned::Done(s) && alike(c.p, c.i as int, s.mem, u) && framed(
            c.p,
            c.i as int,
            z,
            s.mem,
        ) && s.cell == (if c.p.acc is Some {
            (c.e)((c.f)(y, t))
        } else {
            (c.e)(y)
        }),
{
    let m = meaning(c.o);
    let s = starts(c.p, c.base, Value::I64(c.i), (c.e)(y), z);
    assert(c.turn(n, y, z) is Back);
    assert forall|v: ValueId| #[trigger] s.vals.dom().contains(v) <==> given(c.p, v) by {
        assert(is_captured(c.p, v) == (exists|k: int|
            0 <= k < c.p.scalars.len() && v == ValueId((#[trigger] c.p.scalars[k]).0)));
    }
    assert forall|k: int| 0 <= k < c.p.scalars.len() implies (m.captured)(
        load_symbol((#[trigger] c.p.scalars[k]).1, c.p.scalars[k].2),
        ctx,
        (m.literal)(crate::ir::Constant::I64(c.p.scalars[k].3)),
    ) == s.vals[ValueId(c.p.scalars[k].0)] by {
        assert(is_captured(c.p, ValueId(c.p.scalars[k].0)));
    }
    assert(begins(m, c.p, s, ctx));
    law_one_call_is_one_iteration(m, c.p.ir, c.p.sk.header, kind, s, ctx, n);
}

/// A call of the schedule is one of an iteration of the loop.
proof fn lemma_order(order: Seq<(int, i64)>, lo: i64, end: i64, np: nat, j: int)
    requires
        covers(order, lo, end, np),
        0 <= j < order.len(),
    ensures
        lo <= order[j].1 < end,
        0 <= order[j].0 < np,
        forall|k: int| 0 <= k < order.len() && k != j ==> (#[trigger] order[k]).1 != order[j].1,
{
    assert(iterations(order)[j] == order[j].1);
    assert(iterations(order).contains(iterations(order)[j]));
    assert forall|k: int| 0 <= k < order.len() && k != j implies (#[trigger] order[k]).1
        != order[j].1 by {
        assert(iterations(order)[k] == order[k].1);
    }
}

/// The first `k` calls of a schedule.
#[verifier::rlimit(40)]
proof fn lemma_schedule<B>(
    c: Case<B>,
    unit: B,
    kind: RegionKind,
    ctx: Value,
    n: nat,
    lo: i64,
    terms: Seq<B>,
    mems: Seq<Cells>,
    order: Seq<(int, i64)>,
    np: nat,
    k: nat,
    cs0: Seq<B>,
    cells0: Map<int, Value>,
) -> (cs: Seq<B>)
    requires
        c.p.ir.wf(),
        c.p.ir.blocks@.len() < u32::MAX,
        c.p.ir.has_block(c.p.sk.header),
        region_parts(c.p.ir, c.p.sk.header, kind) == Some(c.p),
        bound_names_distinct(c.p),
        holds_captures(c.o, c.p, c.base, ctx),
        combines(c.f, unit),
        traced(c, n, lo, terms, mems),
        terms.len() == (if lo < c.end {
            c.end - lo
        } else {
            0
        }),
        covers(order, lo, c.end, np),
        apart(c.p, lo, c.end),
        k <= order.len(),
        cs0.len() == np,
        np >= 1,
        forall|q: int| 0 <= q < np ==> #[trigger] cells0[q] == (c.e)(cs0[q]),
    ensures
        cs.len() == np,
        calls(c.o, c.p, c.base, ctx, order, k, n, cells0, mems[0]) matches Some((cells, w)) && (
        forall|q: int| 0 <= q < np ==> #[trigger] cells[q] == (c.e)(cs[q])) && halfway(
            c.p,
            order,
            k,
            mems[0],
            mems.last(),
            w,
        ),
        c.p.acc is Some ==> gathered(c.f, cs, np) == iterations(order).take(k as int).fold_left(
            gathered(c.f, cs0, np),
            terms_of(lo, terms, c.f),
        ),
        c.p.acc is None ==> cs == cs0,
    decreases k,
{
    let p = c.p;
    if k == 0 {
        assert(iterations(order).take(0) =~= Seq::<i64>::empty());
        cs0
    } else {
        let cs = lemma_schedule(
            c,
            unit,
            kind,
            ctx,
            n,
            lo,
            terms,
            mems,
            order,
            np,
            (k - 1) as nat,
            cs0,
            cells0,
        );
        let (cells, w) = calls(
            c.o,
            p,
            c.base,
            ctx,
            order,
            (k - 1) as nat,
            n,
            cells0,
            mems[0],
        )->0;
        let (who, i) = order[k - 1];
        lemma_order(order, lo, c.end, np, k - 1);
        let at = i - lo;
        let t = terms[at];
        let here = c.at(i);
        assert((lo + at) as i64 == i);
        assert(does(here, n, mems[at], mems[at + 1], t));
        let all = terms.len() as int;
        assert forall|e: (LocalId, int)| #[trigger] touched(p, i as int, e) implies same(
            mems[at],
            w,
            e,
        ) by {
            assert forall|j: int| 0 <= j < at implies !#[trigger] written(p, lo + j, e) by {
                let other = (lo + j) as i64;
                assert(other as int == lo + j);
                assert(written(p, other as int, e) ==> !touched(p, i as int, e));
            }
            lemma_stays(c, n, lo, terms, mems, 0, at, e);
            if written_before(p, order, (k - 1) as nat, e) {
                let j = choose|j: int|
                    0 <= j < k - 1 && written(p, (#[trigger] order[j]).1 as int, e);
                lemma_order(order, lo, c.end, np, j);
                assert(order[j].1 != i);
                assert(false);
            }
        }
        assert(cells[who] == (c.e)(cs[who]));
        lemma_called(here, kind, ctx, n, mems[at], mems[at + 1], t, cs[who], w);
        let s = call(
            meaning(c.o),
            p.all_blocks(),
            BlockId(0),
            passed(p, starts(p, c.base, Value::I64(i), cells[who], w), ctx),
            n + 1,
        )->Done_0;
        let new = if p.acc is Some {
            cs.update(who, (c.f)(cs[who], t))
        } else {
            cs
        };
        assert forall|e: (LocalId, int)|
            #![trigger written_before(p, order, k, e)]
            if written_before(p, order, k, e) {
                same(s.mem, mems.last(), e)
            } else {
                same(s.mem, mems[0], e)
            } by {
            if written(p, i as int, e) {
                assert(written(p, order[k - 1].1 as int, e));
                lemma_written(p, i as int, e);
                assert(same(s.mem, mems[at + 1], e));
                assert forall|j: int| at + 1 <= j < all implies !#[trigger] written(
                    p,
                    lo + j,
                    e,
                ) by {
                    let other = (lo + j) as i64;
                    assert(other as int == lo + j);
                    if written(p, lo + j, e) {
                        lemma_written(p, lo + j, e);
                        assert(!touched(p, other as int, e));
                    }
                }
                lemma_stays(c, n, lo, terms, mems, at + 1, all, e);
                assert(mems[all] == mems.last());
            } else {
                assert(same(w, s.mem, e));
                let before = written_before(p, order, (k - 1) as nat, e);
                if written_before(p, order, k, e) {
                    let j = choose|j: int|
                        0 <= j < k && written(p, (#[trigger] order[j]).1 as int, e);
                    assert(j < k - 1);
                    assert(written(p, order[j].1 as int, e));
                    assert(before);
                } else if before {
                    let j = choose|j: int|
                        0 <= j < k - 1 && written(p, (#[trigger] order[j]).1 as int, e);
                    assert(written(p, order[j].1 as int, e));
                    assert(false);
                }
            }
        }
        if p.acc is Some {
            lemma_gathered(c.f, unit, cs, np, who, t);
            let ks = iterations(order).take(k as int);
            assert(ks.drop_last() =~= iterations(order).take(k - 1));
            assert(ks.last() == i);
            reveal_with_fuel(Seq::fold_left, 2);
        }
        new
    }
}

/// The iterations from `lo` up to `end`, in order.
pub open spec fn counted(lo: i64, n: nat) -> Seq<i64> {
    Seq::new(n, |k: int| (lo + k) as i64)
}

/// Combining with the terms in the order of the loop.
proof fn lemma_in_order<B>(lo: i64, terms: Seq<B>, f: spec_fn(B, B) -> B, x: B, n: nat)
    requires
        n <= terms.len(),
        lo + terms.len() <= i64::MAX,
    ensures
        counted(lo, n).fold_left(x, terms_of(lo, terms, f)) == terms.take(n as int).fold_left(x, f),
    decreases n,
{
    reveal_with_fuel(Seq::fold_left, 2);
    if n > 0 {
        lemma_in_order(lo, terms, f, x, (n - 1) as nat);
        assert(counted(lo, n).drop_last() =~= counted(lo, (n - 1) as nat));
        assert(terms.take(n as int).drop_last() =~= terms.take(n - 1));
    } else {
        assert(terms.take(0) =~= Seq::<B>::empty());
    }
}

/// A schedule runs the iterations of the loop, in another order.
proof fn lemma_permuted(order: Seq<(int, i64)>, lo: i64, end: i64, np: nat, n: nat)
    requires
        covers(order, lo, end, np),
        n == (if lo < end {
            end - lo
        } else {
            0
        }),
    ensures
        iterations(order).to_multiset() == counted(lo, n).to_multiset(),
{
    let a = iterations(order);
    let b = counted(lo, n);
    assert(b.no_duplicates());
    a.lemma_multiset_has_no_duplicates();
    b.lemma_multiset_has_no_duplicates();
    a.to_multiset_ensures();
    b.to_multiset_ensures();
    assert forall|i: i64| a.to_multiset().count(i) == b.to_multiset().count(i) by {
        assert(a.contains(i) <==> lo <= i < end);
        if lo <= i < end {
            assert(b[i - lo] == i);
            assert(b.contains(i));
            assert(a.to_multiset().contains(i));
            assert(b.to_multiset().contains(i));
        } else {
            if b.contains(i) {
                let k = choose|k: int| 0 <= k < b.len() && b[k] == i;
                assert(lo + k < end);
                assert(false);
            }
            assert(!a.contains(i));
        }
    }
    assert(a.to_multiset() =~= b.to_multiset());
}

/// A schedule does what the loop does.
proof fn lemma_parts<B>(
    c: Case<B>,
    unit: B,
    kind: RegionKind,
    ctx: Value,
    n: nat,
    r: nat,
    lo: i64,
    seed: B,
    mem: Cells,
    order: Seq<(int, i64)>,
    np: nat,
    cs0: Seq<B>,
    cells0: Map<int, Value>,
) -> (cs: Seq<B>)
    requires
        c.p.ir.wf(),
        c.p.ir.blocks@.len() < u32::MAX,
        c.p.ir.has_block(c.p.sk.header),
        region_parts(c.p.ir, c.p.sk.header, kind) == Some(c.p),
        bound_names_distinct(c.p),
        holds_captures(c.o, c.p, c.base, ctx),
        combines(c.f, unit),
        injective(c.e),
        forall|i: i64| i >= lo ==> #[trigger] c.at(i).fits(),
        covers(order, lo, c.end, np),
        apart(c.p, lo, c.end),
        cs0.len() == np,
        np >= 1,
        forall|q: int| 0 <= q < np ==> #[trigger] cells0[q] == (c.e)(cs0[q]),
        gathered(c.f, cs0, np) == seed,
        loop_from(c.o, c.p, c.base, Value::I64(lo), (c.e)(seed), mem, n, r) is Done,
    ensures
        cs.len() == np,
        ({
            let end = loop_from(c.o, c.p, c.base, Value::I64(lo), (c.e)(seed), mem, n, r);
            calls(c.o, c.p, c.base, ctx, order, order.len(), n, cells0, mem) matches Some(
                (cells, w),
            ) && w == end->Done_1 && (forall|q: int|
                0 <= q < np ==> #[trigger] cells[q] == (c.e)(cs[q])) && (c.p.acc is Some
                ==> end->Done_0 == (c.e)(gathered(c.f, cs, np)))
        }),
{
    let (terms, mems) = lemma_loop(c, unit, n, r, lo, seed, mem);
    let cs = lemma_schedule(
        c,
        unit,
        kind,
        ctx,
        n,
        lo,
        terms,
        mems,
        order,
        np,
        order.len(),
        cs0,
        cells0,
    );
    let (cells, w) = calls(c.o, c.p, c.base, ctx, order, order.len(), n, cells0, mem)->0;
    let all = terms.len() as int;
    assert forall|e: (LocalId, int)| same(w, mems.last(), e) by {
        if !written_before(c.p, order, order.len(), e) {
            assert forall|j: int| 0 <= j < all implies !#[trigger] written(c.p, lo + j, e) by {
                let i = (lo + j) as i64;
                assert(iterations(order).contains(i));
                let k = choose|k: int| 0 <= k < iterations(order).len() && iterations(order)[k] == i;
                assert(order[k].1 == i);
                if written(c.p, lo + j, e) {
                    assert(written(c.p, order[k].1 as int, e));
                }
            }
            lemma_stays(c, n, lo, terms, mems, 0, all, e);
        }
    }
    assert(w =~= mems.last()) by {
        assert forall|e: (LocalId, int)| w.dom().contains(e) == mems.last().dom().contains(e) by {
            assert(same(w, mems.last(), e));
        }
        assert forall|e: (LocalId, int)| w.dom().contains(e) implies w[e] == mems.last()[e] by {
            assert(same(w, mems.last(), e));
        }
    }
    if c.p.acc is Some {
        let f = terms_of(lo, terms, c.f);
        assert forall|i: i64, j: i64, x: B| #[trigger] f(f(x, i), j) == f(f(x, j), i) by {
            assert(swaps(c.f, x, terms[i - lo], terms[j - lo]));
        }
        lemma_permuted(order, lo, c.end, np, terms.len());
        vstd::seq_lib::lemma_fold_left_permutation(
            iterations(order),
            counted(lo, terms.len()),
            f,
            seed,
        );
        lemma_in_order(lo, terms, c.f, seed, terms.len());
        assert(iterations(order).take(order.len() as int) =~= iterations(order));
        assert(terms.take(all) =~= terms);
    }
    cs
}

// ---------------------------------------------------------------------------
// Loops that end with an error
// ---------------------------------------------------------------------------

/// Every iteration that begins ends within `n` blocks and computes what the phis of the
/// header take, and where the bound is reached the header ends without an error.
pub open spec fn rounds(
    o: World,
    p: BodyParts,
    base: Map<ValueId, Value>,
    end: i64,
    n: nat,
) -> bool {
    forall|i: i64, acc: Value, w: Cells|
        #![trigger starts(p, base, Value::I64(i), acc, w)]
        match iterate(
            meaning(o),
            p,
            p.sk.header,
            starts(p, base, Value::I64(i), acc, w),
            n,
        ) {
            Ended::Cut => false,
            Ended::Halted => i < end,
            Ended::Back(s) => comes_round(p, s),
            Ended::Left(_) => true,
        }
}

/// A call that ends without an error is an iteration that comes back.
proof fn lemma_comes_back<B>(
    c: Case<B>,
    kind: RegionKind,
    ctx: Value,
    n: nat,
    y: B,
    z: Cells,
) -> (t: B)
    requires
        c.p.ir.wf(),
        c.p.ir.blocks@.len() < u32::MAX,
        c.p.ir.has_block(c.p.sk.header),
        region_parts(c.p.ir, c.p.sk.header, kind) == Some(c.p),
        bound_names_distinct(c.p),
        holds_captures(c.o, c.p, c.base, ctx),
        rounds(c.o, c.p, c.base, c.end, n),
        c.fits(),
        c.i < c.end,
        call(
            meaning(c.o),
            c.p.all_blocks(),
            BlockId(0),
            passed(c.p, starts(c.p, c.base, Value::I64(c.i), (c.e)(y), z), ctx),
            n + 1,
        ) is Done,
    ensures
        c.turn(n, y, z) is Back,
        ({
            let s = call(
                meaning(c.o),
                c.p.all_blocks(),
                BlockId(0),
                passed(c.p, starts(c.p, c.base, Value::I64(c.i), (c.e)(y), z), ctx),
                n + 1,
            )->Done_0;
            &&& framed(c.p, c.i as int, z, s.mem)
            &&& s.cell == (if c.p.acc is Some {
                (c.e)((c.f)(y, t))
            } else {
                (c.e)(y)
            })
        }),
{
    let m = meaning(c.o);
    let p = c.p;
    let first = starts(p, c.base, Value::I64(c.i), (c.e)(y), z);
    assert forall|v: ValueId| #[trigger] first.vals.dom().contains(v) <==> given(p, v) by {
        assert(is_captured(p, v) == (exists|k: int|
            0 <= k < p.scalars.len() && v == ValueId((#[trigger] p.scalars[k]).0)));
    }
    assert forall|k: int| 0 <= k < p.scalars.len() implies (m.captured)(
        load_symbol((#[trigger] p.scalars[k]).1, p.scalars[k].2),
        ctx,
        (m.literal)(crate::ir::Constant::I64(p.scalars[k].3)),
    ) == first.vals[ValueId(p.scalars[k].0)] by {
        assert(is_captured(p, ValueId(p.scalars[k].0)));
    }
    assert(begins(m, p, first, ctx));
    law_one_call_is_one_iteration(m, p.ir, p.sk.header, kind, first, ctx, n);
    lemma_start(c, (c.e)(y), z);
    crate::twins::lemma_iv_is_phi(c);
    lemma_begin_twins(c, y, y, z, z);
    lemma_twins(c, y, y, p.sk.header, first, first, n);
    let s = c.turn(n, y, z)->Back_0;
    if let Some(a) = p.acc {
        assert(comes_round(p, s));
        assert(one_term(c, y, y, s.vals[a.back], s.vals[a.back]));
        choose|t: B| s.vals[a.back] == (c.e)(#[trigger] (c.f)(y, t))
    } else {
        y
    }
}

/// Fewer calls end without an error where more do.
proof fn lemma_fewer(
    o: World,
    p: BodyParts,
    base: Map<ValueId, Value>,
    ctx: Value,
    order: Seq<(int, i64)>,
    j: nat,
    k: nat,
    n: nat,
    cells: Map<int, Value>,
    mem: Cells,
)
    requires
        j <= k,
        calls(o, p, base, ctx, order, k, n, cells, mem) is Some,
    ensures
        calls(o, p, base, ctx, order, j, n, cells, mem) is Some,
    decreases k,
{
    if j < k {
        lemma_fewer(o, p, base, ctx, order, j, (k - 1) as nat, n, cells, mem);
    }
}

/// Calls that end without an error change nothing that they may not write.
proof fn lemma_frames<B>(
    c: Case<B>,
    kind: RegionKind,
    ctx: Value,
    n: nat,
    lo: i64,
    mem: Cells,
    order: Seq<(int, i64)>,
    np: nat,
    k: nat,
    cs0: Seq<B>,
    cells0: Map<int, Value>,
) -> (cs: Seq<B>)
    requires
        c.p.ir.wf(),
        c.p.ir.blocks@.len() < u32::MAX,
        c.p.ir.has_block(c.p.sk.header),
        region_parts(c.p.ir, c.p.sk.header, kind) == Some(c.p),
        bound_names_distinct(c.p),
        holds_captures(c.o, c.p, c.base, ctx),
        rounds(c.o, c.p, c.base, c.end, n),
        forall|i: i64| i >= lo ==> #[trigger] c.at(i).fits(),
        covers(order, lo, c.end, np),
        cs0.len() == np,
        forall|q: int| 0 <= q < np ==> #[trigger] cells0[q] == (c.e)(cs0[q]),
        k <= order.len(),
        calls(c.o, c.p, c.base, ctx, order, k, n, cells0, mem) is Some,
    ensures
        cs.len() == np,
        ({
            let (cells, w) = calls(c.o, c.p, c.base, ctx, order, k, n, cells0, mem)->0;
            &&& forall|q: int| 0 <= q < np ==> #[trigger] cells[q] == (c.e)(cs[q])
            &&& forall|e: (LocalId, int)|
                #![trigger same(mem, w, e)]
                written_before(c.p, order, k, e) || same(mem, w, e)
        }),
    decreases k,
{
    if k == 0 {
        cs0
    } else {
        let p = (k - 1) as nat;
        let before = lemma_frames(c, kind, ctx, n, lo, mem, order, np, p, cs0, cells0);
        let (cells, z) = calls(c.o, c.p, c.base, ctx, order, p, n, cells0, mem)->0;
        let (now, w) = calls(c.o, c.p, c.base, ctx, order, k, n, cells0, mem)->0;
        let (who, i) = order[p as int];
        assert(iterations(order)[p as int] == i);
        assert(iterations(order).contains(i));
        assert(0 <= who < np);
        assert(cells[who] == (c.e)(before[who]));
        assert(c.at(i).fits());
        let t = lemma_comes_back(c.at(i), kind, ctx, n, before[who], z);
        let cs = before.update(
            who,
            if c.p.acc is Some {
                (c.f)(before[who], t)
            } else {
                before[who]
            },
        );
        assert forall|q: int| 0 <= q < np implies #[trigger] now[q] == (c.e)(cs[q]) by {
            if q != who {
                assert(cells[q] == (c.e)(before[q]));
            }
        }
        assert forall|e: (LocalId, int)|
            #![trigger same(mem, w, e)]
            written_before(c.p, order, k, e) || same(mem, w, e) by {
            assert(written_before(c.p, order, p, e) || same(mem, z, e));
            assert(written(c.p, i as int, e) || same(z, w, e));
            if written_before(c.p, order, p, e) {
                let j = choose|j: int| 0 <= j < p && written(c.p, (#[trigger] order[j]).1 as int, e);
                assert(written(c.p, order[j].1 as int, e));
            }
            if written(c.p, i as int, e) {
                assert(written(c.p, order[p as int].1 as int, e));
            }
        }
        cs
    }
}

/// A loop that ends with an error has gone through rounds up to the iteration that ends so.
proof fn lemma_halted<B>(c: Case<B>, unit: B, n: nat, r: nat, lo: i64, x: B, w: Cells) -> (res: (
    Seq<B>,
    Seq<Cells>,
    B,
))
    requires
        forall|i: i64| i >= lo ==> #[trigger] c.at(i).fits(),
        bound_names_distinct(c.p),
        combines(c.f, unit),
        injective(c.e),
        rounds(c.o, c.p, c.base, c.end, n),
        loop_from(c.o, c.p, c.base, Value::I64(lo), (c.e)(x), w, n, r) is Halted,
    ensures
        ({
            let (terms, mems, y) = res;
            &&& traced(c, n, lo, terms, mems)
            &&& mems[0] == w
            &&& lo + terms.len() < c.end
            &&& c.at((lo + terms.len()) as i64).turn(n, y, mems.last()) is Halted
        }),
    decreases r,
{
    let k = c.at(lo);
    assert(k.fits());
    assert(k.turn(n, x, w) == iterate(
        meaning(c.o),
        c.p,
        c.p.sk.header,
        starts(c.p, c.base, Value::I64(lo), (c.e)(x), w),
        n,
    ));
    match k.turn(n, x, w) {
        Ended::Back(s) => {
            let t = lemma_does(k, unit, n, x, w);
            let y = if c.p.acc is Some {
                (c.f)(x, t)
            } else {
                x
            };
            let next = (lo + 1) as i64;
            let (ts, ms, z) = lemma_halted(c, unit, n, (r - 1) as nat, next, y, s.mem);
            let terms = seq![t] + ts;
            let mems = seq![w] + ms;
            assert forall|j: int| 0 <= j < terms.len() implies does(
                c.at((lo + j) as i64),
                n,
                mems[j],
                mems[j + 1],
                #[trigger] terms[j],
            ) by {
                if j > 0 {
                    assert(terms[j] == ts[j - 1]);
                    assert((next + (j - 1)) as i64 == (lo + j) as i64);
                }
            }
            assert((next + ts.len()) as i64 == (lo + terms.len()) as i64);
            assert(mems.last() == ms.last());
            (terms, mems, z)
        },
        _ => (Seq::empty(), seq![w], x),
    }
}

/// Where the loop ends with an error, some call of every schedule does.
proof fn lemma_parts_halt<B>(
    c: Case<B>,
    unit: B,
    kind: RegionKind,
    ctx: Value,
    n: nat,
    r: nat,
    lo: i64,
    seed: B,
    mem: Cells,
    order: Seq<(int, i64)>,
    np: nat,
    cs0: Seq<B>,
    cells0: Map<int, Value>,
)
    requires
        c.p.ir.wf(),
        c.p.ir.blocks@.len() < u32::MAX,
        c.p.ir.has_block(c.p.sk.header),
        region_parts(c.p.ir, c.p.sk.header, kind) == Some(c.p),
        bound_names_distinct(c.p),
        holds_captures(c.o, c.p, c.base, ctx),
        combines(c.f, unit),
        injective(c.e),
        rounds(c.o, c.p, c.base, c.end, n),
        forall|i: i64| i >= lo ==> #[trigger] c.at(i).fits(),
        covers(order, lo, c.end, np),
        apart(c.p, lo, c.end),
        cs0.len() == np,
        forall|q: int| 0 <= q < np ==> #[trigger] cells0[q] == (c.e)(cs0[q]),
        loop_from(c.o, c.p, c.base, Value::I64(lo), (c.e)(seed), mem, n, r) is Halted,
    ensures
        calls(c.o, c.p, c.base, ctx, order, order.len(), n, cells0, mem) is None,
{
    if calls(c.o, c.p, c.base, ctx, order, order.len(), n, cells0, mem) is Some {
        let (terms, mems, y) = lemma_halted(c, unit, n, r, lo, seed, mem);
        let i = (lo + terms.len()) as i64;
        assert(iterations(order).contains(i));
        let k = choose|k: int| 0 <= k < iterations(order).len() && iterations(order)[k] == i;
        let who = order[k].0;
        assert(order[k].1 == i);
        lemma_fewer(
            c.o,
            c.p,
            c.base,
            ctx,
            order,
            k as nat,
            order.len(),
            n,
            cells0,
            mem,
        );
        lemma_fewer(
            c.o,
            c.p,
            c.base,
            ctx,
            order,
            (k + 1) as nat,
            order.len(),
            n,
            cells0,
            mem,
        );
        let cs = lemma_frames(c, kind, ctx, n, lo, mem, order, np, k as nat, cs0, cells0);
        let (cells, z) = calls(c.o, c.p, c.base, ctx, order, k as nat, n, cells0, mem)->0;
        let d = c.at(i);
        assert(d.fits());
        assert(cells[who] == (c.e)(cs[who]));
        let t = lemma_comes_back(d, kind, ctx, n, cs[who], z);
        assert forall|e: (LocalId, int)| #[trigger] touched(c.p, i as int, e) implies same(
            z,
            mems.last(),
            e,
        ) by {
            assert(written_before(c.p, order, k as nat, e) || same(mem, z, e));
            if written_before(c.p, order, k as nat, e) {
                let j = choose|j: int| 0 <= j < k && written(c.p, (#[trigger] order[j]).1 as int, e);
                let other = order[j].1;
                assert(iterations(order)[j] == other);
                assert(iterations(order).contains(other));
                assert(other != i);
                assert(written(c.p, other as int, e));
                assert(false);
            }
            assert forall|j: int| 0 <= j < terms.len() implies !#[trigger] written(
                c.p,
                lo + j,
                e,
            ) by {
                let other = (lo + j) as i64;
                if written(c.p, lo + j, e) {
                    assert(written(c.p, other as int, e));
                }
            }
            lemma_stays(c, n, lo, terms, mems, 0, terms.len() as int, e);
        }
        let first = starts(c.p, c.base, Value::I64(i), (c.e)(cs[who]), z);
        let twin_of = starts(c.p, c.base, Value::I64(i), (c.e)(y), mems.last());
        lemma_start(d, (c.e)(cs[who]), z);
        crate::twins::lemma_iv_is_phi(d);
        lemma_begin_twins(d, cs[who], y, z, mems.last());
        lemma_twins(d, cs[who], y, c.p.sk.header, first, twin_of, n);
    }
}

// ---------------------------------------------------------------------------
// Integers
// ---------------------------------------------------------------------------

/// How the accumulator is combined.
pub open spec fn op_of(p: BodyParts) -> ReductionOp {
    match p.acc {
        Some(a) => a.spec.op,
        None => ReductionOp::Add,
    }
}

/// What the accumulators of `np` participants start from, as 64-bit integers.
pub open spec fn first_cells_i64(op: ReductionOp, seed: i64, np: nat) -> Map<int, Value> {
    Map::new(
        |q: int| 0 <= q < np,
        |q: int|
            Value::I64(first_acc(Combine::Of(op, CombineTy::I64), seed as u64, q) as i64),
    )
}

/// The accumulators of the first `n` participants combined, as 64-bit integers.
pub open spec fn total_i64(op: ReductionOp, cells: Map<int, Value>, n: nat) -> i64
    decreases n,
{
    if n <= 1 {
        cells[0]->I64_0
    } else {
        combined_i64(op, total_i64(op, cells, (n - 1) as nat), cells[n - 1]->I64_0)
    }
}

/// What the accumulators of `np` participants start from, as 32-bit integers.
pub open spec fn first_cells_i32(op: ReductionOp, seed: i32, np: nat) -> Map<int, Value> {
    Map::new(
        |q: int| 0 <= q < np,
        |q: int|
            Value::I32(
                first_acc(Combine::Of(op, CombineTy::I32), seed as u32 as u64, q) as i32,
            ),
    )
}

/// The accumulators of the first `n` participants combined, as 32-bit integers.
pub open spec fn total_i32(op: ReductionOp, cells: Map<int, Value>, n: nat) -> i32
    decreases n,
{
    if n <= 1 {
        cells[0]->I32_0
    } else {
        combined_i32(op, total_i32(op, cells, (n - 1) as nat), cells[n - 1]->I32_0)
    }
}

/// What the laws of this module ask of a region and of where it stands: every value has
/// one definition; the loop runs up to `end`; the context was packed from what the header
/// stashed;
/// from `lo` on no iteration writes what another one may touch; and subscripts are such
/// as the analysis can read, which do not wrap around.
pub open spec fn parallel(
    o: World,
    p: BodyParts,
    base: Map<ValueId, Value>,
    ctx: Value,
    lo: i64,
    end: i64,
) -> bool {
    &&& single(p.ir)
    &&& grounded(p, base, end)
    &&& stashed_context(o, p, base, ctx)
    &&& apart(p, lo, end)
    &&& forall|i: i64| lo <= i < end ==> #[trigger] readable(p, i as int)
}

/// Values that change nothing leave the first accumulator.
proof fn lemma_first_gathered<B>(f: spec_fn(B, B) -> B, cs: Seq<B>, n: nat)
    requires
        1 <= n <= cs.len(),
        forall|q: int| 1 <= q < cs.len() ==> f(cs[0], #[trigger] cs[q]) == cs[0],
    ensures
        gathered(f, cs, n) == cs[0],
    decreases n,
{
    if n > 1 {
        lemma_first_gathered(f, cs, (n - 1) as nat);
        let x = cs[n - 1];
    }
}

/// A region that is run in parts does what its loop does: whatever the order of its
/// iterations and whichever participants run them, memory is afterwards as the loop
/// leaves it, and the accumulators combined are the accumulator of the loop, bit by bit.
///
/// Accumulators are 64-bit integers; a region without an accumulator counts too. The law
/// speaks of loops that end without an error.
#[verifier::rlimit(40)]
pub proof fn law_parts_do_what_the_loop_does_i64(
    o: World,
    ir: FuncIr,
    header: BlockId,
    kind: RegionKind,
    base: Map<ValueId, Value>,
    ctx: Value,
    lo: i64,
    end: i64,
    seed: i64,
    mem: Cells,
    order: Seq<(int, i64)>,
    np: nat,
    n: nat,
    r: nat,
)
    requires
        ir.wf(),
        ir.blocks@.len() < u32::MAX,
        ir.has_block(header),
        region_parts(ir, header, kind) is Some,
        parallel(o, region_parts(ir, header, kind)->0, base, ctx, lo, end),
        loop_from(
            o,
            region_parts(ir, header, kind)->0,
            base,
            Value::I64(lo),
            Value::I64(seed),
            mem,
            n,
            r,
        ) is Done,
        covers(order, lo, end, np),
        np >= 1,
    ensures
        ({
            let p = region_parts(ir, header, kind)->0;
            let behind = loop_from(o, p, base, Value::I64(lo), Value::I64(seed), mem, n, r);
            let cells = first_cells_i64(op_of(p), seed, np);
            calls(o, p, base, ctx, order, order.len(), n, cells, mem) matches Some((after, w)) && w
                == behind->Done_1 && (p.acc is Some ==> behind->Done_0 == Value::I64(
                total_i64(op_of(p), after, np),
            ))
        }),
{
    let p = region_parts(ir, header, kind)->0;
    let op = op_of(p);
    lemma_shaped(ir, header, kind);
    lemma_holds_captures(o, ir, header, kind, base, ctx);
    lemma_combines_i64(op);
    let chain = ir.def_inst(p.acc->0.back)->0;
    let c = Case::<i64> {
        o,
        p,
        base,
        i: lo,
        end,
        e: |x: i64| Value::I64(x),
        f: by_i64(op),
        g: |t: Value| term_i64(chain, t),
    };
    assert(folds(o, p, c.e, c.f, c.g)) by {
        if p.acc is Some {
            assert forall|x: i64, t: Value| #[trigger]
                crate::folds::chain_value(o.floats, chain, chain_of(p), (c.e)(x), t) == (match (c.g)(
                    t,
                ) {
                    Some(k) => Some((c.e)((c.f)(x, k))),
                    None => None,
                }) by {
                law_chains_fold_i64(o.floats, ir, chain_of(p), x, t);
            }
        }
    }
    assert forall|i: i64| i >= lo implies #[trigger] c.at(i).fits() by {
        if i < end {
            assert(readable(p, i as int));
        }
    }
    let cells = first_cells_i64(op, seed, np);
    let cs0 = Seq::new(np, |q: int| first_acc(Combine::Of(op, CombineTy::I64), seed as u64, q) as i64);
    assert(seed as u64 as i64 == seed) by (bit_vector);
    assert forall|q: int| 1 <= q < cs0.len() implies (c.f)(cs0[0], #[trigger] cs0[q]) == cs0[0] by {
        if op == ReductionOp::Mul {
            let k = crate::partials::lemma_crop_64(seed * 1);
        }
    }
    lemma_first_gathered(c.f, cs0, np);
    let cs = lemma_parts(
        c,
        unit_i64(op),
        kind,
        ctx,
        n,
        r,
        lo,
        seed,
        mem,
        order,
        np,
        cs0,
        cells,
    );
    let (after, w) = calls(o, p, base, ctx, order, order.len(), n, cells, mem)->0;
    lemma_total_i64(op, cs, after, np, np);
}

/// Accumulators combined as values are combined as integers.
proof fn lemma_total_i64(op: ReductionOp, cs: Seq<i64>, cells: Map<int, Value>, np: nat, n: nat)
    requires
        1 <= n <= np,
        cs.len() == np,
        forall|q: int| 0 <= q < np ==> #[trigger] cells[q] == Value::I64(cs[q]),
    ensures
        total_i64(op, cells, n) == gathered(by_i64(op), cs, n),
    decreases n,
{
    assert(cells[0] == Value::I64(cs[0]));
    if n > 1 {
        lemma_total_i64(op, cs, cells, np, (n - 1) as nat);
        assert(cells[n - 1] == Value::I64(cs[n - 1]));
    }
}

/// The same for accumulators that are 32-bit integers.
#[verifier::rlimit(40)]
pub proof fn law_parts_do_what_the_loop_does_i32(
    o: World,
    ir: FuncIr,
    header: BlockId,
    kind: RegionKind,
    base: Map<ValueId, Value>,
    ctx: Value,
    lo: i64,
    end: i64,
    seed: i32,
    mem: Cells,
    order: Seq<(int, i64)>,
    np: nat,
    n: nat,
    r: nat,
)
    requires
        ir.wf(),
        ir.blocks@.len() < u32::MAX,
        ir.has_block(header),
        region_parts(ir, header, kind) is Some,
        parallel(o, region_parts(ir, header, kind)->0, base, ctx, lo, end),
        loop_from(
            o,
            region_parts(ir, header, kind)->0,
            base,
            Value::I64(lo),
            Value::I32(seed),
            mem,
            n,
            r,
        ) is Done,
        covers(order, lo, end, np),
        np >= 1,
    ensures
        ({
            let p = region_parts(ir, header, kind)->0;
            let behind = loop_from(o, p, base, Value::I64(lo), Value::I32(seed), mem, n, r);
            let cells = first_cells_i32(op_of(p), seed, np);
            calls(o, p, base, ctx, order, order.len(), n, cells, mem) matches Some((after, w)) && w
                == behind->Done_1 && (p.acc is Some ==> behind->Done_0 == Value::I32(
                total_i32(op_of(p), after, np),
            ))
        }),
{
    let p = region_parts(ir, header, kind)->0;
    let op = op_of(p);
    lemma_shaped(ir, header, kind);
    lemma_holds_captures(o, ir, header, kind, base, ctx);
    lemma_combines_i32(op);
    let chain = ir.def_inst(p.acc->0.back)->0;
    let c = Case::<i32> {
        o,
        p,
        base,
        i: lo,
        end,
        e: |x: i32| Value::I32(x),
        f: by_i32(op),
        g: |t: Value| term_i32(chain, t),
    };
    assert(folds(o, p, c.e, c.f, c.g)) by {
        if p.acc is Some {
            assert forall|x: i32, t: Value| #[trigger]
                crate::folds::chain_value(o.floats, chain, chain_of(p), (c.e)(x), t) == (match (c.g)(
                    t,
                ) {
                    Some(k) => Some((c.e)((c.f)(x, k))),
                    None => None,
                }) by {
                law_chains_fold_i32(o.floats, ir, chain_of(p), x, t);
            }
        }
    }
    assert forall|i: i64| i >= lo implies #[trigger] c.at(i).fits() by {
        if i < end {
            assert(readable(p, i as int));
        }
    }
    let cells = first_cells_i32(op, seed, np);
    let cs0 = Seq::new(
        np,
        |q: int| first_acc(Combine::Of(op, CombineTy::I32), seed as u32 as u64, q) as i32,
    );
    assert(seed as u32 as u64 as i32 == seed) by (bit_vector);
    assert forall|q: int| 1 <= q < cs0.len() implies (c.f)(cs0[0], #[trigger] cs0[q]) == cs0[0] by {
        if op == ReductionOp::Mul {
            let k = crate::partials::lemma_crop_32(seed * 1);
        }
    }
    lemma_first_gathered(c.f, cs0, np);
    let cs = lemma_parts(
        c,
        unit_i32(op),
        kind,
        ctx,
        n,
        r,
        lo,
        seed,
        mem,
        order,
        np,
        cs0,
        cells,
    );
    let (after, w) = calls(o, p, base, ctx, order, order.len(), n, cells, mem)->0;
    lemma_total_i32(op, cs, after, np, np);
}

/// Accumulators combined as values are combined as integers.
proof fn lemma_total_i32(op: ReductionOp, cs: Seq<i32>, cells: Map<int, Value>, np: nat, n: nat)
    requires
        1 <= n <= np,
        cs.len() == np,
        forall|q: int| 0 <= q < np ==> #[trigger] cells[q] == Value::I32(cs[q]),
    ensures
        total_i32(op, cells, n) == gathered(by_i32(op), cs, n),
    decreases n,
{
    assert(cells[0] == Value::I32(cs[0]));
    if n > 1 {
        lemma_total_i32(op, cs, cells, np, (n - 1) as nat);
        assert(cells[n - 1] == Value::I32(cs[n - 1]));
    }
}

/// Where the loop ends with an error, no schedule of its iterations ends without one: some
/// call of the body does not come back, whatever the order and whoever makes it. Which error
/// comes first is not said: it depends on the order.
///
/// Accumulators are 64-bit integers; a region without an accumulator counts too.
pub proof fn law_parts_halt_where_the_loop_halts_i64(
    o: World,
    ir: FuncIr,
    header: BlockId,
    kind: RegionKind,
    base: Map<ValueId, Value>,
    ctx: Value,
    lo: i64,
    end: i64,
    seed: i64,
    mem: Cells,
    order: Seq<(int, i64)>,
    np: nat,
    n: nat,
    r: nat,
)
    requires
        ir.wf(),
        ir.blocks@.len() < u32::MAX,
        ir.has_block(header),
        region_parts(ir, header, kind) is Some,
        parallel(o, region_parts(ir, header, kind)->0, base, ctx, lo, end),
        rounds(o, region_parts(ir, header, kind)->0, base, end, n),
        loop_from(
            o,
            region_parts(ir, header, kind)->0,
            base,
            Value::I64(lo),
            Value::I64(seed),
            mem,
            n,
            r,
        ) is Halted,
        covers(order, lo, end, np),
    ensures
        ({
            let p = region_parts(ir, header, kind)->0;
            let cells = first_cells_i64(op_of(p), seed, np);
            calls(o, p, base, ctx, order, order.len(), n, cells, mem) is None
        }),
{
    let p = region_parts(ir, header, kind)->0;
    let op = op_of(p);
    lemma_shaped(ir, header, kind);
    lemma_holds_captures(o, ir, header, kind, base, ctx);
    lemma_combines_i64(op);
    let chain = ir.def_inst(p.acc->0.back)->0;
    let c = Case::<i64> {
        o,
        p,
        base,
        i: lo,
        end,
        e: |x: i64| Value::I64(x),
        f: by_i64(op),
        g: |t: Value| term_i64(chain, t),
    };
    assert(folds(o, p, c.e, c.f, c.g)) by {
        if p.acc is Some {
            assert forall|x: i64, t: Value| #[trigger]
                crate::folds::chain_value(o.floats, chain, chain_of(p), (c.e)(x), t) == (match (c.g)(
                    t,
                ) {
                    Some(k) => Some((c.e)((c.f)(x, k))),
                    None => None,
                }) by {
                law_chains_fold_i64(o.floats, ir, chain_of(p), x, t);
            }
        }
    }
    assert forall|i: i64| i >= lo implies #[trigger] c.at(i).fits() by {
        if i < end {
            assert(readable(p, i as int));
        }
    }
    let cells = first_cells_i64(op, seed, np);
    let cs0 = Seq::new(np, |q: int| first_acc(Combine::Of(op, CombineTy::I64), seed as u64, q) as i64);
    lemma_parts_halt(
        c,
        unit_i64(op),
        kind,
        ctx,
        n,
        r,
        lo,
        seed,
        mem,
        order,
        np,
        cs0,
        cells,
    );
}

/// The same for accumulators that are 32-bit integers.
pub proof fn law_parts_halt_where_the_loop_halts_i32(
    o: World,
    ir: FuncIr,
    header: BlockId,
    kind: RegionKind,
    base: Map<ValueId, Value>,
    ctx: Value,
    lo: i64,
    end: i64,
    seed: i32,
    mem: Cells,
    order: Seq<(int, i64)>,
    np: nat,
    n: nat,
    r: nat,
)
    requires
        ir.wf(),
        ir.blocks@.len() < u32::MAX,
        ir.has_block(header),
        region_parts(ir, header, kind) is Some,
        parallel(o, region_parts(ir, header, kind)->0, base, ctx, lo, end),
        rounds(o, region_parts(ir, header, kind)->0, base, end, n),
        loop_from(
            o,
            region_parts(ir, header, kind)->0,
            base,
            Value::I64(lo),
            Value::I32(seed),
            mem,
            n,
            r,
        ) is Halted,
        covers(order, lo, end, np),
    ensures
        ({
            let p = region_parts(ir, header, kind)->0;
            let cells = first_cells_i32(op_of(p), seed, np);
            calls(o, p, base, ctx, order, order.len(), n, cells, mem) is None
        }),
{
    let p = region_parts(ir, header, kind)->0;
    let op = op_of(p);
    lemma_shaped(ir, header, kind);
    lemma_holds_captures(o, ir, header, kind, base, ctx);
    lemma_combines_i32(op);
    let chain = ir.def_inst(p.acc->0.back)->0;
    let c = Case::<i32> {
        o,
        p,
        base,
        i: lo,
        end,
        e: |x: i32| Value::I32(x),
        f: by_i32(op),
        g: |t: Value| term_i32(chain, t),
    };
    assert(folds(o, p, c.e, c.f, c.g)) by {
        if p.acc is Some {
            assert forall|x: i32, t: Value| #[trigger]
                crate::folds::chain_value(o.floats, chain, chain_of(p), (c.e)(x), t) == (match (c.g)(
                    t,
                ) {
                    Some(k) => Some((c.e)((c.f)(x, k))),
                    None => None,
                }) by {
                law_chains_fold_i32(o.floats, ir, chain_of(p), x, t);
            }
        }
    }
    assert forall|i: i64| i >= lo implies #[trigger] c.at(i).fits() by {
        if i < end {
            assert(readable(p, i as int));
        }
    }
    let cells = first_cells_i32(op, seed, np);
    let cs0 = Seq::new(np, |q: int| first_acc(Combine::Of(op, CombineTy::I32), seed as u32 as u64, q) as i32);
    lemma_parts_halt(
        c,
        unit_i32(op),
        kind,
        ctx,
        n,
        r,
        lo,
        seed,
        mem,
        order,
        np,
        cs0,
        cells,
    );
}

/// Where the words of the participants hold their accumulators, what the dispatcher
/// gathers is the accumulators combined.
pub proof fn law_dispatchers_gather_the_total_i64(
    g: FloatModel,
    words: Seq<u64>,
    ctx_words: int,
    op: ReductionOp,
    cells: Map<int, Value>,
    n: nat,
)
    requires
        n >= 1,
        forall|q: int|
            0 <= q < n ==> #[trigger] cells[q] == Value::I64(
                words[cell_word(ctx_words, q, 1)] as i64,
            ),
    ensures
        total(Combine::Of(op, CombineTy::I64), g, words, ctx_words, n) as i64 == total_i64(
            op,
            cells,
            n,
        ),
    decreases n,
{
    assert(cell_word(ctx_words, 0, 1) == ctx_words + 1);
    assert(cells[0] == Value::I64(words[cell_word(ctx_words, 0, 1)] as i64));
    if n > 1 {
        law_dispatchers_gather_the_total_i64(g, words, ctx_words, op, cells, (n - 1) as nat);
        assert(cells[n - 1] == Value::I64(words[cell_word(ctx_words, n - 1, 1)] as i64));
        let x = total_i64(op, cells, n);
        assert((x as u64) as i64 == x) by (bit_vector);
    }
}

// ---------------------------------------------------------------------------
// Approved loops
// ---------------------------------------------------------------------------

/// A load or a store of a block is one of its accesses.
proof fn lemma_block_touch(
    func: FuncIr,
    blocks: Seq<BlockId>,
    iv: ValueId,
    insts: Seq<Inst>,
    base: int,
    k: nat,
    j: int,
) -> (p: int)
    requires
        0 <= j < k <= insts.len(),
        touches(insts[j]) is Some,
    ensures
        ({
            let s = block_touches(func, blocks, iv, insts, base, k);
            let (arr, idx, is_write) = touches(insts[j])->0;
            0 <= p < s.len() && s[p] == (Touch {
                arr,
                is_write,
                site: base + j,
                affine: crate::access::index_form(func, blocks, iv, idx),
                gathered: gathers(func, blocks, idx, MAX_GATHER as nat),
            })
        }),
    decreases k,
{
    let before = block_touches(func, blocks, iv, insts, base, (k - 1) as nat);
    if j == k - 1 {
        before.len() as int
    } else {
        lemma_block_touch(func, blocks, iv, insts, base, (k - 1) as nat, j)
    }
}

/// A load or a store of a loop is one of its accesses.
proof fn lemma_loop_touch(
    func: FuncIr,
    blocks: Seq<BlockId>,
    iv: ValueId,
    n: nat,
    b: int,
    j: int,
) -> (p: int)
    requires
        0 <= b < n <= blocks.len(),
        0 <= j < func.at(blocks[b]).insts@.len(),
        touches(func.at(blocks[b]).insts@[j]) is Some,
    ensures
        ({
            let s = loop_touches(func, blocks, iv, n);
            let (arr, idx, is_write) = touches(func.at(blocks[b]).insts@[j])->0;
            0 <= p < s.len() && s[p] == (Touch {
                arr,
                is_write,
                site: inst_count(func, blocks, b as nat) + j,
                affine: crate::access::index_form(func, blocks, iv, idx),
                gathered: gathers(func, blocks, idx, MAX_GATHER as nat),
            })
        }),
    decreases n,
{
    let before = loop_touches(func, blocks, iv, (n - 1) as nat);
    let insts = func.at(blocks[n - 1]).insts@;
    let base = inst_count(func, blocks, (n - 1) as nat) as int;
    if b == n - 1 {
        let p = lemma_block_touch(func, blocks, iv, insts, base, insts.len(), j);
        before.len() + p
    } else {
        lemma_loop_touch(func, blocks, iv, (n - 1) as nat, b, j)
    }
}

/// The iterations of an approved loop are apart, where the analysis can read the
/// subscripts of its writes.
///
/// The loop counts by the induction value that it is taken out with, and touches no array
/// that has the name of its accumulator.
pub proof fn law_approved_regions_are_apart(
    ir: FuncIr,
    id: int,
    header: BlockId,
    depth: u32,
    kind: RegionKind,
    lo: i64,
    end: i64,
)
    requires
        ir.wf(),
        ir.has_block(header),
        region_parts(ir, header, kind) is Some,
        ({
            let p = region_parts(ir, header, kind)->0;
            let blocks = natural_loop(ir, header);
            let c = canonical(ir, header, blocks);
            let recognized = crate::reduce::reductions(ir, blocks, seq![c->0.iv]);
            &&& !(crate::plan::report_of(ir, id, header, blocks, depth).verdict is Stays)
            &&& c is Some
            &&& c->0.iv_value_in_loop == p.sk.iv_dst
            &&& forall|i: i64| lo <= i < end ==> #[trigger] readable(p, i as int)
            &&& forall|i: i64| lo <= i < end ==> #[trigger] crate::plan::range_of(c).has(i as int)
            &&& end - lo <= i64::MAX
            &&& recognized.len() > 0 ==> forall|k: int|
                0 <= k < accesses_of(ir, blocks, p.sk.iv_dst).len() ==> (#[trigger] accesses_of(
                    ir,
                    blocks,
                    p.sk.iv_dst,
                )[k]).arr != recognized[0].var
        }),
    ensures
        apart(region_parts(ir, header, kind)->0, lo, end),
{
    let p = region_parts(ir, header, kind)->0;
    let blocks = p.sk.blocks;
    let iv = p.sk.iv_dst;
    let s = accesses_of(ir, blocks, iv);
    assert forall|i: i64, j: i64, c: (LocalId, int)|
        lo <= i < end && lo <= j < end && i != j && #[trigger] written(p, i as int, c) implies !(
    #[trigger] touched(p, j as int, c)) by {
        if touched(p, j as int, c) {
            let (b1, k1) = choose|b: BlockId, k: int|
                p.sk.blocks.contains(b) && 0 <= k < p.ir.at(b).insts@.len()
                    && crate::twins::inst_writes(p, #[trigger] p.ir.at(b).insts@[k], i as int, c);
            let (b2, k2) = choose|b: BlockId, k: int|
                p.sk.blocks.contains(b) && 0 <= k < p.ir.at(b).insts@.len()
                    && crate::twins::inst_touches(p, #[trigger] p.ir.at(b).insts@[k], j as int, c);
            let q1 = choose|q: int| 0 <= q < blocks.len() && blocks[q] == b1;
            let q2 = choose|q: int| 0 <= q < blocks.len() && blocks[q] == b2;
            let x = lemma_loop_touch(ir, blocks, iv, blocks.len(), q1, k1);
            let y = lemma_loop_touch(ir, blocks, iv, blocks.len(), q2, k2);
            assert(s[x].arr == s[y].arr && s[x].is_write && s[x].affine is Some);
            assert(crate::plan::range_of(canonical(ir, header, blocks)).has(i as int));
            assert(crate::plan::range_of(canonical(ir, header, blocks)).has(j as int));
            if x <= y {
                law_approved_iterations_are_independent(
                    ir,
                    id,
                    header,
                    blocks,
                    depth,
                    x,
                    y,
                    i as int,
                    j as int,
                    0,
                    0,
                );
            } else {
                law_approved_iterations_are_independent(
                    ir,
                    id,
                    header,
                    blocks,
                    depth,
                    y,
                    x,
                    j as int,
                    i as int,
                    0,
                    0,
                );
            }
        }
    }
}

} // verus!
