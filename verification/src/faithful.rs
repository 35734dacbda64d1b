//! Whole functions in machine code: they do what the functions do, with their memory, their
//! calls and their errors.
use vstd::prelude::*;

use crate::acts::{act, acts, declared, enters, performs, taken_on, Act, End, Src, Stage};
use crate::clif::{scalar_ty, ClifTy, OpV, Val};
use crate::cpu::{comes, lemma_comes, lemma_comes_on, passed_on, tick, values, Config, Reply, Scene};
use crate::drives::{alarms, at, follows, frames, lemma_act, lemma_computes, meets};
use crate::error::Span;
use crate::functions::{
    begun, defined_in, is_param, lemma_block, lemma_bound, ordinary, phi_at, stage,
};
use crate::ir::{BlockId, FuncIr, Inst, Term, ValueId};
use crate::lays::{
    emits, grows, lays, lemma_grows_on, lemma_grows_self, lemma_ins, lemma_inst_lays,
    lemma_lays_on, lemma_put, makes, names, one_result, room, sound, there, unnamed, within,
};
use crate::lower::{edge_arg, zero_op, FatPtr, Low, SelfUse, Setting};
use crate::operators::{scalar, type_of};
use crate::transfer::{
    adds, carries, end_known, handed_on, known, leaves_as, lemma_term, machine_values, own_phis,
    unended,
};
use crate::twins::single;
use crate::value::Value;

verus! {

// ---------------------------------------------------------------------------
// What blocks add
// ---------------------------------------------------------------------------

/// An instruction among the first `k` makes the array.
pub open spec fn made_in(code: Seq<Inst>, k: nat, a: u32) -> bool {
    exists|j: int| 0 <= j < k && makes(#[trigger] code[j]) == Some(a)
}

/// Names of values and arrays stay, but for those that the code gives.
pub open spec fn names_all(l: Low, s: Low, code: Seq<Inst>, k: nat) -> bool {
    &&& forall|v: u32|
        #![trigger s.vals.dom().contains(v)]
        #![trigger s.vals[v]]
        !defined_in(code, k, v) ==> s.vals.dom().contains(v) == l.vals.dom().contains(v)
            && s.vals[v] == l.vals[v]
    &&& forall|a: u32|
        #![trigger s.arrays.dom().contains(a)]
        #![trigger s.arrays[a]]
        !made_in(code, k, a) ==> s.arrays.dom().contains(a) == l.arrays.dom().contains(a)
            && s.arrays[a] == l.arrays[a]
}

/// What the first `k` instructions of a list add.
#[verifier::rlimit(40)]
pub proof fn lemma_insts_lays(l: Low, code: Seq<Inst>, k: nat, bar: Set<Val>)
    requires
        sound(l),
        room(l, 64 + 24 * k as int),
        one_result(l),
        unnamed(l, bar),
        there(l, bar),
        k <= code.len(),
        l.insts(code, k) is Ok,
    ensures
        ({
            let s = l.insts(code, k)->Ok_0;
            &&& lays(l, s)
            &&& within(l, s, 24 * k as int)
            &&& unnamed(s, bar)
            &&& names_all(l, s, code, k)
        }),
    decreases k,
{
    if k == 0 {
        lemma_grows_self(l);
    } else {
        let p = (k - 1) as nat;
        lemma_insts_lays(l, code, p, bar);
        let s = l.insts(code, p)->Ok_0;
        let i = code[k - 1];
        assert forall|q: Val| #[trigger] bar.contains(q) implies s.has(q) by {
            assert(l.has(q));
        }
        assert(one_result(s));
        lemma_inst_lays(s, i, bar);
        let t = s.inst(i)->Ok_0;
        lemma_lays_on(l, s, t);
        assert forall|v: u32|
            #![trigger t.vals.dom().contains(v)]
            #![trigger t.vals[v]]
            !defined_in(code, k, v) implies t.vals.dom().contains(v) == l.vals.dom().contains(v)
            && t.vals[v] == l.vals[v] by {
            if defined_in(code, p, v) {
                let j = choose|j: int| 0 <= j < p && (#[trigger] code[j]).def() == Some(ValueId(v));
                assert(code[j].def() == Some(ValueId(v)));
            }
            assert(code[k - 1].def() != Some(ValueId(v)));
            assert(t.vals.dom().contains(v) == s.vals.dom().contains(v) && t.vals[v] == s.vals[v]);
        }
        assert forall|a: u32|
            #![trigger t.arrays.dom().contains(a)]
            #![trigger t.arrays[a]]
            !made_in(code, k, a) implies t.arrays.dom().contains(a) == l.arrays.dom().contains(a)
            && t.arrays[a] == l.arrays[a] by {
            if made_in(code, p, a) {
                let j = choose|j: int| 0 <= j < p && makes(#[trigger] code[j]) == Some(a);
                assert(makes(code[j]) == Some(a));
            }
            assert(makes(code[k - 1]) != Some(a));
            assert(t.arrays.dom().contains(a) == s.arrays.dom().contains(a) && t.arrays[a]
                == s.arrays[a]);
        }
    }
}

/// What the arguments of an edge add.
pub proof fn lemma_edge_lays(l: Low, a: BlockId, b: BlockId, k: nat)
    requires
        sound(l),
        room(l, 8 + k as int),
    ensures
        emits(l, l.edge(a, b, k).0, k as int),
        l.edge(a, b, k).0.cur == l.cur,
        l.edge(a, b, k).0.blocks.len() == l.blocks.len(),
    decreases k,
{
    if k == 0 {
        lemma_grows_self(l);
    } else {
        lemma_edge_lays(l, a, b, (k - 1) as nat);
        let s = l.edge(a, b, (k - 1) as nat).0;
        let t = scalar_ty(l.source_ty(l.ir.at(b).phis@[k - 1].dst));
        lemma_ins(s, zero_op(t), t);
        lemma_lays_on(l, s, s.ins(zero_op(t), t));
    }
}

/// What the end of a block adds.
pub proof fn lemma_term_lays(l: Low, b: usize)
    requires
        sound(l),
        b <= u32::MAX,
        room(l, 16 + handed_on(l.ir, BlockId(b as u32)) as int),
        l.term(seq![], b) is Ok,
    ensures
        emits(l, l.term(seq![], b)->Ok_0, 1 + handed_on(l.ir, BlockId(b as u32)) as int),
        l.term(seq![], b)->Ok_0.cur == l.cur,
{
    let me = BlockId(b as u32);
    let s = l.term(seq![], b)->Ok_0;
    assert(l.extras(Seq::<SelfUse>::empty(), b, 0) == Ok::<Seq<Val>, Seq<char>>(seq![]));
    match l.ir.at(me).term {
        Term::Jump(t, _) => {
            let n = l.ir.at(t).phis@.len();
            lemma_edge_lays(l, me, t, n);
            let (s1, xs) = l.whole_edge(me, t);
            let op = OpV::Jump(t.0 as usize, xs + Seq::<Val>::empty());
            lemma_put(s1, op, seq![]);
            lemma_lays_on(l, s1, s);
        },
        Term::Branch { cond, t, f } => {
            let n = l.ir.at(t).phis@.len();
            let m = l.ir.at(f).phis@.len();
            lemma_edge_lays(l, me, t, n);
            let (s1, xs) = l.whole_edge(me, t);
            lemma_edge_lays(s1, me, f, m);
            let (s2, ys) = s1.whole_edge(me, f);
            lemma_lays_on(l, s1, s2);
            let op = OpV::Brif(
                l.lookup(cond)->Ok_0,
                t.0 as usize,
                xs + Seq::<Val>::empty(),
                f.0 as usize,
                ys + Seq::<Val>::empty(),
            );
            lemma_put(s2, op, seq![]);
            lemma_lays_on(l, s2, s);
        },
        Term::Return(v) => {
            let op = match v {
                Some(v) => OpV::Return(seq![l.lookup(v)->Ok_0]),
                None => OpV::Return(seq![]),
            };
            lemma_put(l, op, seq![]);
        },
    }
}

/// How much a block may add.
pub open spec fn weight(ir: FuncIr, b: int) -> nat {
    24 * ir.blocks@[b].insts@.len() + handed_on(ir, BlockId(b as u32)) + 1
}

/// How much the first `k` blocks may add.
pub open spec fn weights(ir: FuncIr, k: nat) -> nat
    decreases k,
{
    if k == 0 {
        0
    } else {
        weights(ir, (k - 1) as nat) + weight(ir, k - 1)
    }
}

/// What a block adds.
pub proof fn lemma_filled_lays(l: Low, b: usize, bar: Set<Val>)
    requires
        sound(l),
        one_result(l),
        unnamed(l, bar),
        there(l, bar),
        (b as int) < l.ir.blocks@.len() <= u32::MAX,
        room(l, 96 + weight(l.ir, b as int) as int),
        l.filled(seq![], None, b) is Ok,
    ensures
        ({
            let s = l.filled(seq![], None, b)->Ok_0;
            let code = l.ir.blocks@[b as int].insts@;
            &&& lays(l, s)
            &&& within(l, s, weight(l.ir, b as int) as int)
            &&& unnamed(s, bar)
            &&& names_all(l, s, code, code.len())
            &&& l.insts(code, code.len()) is Ok
            &&& lays(l.insts(code, code.len())->Ok_0, s)
            &&& s.vals == l.insts(code, code.len())->Ok_0.vals
            &&& s.arrays == l.insts(code, code.len())->Ok_0.arrays
            &&& l.insts(code, code.len())->Ok_0.term(seq![], b) == Ok::<Low, Seq<char>>(s)
        }),
{
    let code = l.ir.blocks@[b as int].insts@;
    lemma_insts_lays(l, code, code.len(), bar);
    let s3 = l.insts(code, code.len())->Ok_0;
    lemma_term_lays(s3, b);
    lemma_lays_on(l, s3, l.filled(seq![], None, b)->Ok_0);
}

// ---------------------------------------------------------------------------
// All blocks
// ---------------------------------------------------------------------------

/// The parameters of the blocks from `k` on, but for the entry.
pub open spec fn params_from(l0: Low, k: int) -> Set<Val> {
    Set::new(|q: Val| exists|b: int, j: int| k <= b && #[trigger] is_param(l0, b, j, q))
}

/// A lowering that is ready for the first block.
pub open spec fn prepared(l: Low) -> bool {
    let n = l.ir.blocks@.len();
    &&& sound(l)
    &&& one_result(l)
    &&& l.blocks.len() == n
    &&& n <= u32::MAX
    &&& l.ir.entry == BlockId(0)
    &&& l.cur == 0
    &&& l.panic is None
    &&& forall|b: int| 0 < b < n ==> (#[trigger] l.blocks[b]).insts.len() == 0
    &&& forall|b: int|
        0 < b < n ==> (#[trigger] l.blocks[b]).params.len() >= l.ir.blocks@[b].phis@.len()
    &&& forall|b: int, j: int, c: int, k: int, q: Val| #[trigger]
        is_param(l, b, j, q) && #[trigger] is_param(l, c, k, q) ==> b == c && j == k
    &&& unnamed(l, params_from(l, 1))
    &&& forall|b: int, j: int|
        #![trigger l.ir.blocks@[b].phis@[j]]
        0 < b < n && 0 <= j < l.ir.blocks@[b].phis@.len() ==> l.ty_of(l.blocks[b].params[j])
            == scalar_ty(declared(l.ir, l.ir.blocks@[b].phis@[j].dst))
    &&& forall|v: u32| #[trigger]
        l.vals.dom().contains(v) ==> l.ir.def_inst(ValueId(v)) is None && (forall|b: int, j: int|
            0 < b < n ==> !#[trigger] phi_at(l.ir, b, j, v))
    &&& forall|a: u32, b: int|
        #![trigger l.arrays.dom().contains(a), l.ir.blocks@[b]]
        l.arrays.dom().contains(a) && 0 <= b < n ==> !made_in(
            l.ir.blocks@[b].insts@,
            l.ir.blocks@[b].insts@.len(),
            a,
        )
    &&& l.prebind.len() > 0 ==> l.arrays == Map::<u32, FatPtr>::empty() && forall|b: int, a: u32|
        0 <= b < n ==> !#[trigger] made_in(l.ir.blocks@[b].insts@, l.ir.blocks@[b].insts@.len(), a)
}

/// Every array is made in one block at most.
pub open spec fn made_once(ir: FuncIr) -> bool {
    forall|b: int, c: int, a: u32|
        0 <= b < ir.blocks@.len() && 0 <= c < ir.blocks@.len() && #[trigger] made_in(
            ir.blocks@[b].insts@,
            ir.blocks@[b].insts@.len(),
            a,
        ) && #[trigger] made_in(ir.blocks@[c].insts@, ir.blocks@[c].insts@.len(), a) ==> b == c
}

/// What the laws about functions ask of a function and its lowering.
#[verifier::opaque]
pub open spec fn lowers(l0: Low, st: Setting) -> bool {
    let n = l0.ir.blocks@.len();
    &&& prepared(l0)
    &&& ordinary(st)
    &&& l0.ir.wf()
    &&& single(l0.ir)
    &&& made_once(l0.ir)
    &&& forall|b: usize| b < n ==> #[trigger] own_phis(l0.ir, b)
    &&& room(l0, 256 + weights(l0.ir, n) as int)
    &&& l0.all_blocks(st, n) is Ok
}

/// Where the name of a value comes from.
pub open spec fn comes_of(l0: Low, k: int, v: u32) -> bool {
    ||| l0.vals.dom().contains(v)
    ||| exists|b: int, j: int| 0 < b < k && #[trigger] phi_at(l0.ir, b, j, v)
    ||| exists|b: int|
        0 <= b < k && #[trigger] defined_in(
            l0.ir.blocks@[b].insts@,
            l0.ir.blocks@[b].insts@.len(),
            v,
        )
}

/// Where the name of an array comes from.
pub open spec fn made_before(l0: Low, k: int, a: u32) -> bool {
    ||| l0.arrays.dom().contains(a)
    ||| exists|b: int|
        0 <= b < k && #[trigger] made_in(
            l0.ir.blocks@[b].insts@,
            l0.ir.blocks@[b].insts@.len(),
            a,
        )
}

/// What holds after the first `k` blocks.
pub open spec fn standing(l0: Low, st: Setting, k: nat) -> bool {
    let l = stage(l0, st, k);
    &&& l0.all_blocks(st, k) is Ok
    &&& sound(l)
    &&& grows(l0, l)
    &&& k == 0 ==> l == l0
    &&& within(l0, l, weights(l0.ir, k) as int)
    &&& forall|b: int| k <= b < l0.blocks.len() ==> #[trigger] l.blocks[b] == l0.blocks[b]
    &&& unnamed(l, params_from(l0, if k == 0 { 1 } else { k as int }))
    &&& forall|v: u32| #[trigger] l.vals.dom().contains(v) ==> comes_of(l0, k as int, v)
    &&& forall|a: u32| #[trigger] l.arrays.dom().contains(a) ==> made_before(l0, k as int, a)
}

/// What a block adds to what holds.
pub open spec fn joined(l0: Low, st: Setting, k: nat) -> bool {
    let l = stage(l0, st, k);
    let s = stage(l0, st, k + 1);
    let b = begun(l, k as usize);
    let code = l0.ir.blocks@[k as int].insts@;
    let s3 = b.insts(code, code.len())->Ok_0;
    &&& sound(b)
    &&& b.cur == k
    &&& b == (Low { cur: k as usize, vals: b.vals, ..l })
    &&& b.insts(code, code.len()) is Ok
    &&& lays(b, s)
    &&& lays(s3, s)
    &&& s.vals == s3.vals
    &&& s.arrays == s3.arrays
    &&& s3.term(seq![], k as usize) == Ok::<Low, Seq<char>>(s)
    &&& within(b, s, weight(l0.ir, k as int) as int)
    &&& forall|v: u32|
        #![trigger b.vals.dom().contains(v)]
        l.vals.dom().contains(v) ==> b.vals.dom().contains(v) && b.vals[v] == l.vals[v]
    &&& forall|v: u32|
        #![trigger s.vals.dom().contains(v)]
        #![trigger b.vals.dom().contains(v)]
        b.vals.dom().contains(v) ==> s.vals.dom().contains(v) && s.vals[v] == b.vals[v]
    &&& forall|a: u32|
        #![trigger s.arrays.dom().contains(a)]
        #![trigger l.arrays.dom().contains(a)]
        l.arrays.dom().contains(a) ==> s.arrays.dom().contains(a) && s.arrays[a] == l.arrays[a]
    &&& k > 0 ==> forall|j: int|
        #![trigger l0.ir.blocks@[k as int].phis@[j]]
        0 <= j < l0.ir.blocks@[k as int].phis@.len() ==> {
            let v = l0.ir.blocks@[k as int].phis@[j].dst.0;
            b.vals.dom().contains(v) && b.vals[v] == l0.blocks[k as int].params[j]
        }
}

/// A value that has a name is not defined again.
proof fn lemma_once(l0: Low, k: nat, v: u32)
    requires
        prepared(l0),
        single(l0.ir),
        k < l0.ir.blocks@.len(),
        comes_of(l0, k as int, v),
    ensures
        !defined_in(l0.ir.blocks@[k as int].insts@, l0.ir.blocks@[k as int].insts@.len(), v),
        k > 0 ==> forall|j: int| !#[trigger] phi_at(l0.ir, k as int, j, v),
{
    let ir = l0.ir;
    let here = BlockId(k as u32);
    let val = ValueId(v);
    let code = ir.blocks@[k as int].insts@;
    assert(ir.at(here) == ir.blocks@[k as int]);
    if defined_in(code, code.len(), v) {
        let j = choose|j: int| 0 <= j < code.len() && (#[trigger] code[j]).def() == Some(val);
        assert(ir.at(here).insts@[j].def() == Some(val));
        assert(ir.def_inst(val) is Some && ir.home(val) == here);
    }
    if exists|j: int| #[trigger] phi_at(ir, k as int, j, v) {
        let j = choose|j: int| #[trigger] phi_at(ir, k as int, j, v);
        assert(ir.at(here).phis@[j].dst == val);
        assert(ir.def_inst(val) is None && ir.home(val) == here);
    }
    if l0.vals.dom().contains(v) {
    } else if exists|b: int, j: int| 0 < b < k && #[trigger] phi_at(ir, b, j, v) {
        let (b, j) = choose|b: int, j: int| 0 < b < k && #[trigger] phi_at(ir, b, j, v);
        let other = BlockId(b as u32);
        assert(ir.at(other).phis@[j].dst == val);
        assert(ir.home(val) == other);
    } else {
        let b = choose|b: int|
            0 <= b < k && #[trigger] defined_in(ir.blocks@[b].insts@, ir.blocks@[b].insts@.len(), v);
        let other = BlockId(b as u32);
        let c2 = ir.blocks@[b].insts@;
        let j = choose|j: int| 0 <= j < c2.len() && (#[trigger] c2[j]).def() == Some(val);
        assert(ir.at(other).insts@[j].def() == Some(val));
        assert(ir.home(val) == other && ir.def_inst(val) is Some);
    }
}

/// An array that has a name is not made again.
proof fn lemma_array_once(l0: Low, k: nat, a: u32)
    requires
        prepared(l0),
        made_once(l0.ir),
        k < l0.ir.blocks@.len(),
        made_before(l0, k as int, a),
    ensures
        !made_in(l0.ir.blocks@[k as int].insts@, l0.ir.blocks@[k as int].insts@.len(), a),
{
    let ir = l0.ir;
    if l0.arrays.dom().contains(a) {
        assert(ir.blocks@[k as int] == ir.blocks@[k as int]);
    } else {
        let b = choose|b: int|
            0 <= b < k && #[trigger] made_in(ir.blocks@[b].insts@, ir.blocks@[b].insts@.len(), a);
        assert(made_in(ir.blocks@[b].insts@, ir.blocks@[b].insts@.len(), a));
    }
}

/// Weights only grow.
proof fn lemma_weights(ir: FuncIr, k: nat, m: nat)
    requires
        k <= m,
    ensures
        weights(ir, k) <= weights(ir, m),
    decreases m,
{
    if k < m {
        lemma_weights(ir, k, (m - 1) as nat);
    }
}

/// A block begins: its phis are known by its parameters.
#[verifier::rlimit(60)]
proof fn lemma_begins(l0: Low, st: Setting, k: nat)
    requires
        lowers(l0, st),
        standing(l0, st, k),
        k < l0.ir.blocks@.len(),
    ensures
        ({
            let l = stage(l0, st, k);
            let b = begun(l, k as usize);
            &&& sound(b)
            &&& b.cur == k
            &&& b == (Low { cur: k as usize, vals: b.vals, ..l })
            &&& unnamed(b, params_from(l0, k as int + 1))
            &&& forall|v: u32|
                #![trigger b.vals.dom().contains(v)]
                #![trigger l.vals.dom().contains(v)]
                l.vals.dom().contains(v) ==> b.vals.dom().contains(v) && b.vals[v] == l.vals[v]
            &&& forall|v: u32|
                #![trigger b.vals.dom().contains(v)]
                b.vals.dom().contains(v) ==> comes_of(l0, k as int + 1, v)
            &&& forall|v: u32|
                #![trigger b.vals.dom().contains(v)]
                b.vals.dom().contains(v) && !l.vals.dom().contains(v) ==> exists|j: int| #[trigger]
                    phi_at(l0.ir, k as int, j, v)
            &&& k > 0 ==> forall|j: int|
                #![trigger l0.ir.blocks@[k as int].phis@[j]]
                0 <= j < l0.ir.blocks@[k as int].phis@.len() ==> {
                    let v = l0.ir.blocks@[k as int].phis@[j].dst.0;
                    b.vals.dom().contains(v) && b.vals[v] == l0.blocks[k as int].params[j]
                }
        }),
{
    reveal(lowers);
    let ir = l0.ir;
    let l = stage(l0, st, k);
    let b = begun(l, k as usize);
    let bar = params_from(l0, k as int + 1);
    assert forall|v: u32| comes_of(l0, k as int, v) implies comes_of(l0, k as int + 1, v) by {
        lemma_comes_of_on(l0, k as int, v);
    }
    assert forall|q: Val| bar.contains(q) implies params_from(
        l0,
        if k == 0 {
            1
        } else {
            k as int
        },
    ).contains(q) by {
        let (c, j) = choose|c: int, j: int| k + 1 <= c && #[trigger] is_param(l0, c, j, q);
        assert(is_param(l0, c, j, q));
    }
    if k > 0 {
        let n = ir.blocks@[k as int].phis@.len();
        assert(BlockId(k as u32) != ir.entry);
        let here = l.at(k as usize);
        lemma_bound(here, k as usize, n);
        assert(l.blocks[k as int] == l0.blocks[k as int]);
        let params = l0.blocks[k as int].params;
        assert(params.len() >= n);
        assert forall|v: u32|
            #![trigger b.vals.dom().contains(v)]
            b.vals.dom().contains(v) implies b.has(b.vals[v]) && !bar.contains(b.vals[v])
            && comes_of(l0, k as int + 1, v) && (l.vals.dom().contains(v) ==> b.vals[v] == l.vals[v])
            && (!l.vals.dom().contains(v) ==> exists|j: int| #[trigger]
            phi_at(ir, k as int, j, v)) by {
            if exists|j: int| 0 <= j < n && #[trigger] phi_at(ir, k as int, j, v) && b.vals[v]
                == params[j] {
                let j = choose|j: int|
                    0 <= j < n && #[trigger] phi_at(ir, k as int, j, v) && b.vals[v] == params[j];
                assert(l.has(l.blocks[k as int].params[j]));
                assert(is_param(l0, k as int, j, params[j]));
                if bar.contains(params[j]) {
                    let (c, i) = choose|c: int, i: int|
                        k + 1 <= c && #[trigger] is_param(l0, c, i, params[j]);
                    assert(is_param(l0, c, i, params[j]));
                }
                assert(phi_at(ir, k as int, j, v));
                if l.vals.dom().contains(v) {
                    lemma_once(l0, k, v);
                }
            } else {
                assert(l.vals.dom().contains(v));
            }
        }
        assert forall|v: u32|
            #![trigger b.vals.dom().contains(v)]
            l.vals.dom().contains(v) implies b.vals.dom().contains(v) && b.vals[v] == l.vals[v] by {
            assert(b.vals.dom().contains(v) || !b.vals.dom().contains(v));
        }
        assert forall|j: int|
            #![trigger ir.blocks@[k as int].phis@[j]]
            0 <= j < n implies b.vals.dom().contains(ir.blocks@[k as int].phis@[j].dst.0)
            && b.vals[ir.blocks@[k as int].phis@[j].dst.0] == params[j] by {
            let v = ir.blocks@[k as int].phis@[j].dst.0;
            assert(phi_at(ir, k as int, j, v));
            assert(b.vals.dom().contains(v) || !b.vals.dom().contains(v));
            let i = choose|i: int|
                0 <= i < n && #[trigger] phi_at(ir, k as int, i, v) && b.vals[v] == params[i];
            assert(own_phis(ir, k as usize));
            let phis = ir.blocks@[k as int].phis@;
            if i < j {
                assert(phis[i].dst.0 != phis[j].dst.0);
            } else if j < i {
                assert(phis[j].dst.0 != phis[i].dst.0);
            }
        }
        assert(forall|a: u32| #[trigger]
            b.arrays.dom().contains(a) ==> l.arrays.dom().contains(a));
        assert(sound(b));
    }
}

proof fn lemma_comes_of_on(l0: Low, k: int, v: u32)
    requires
        comes_of(l0, k, v),
    ensures
        comes_of(l0, k as int + 1, v),
{
    if l0.vals.dom().contains(v) {
    } else if exists|b: int, j: int| 0 < b < k && #[trigger] phi_at(l0.ir, b, j, v) {
        let (b, j) = choose|b: int, j: int| 0 < b < k && #[trigger] phi_at(l0.ir, b, j, v);
        assert(phi_at(l0.ir, b, j, v));
    } else {
        let b = choose|b: int|
            0 <= b < k && #[trigger] defined_in(
                l0.ir.blocks@[b].insts@,
                l0.ir.blocks@[b].insts@.len(),
                v,
            );
        assert(defined_in(l0.ir.blocks@[b].insts@, l0.ir.blocks@[b].insts@.len(), v));
    }
}

/// One block more.
#[verifier::rlimit(60)]
proof fn lemma_joins(l0: Low, st: Setting, k: nat)
    requires
        lowers(l0, st),
        standing(l0, st, k),
        k < l0.ir.blocks@.len(),
        l0.all_blocks(st, k + 1) is Ok,
    ensures
        joined(l0, st, k),
        standing(l0, st, k + 1),
{
    reveal(lowers);
    let ir = l0.ir;
    let l = stage(l0, st, k);
    let s = stage(l0, st, k + 1);
    let b = begun(l, k as usize);
    let code = ir.blocks@[k as int].insts@;
    let bar = params_from(l0, k as int + 1);
    lemma_begins(l0, st, k);
    lemma_block(l, st, k as usize);
    assert(l.block(st, k as usize) == Ok::<Low, Seq<char>>(s));
    assert(b.filled(seq![], None, k as usize) == Ok::<Low, Seq<char>>(s));
    lemma_weights(ir, k + 1, ir.blocks@.len());
    assert(weights(ir, k + 1) == weights(ir, k) + weight(ir, k as int));
    assert forall|q: Val| #[trigger] bar.contains(q) implies b.has(q) by {
        let (c, j) = choose|c: int, j: int| k + 1 <= c && #[trigger] is_param(l0, c, j, q);
        assert(l0.has(l0.blocks[c].params[j]));
    }
    assert(one_result(b));
    lemma_filled_lays(b, k as usize, bar);
    let s3 = b.insts(code, code.len())->Ok_0;
    assert forall|v: u32|
        #![trigger s.vals.dom().contains(v)]
        #![trigger b.vals.dom().contains(v)]
        b.vals.dom().contains(v) implies s.vals.dom().contains(v) && s.vals[v] == b.vals[v] by {
        if l.vals.dom().contains(v) {
            lemma_once(l0, k, v);
        } else {
            let j = choose|j: int| #[trigger] phi_at(ir, k as int, j, v);
            let me = BlockId(k as u32);
            assert(ir.at(me).phis@[j].dst == ValueId(v));
            if defined_in(code, code.len(), v) {
                let i = choose|i: int|
                    0 <= i < code.len() && (#[trigger] code[i]).def() == Some(ValueId(v));
                assert(ir.at(me).insts@[i].def() == Some(ValueId(v)));
            }
        }
    }
    assert forall|a: u32|
        #![trigger s.arrays.dom().contains(a)]
        #![trigger l.arrays.dom().contains(a)]
        l.arrays.dom().contains(a) implies s.arrays.dom().contains(a) && s.arrays[a]
        == l.arrays[a] by {
        lemma_array_once(l0, k, a);
        assert(s.arrays.dom().contains(a) == b.arrays.dom().contains(a));
    }
    assert(grows(l0, s)) by {
        assert(grows(l, b));
        lemma_grows_on(l0, l, b);
        lemma_grows_on(l0, b, s);
    }
    assert forall|c: int| k + 1 <= c < l0.blocks.len() implies #[trigger] s.blocks[c]
        == l0.blocks[c] by {
        assert(s.blocks[c] == b.blocks[c]);
        assert(l.blocks[c] == l0.blocks[c]);
    }
    assert forall|v: u32| #[trigger] s.vals.dom().contains(v) implies comes_of(l0, k as int + 1, v) by {
        if defined_in(code, code.len(), v) {
            assert(defined_in(ir.blocks@[k as int].insts@, ir.blocks@[k as int].insts@.len(), v));
        } else {
            assert(b.vals.dom().contains(v));
        }
    }
    assert forall|a: u32| #[trigger] s.arrays.dom().contains(a) implies made_before(
        l0,
        k as int + 1,
        a,
    ) by {
        if made_in(code, code.len(), a) {
            assert(made_in(ir.blocks@[k as int].insts@, ir.blocks@[k as int].insts@.len(), a));
        } else {
            assert(l.arrays.dom().contains(a));
            assert(made_before(l0, k as int, a));
            if !l0.arrays.dom().contains(a) {
                let c = choose|c: int|
                    0 <= c < k && #[trigger] made_in(
                        ir.blocks@[c].insts@,
                        ir.blocks@[c].insts@.len(),
                        a,
                    );
                assert(made_in(ir.blocks@[c].insts@, ir.blocks@[c].insts@.len(), a));
            }
        }
    }
}

/// What was lowered in the end was lowered on the way.
proof fn lemma_earlier(l0: Low, st: Setting, k: nat, m: nat)
    requires
        k <= m,
        l0.all_blocks(st, m) is Ok,
    ensures
        l0.all_blocks(st, k) is Ok,
    decreases m,
{
    if k < m {
        lemma_earlier(l0, st, k, (m - 1) as nat);
    }
}

/// What holds goes on to hold.
proof fn lemma_stands(l0: Low, st: Setting, k: nat)
    requires
        lowers(l0, st),
        k <= l0.ir.blocks@.len(),
    ensures
        standing(l0, st, k),
        k < l0.ir.blocks@.len() ==> joined(l0, st, k),
    decreases k,
{
    reveal(lowers);
    lemma_earlier(l0, st, k, l0.ir.blocks@.len());
    if k == 0 {
        lemma_grows_self(l0);
        assert(l0.all_blocks(st, 0) == Ok::<Low, Seq<char>>(l0));
    } else {
        lemma_stands(l0, st, (k - 1) as nat);
        lemma_joins(l0, st, (k - 1) as nat);
    }
    if k < l0.ir.blocks@.len() {
        lemma_earlier(l0, st, k + 1, l0.ir.blocks@.len());
        lemma_joins(l0, st, k);
    }
}

/// Code and names stay.
proof fn lemma_stays(l0: Low, st: Setting, k: nat, m: nat)
    requires
        lowers(l0, st),
        k <= m <= l0.ir.blocks@.len(),
    ensures
        grows(stage(l0, st, k), stage(l0, st, m)),
        forall|v: u32|
            #![trigger stage(l0, st, m).vals.dom().contains(v)]
            #![trigger stage(l0, st, k).vals.dom().contains(v)]
            stage(l0, st, k).vals.dom().contains(v) ==> stage(l0, st, m).vals.dom().contains(v)
                && stage(l0, st, m).vals[v] == stage(l0, st, k).vals[v],
        forall|a: u32|
            #![trigger stage(l0, st, m).arrays.dom().contains(a)]
            #![trigger stage(l0, st, k).arrays.dom().contains(a)]
            stage(l0, st, k).arrays.dom().contains(a) ==> stage(l0, st, m).arrays.dom().contains(a)
                && stage(l0, st, m).arrays[a] == stage(l0, st, k).arrays[a],
    decreases m,
{
    lemma_grows_self(stage(l0, st, k));
    if k < m {
        let p = (m - 1) as nat;
        lemma_stays(l0, st, k, p);
        lemma_stands(l0, st, p);
        let a = stage(l0, st, k);
        let l = stage(l0, st, p);
        let b = begun(l, p as usize);
        let s = stage(l0, st, m);
        assert(p + 1 == m);
        assert(grows(l, b));
        lemma_grows_on(a, l, b);
        lemma_grows_on(a, b, s);
        assert forall|v: u32|
            #![trigger s.vals.dom().contains(v)]
            #![trigger a.vals.dom().contains(v)]
            a.vals.dom().contains(v) implies s.vals.dom().contains(v) && s.vals[v] == a.vals[v] by {
            assert(l.vals.dom().contains(v));
            assert(b.vals.dom().contains(v));
        }
        assert forall|x: u32|
            #![trigger s.arrays.dom().contains(x)]
            #![trigger a.arrays.dom().contains(x)]
            a.arrays.dom().contains(x) implies s.arrays.dom().contains(x) && s.arrays[x]
            == a.arrays[x] by {
            assert(l.arrays.dom().contains(x));
        }
    }
}

// ---------------------------------------------------------------------------
// Runs
// ---------------------------------------------------------------------------

/// Code in a row does what its instructions do, up to the first one that fails.
pub proof fn lemma_acts<H>(
    c: Stage<H>,
    fin: Low,
    l: Low,
    env: Map<usize, Value>,
    st: Src<H>,
    code: Seq<Inst>,
    k: nat,
    span: Span,
) -> (e: Map<usize, Value>)
    requires
        meets(c, l, env, st),
        room(l, 64 + 24 * k as int),
        one_result(l),
        k <= code.len(),
        l.insts(code, k) is Ok,
        grows(l.insts(code, k)->Ok_0, fin),
        !(acts(c, st, code, k, span) is Odd),
    ensures
        follows(c, fin, l, l.insts(code, k)->Ok_0, env, st, acts(c, st, code, k, span), e),
    decreases k,
{
    let m = c.machine;
    let from = at(l, env, st.scene);
    if k == 0 {
        lemma_comes(m, fin, from);
        env
    } else {
        let p = (k - 1) as nat;
        let i = code[k - 1];
        let none = Set::<Val>::empty();
        lemma_insts_lays(l, code, p, none);
        let s = l.insts(code, p)->Ok_0;
        let t = s.inst(i)->Ok_0;
        lemma_inst_lays(s, i, none);
        lemma_grows_on(s, t, fin);
        let e = lemma_acts(c, fin, l, env, st, code, p, span);
        match acts(c, st, code, p, span) {
            Act::Done(now) => {
                let e2 = lemma_act(c, fin, s, e, now, i, span);
                let mid = at(s, e, now.scene);
                match act(c, now, i, span) {
                    Act::Done(end) => {
                        lemma_comes_on(m, fin, from, mid, at(t, e2, end.scene));
                    },
                    Act::Fails(code, x, y, sc) => {
                        lemma_comes_on(
                            m,
                            fin,
                            from,
                            mid,
                            Config::At(fin.panic->0 as int, 0, e2, sc),
                        );
                    },
                    Act::Stopped(sc) => {
                        lemma_comes_on(m, fin, from, mid, Config::Stopped(sc));
                    },
                    Act::Odd => {},
                }
                e2
            },
            _ => e,
        }
    }
}

/// Without its last instruction a block is as it was before.
proof fn lemma_unended_grows(l: Low, s: Low, fin: Low)
    requires
        lays(l, s),
        s.cur == l.cur,
        grows(s, fin),
        l.blocks[l.cur as int].insts.len() < s.blocks[l.cur as int].insts.len(),
    ensures
        grows(unended(s, l.cur), fin),
{
    let u = unended(s, l.cur);
    let b = l.cur as int;
    assert forall|x: int| 0 <= x < u.blocks.len() implies (#[trigger] fin.blocks[x]).params
        == u.blocks[x].params && u.blocks[x].insts.len() <= fin.blocks[x].insts.len() by {
        assert(fin.blocks[x].params == s.blocks[x].params);
    }
    assert forall|x: int, k: int|
        0 <= x < u.blocks.len() && 0 <= k < u.blocks[x].insts.len() implies
        #[trigger] fin.blocks[x].insts[k] == u.blocks[x].insts[k] by {
        assert(fin.blocks[x].params == s.blocks[x].params);
        assert(fin.blocks[x].insts[k] == s.blocks[x].insts[k]);
    }
}

/// The end of a block: the run comes to its last instruction, which does what the block does.
proof fn lemma_leaves<H>(
    c: Stage<H>,
    fin: Low,
    l: Low,
    b: usize,
    env: Map<usize, Value>,
    out: Src<H>,
) -> (r: (Map<usize, Value>, OpV))
    requires
        meets(c, l, env, out),
        b <= u32::MAX,
        room(l, 32 + handed_on(l.ir, BlockId(b as u32)) as int),
        l.term(seq![], b) is Ok,
        grows(l.term(seq![], b)->Ok_0, fin),
        end_known(l.ir, BlockId(b as u32), out.vals),
    ensures
        ({
            let (e, op) = r;
            let here = l.cur as int;
            &&& frames(l, env, e)
            &&& leaves_as(l.ir, BlockId(b as u32), op, e, out.vals)
            &&& exists|k: int|
                #![trigger fin.blocks[here].insts[k]]
                0 <= here < fin.blocks.len() && 0 <= k < fin.blocks[here].insts.len()
                    && fin.blocks[here].insts[k].op == op && comes(
                    c.machine,
                    fin,
                    at(l, env, out.scene),
                    Config::At(here, k, e, out.scene),
                )
        }),
{
    let w = c.machine.floats;
    let me = BlockId(b as u32);
    let su = Seq::<SelfUse>::empty();
    lemma_term_lays(l, b);
    lemma_term(w, l, su, b, env, out.vals);
    let s = l.term(su, b)->Ok_0;
    let here = l.cur as int;
    let before = unended(s, l.cur);
    let n = handed_on(l.ir, me);
    let e = machine_values(w, l, before, env);
    let k = before.blocks[here].insts.len() as int;
    assert(k == s.blocks[here].insts.len() - 1);
    lemma_unended_grows(l, s, fin);
    lemma_computes(c.machine, fin, l, before, env, n, out.scene);
    let op = s.blocks[here].insts.last().op;
    assert(fin.blocks[here].params == s.blocks[here].params);
    assert(fin.blocks[here].insts[k] == s.blocks[here].insts[k]);
    assert(at(before, e, out.scene) == Config::At(here, k, e, out.scene));
    (e, op)
}

/// Parameters get their arguments, and nothing else changes.
proof fn lemma_passed(params: Seq<Val>, args: Seq<Val>, env: Map<usize, Value>, k: nat, q: usize)
    requires
        k <= params.len(),
        forall|i: int, j: int| 0 <= i < j < k ==> (#[trigger] params[i]) != (#[trigger] params[j]),
    ensures
        (forall|j: int| 0 <= j < k ==> (#[trigger] params[j]).0 != q) ==> passed_on(
            params,
            args,
            env,
            k,
        )[q] == env[q],
        forall|j: int|
            0 <= j < k && (#[trigger] params[j]).0 == q ==> passed_on(params, args, env, k)[q]
                == env[args[j].0],
    decreases k,
{
    if k > 0 {
        lemma_passed(params, args, env, (k - 1) as nat, q);
        if params[k - 1].0 == q {
            assert forall|j: int| 0 <= j < k && (#[trigger] params[j]).0 == q implies j == k
                - 1 by {
                if j < k - 1 {
                    assert(params[j] != params[k - 1]);
                }
            }
        }
    }
}

/// Phis get their values, and nothing else changes.
pub proof fn lemma_taken_on(
    ir: FuncIr,
    a: BlockId,
    b: BlockId,
    out: Map<u32, Value>,
    kept: Map<u32, Value>,
    k: nat,
    v: u32,
)
    requires
        k <= ir.at(b).phis@.len(),
        own_phis(ir, b.0 as usize),
    ensures
        ({
            let now = taken_on(ir, a, b, out, kept, k);
            &&& forall|j: int|
                0 <= j < k && #[trigger] phi_at(ir, b.0 as int, j, v) ==> {
                    let x = (edge_arg(ir, a, b, j)->0).0;
                    now.dom().contains(v) ==> out.dom().contains(x) && now[v] == out[x] && scalar(
                        out[x],
                    ) && type_of(out[x]) == declared(ir, ValueId(v))
                }
            &&& (forall|j: int| 0 <= j < k ==> !#[trigger] phi_at(ir, b.0 as int, j, v)) ==> (
            now.dom().contains(v) == kept.dom().contains(v) && now[v] == kept[v])
        }),
    decreases k,
{
    if k > 0 {
        lemma_taken_on(ir, a, b, out, kept, (k - 1) as nat, v);
        let phis = ir.blocks@[b.0 as int].phis@;
        if phis[k - 1].dst.0 == v {
            assert(phi_at(ir, b.0 as int, k - 1, v));
            assert(phis[k - 1].dst == ValueId(v));
            assert forall|j: int| 0 <= j < k && #[trigger] phi_at(ir, b.0 as int, j, v) implies j
                == k - 1 by {
                if j < k - 1 {
                    assert(phis[j].dst.0 != phis[k - 1].dst.0);
                }
            }
        } else {
            assert(!phi_at(ir, b.0 as int, k - 1, v));
        }
    }
}

/// What is alive where a block begins has a name there.
#[verifier::opaque]
pub open spec fn alive<H>(c: Stage<H>, l0: Low, st: Setting) -> bool {
    &&& forall|b: BlockId, v: u32|
        c.ir.has_block(b) && #[trigger] (c.live)(b).contains(v) ==> stage(
            l0,
            st,
            b.0 as nat,
        ).vals.dom().contains(v)
    &&& forall|b: BlockId, a: u32|
        c.ir.has_block(b) && #[trigger] (c.held)(b).contains(a) ==> stage(
            l0,
            st,
            b.0 as nat,
        ).arrays.dom().contains(a)
}

/// The lowering is that of the function.
pub open spec fn lowering_of<H>(c: Stage<H>, l0: Low) -> bool {
    l0.ir == c.ir && l0.unchecked == c.unchecked && l0.callees == c.callees && l0.prebind
        == c.prebind
}

/// The lowering where the instructions of a block have been lowered.
pub open spec fn filled_to(l0: Low, st: Setting, b: nat) -> Low {
    let code = l0.ir.blocks@[b as int].insts@;
    begun(stage(l0, st, b), b as usize).insts(code, code.len())->Ok_0
}

/// The name of a value where a block begins.
proof fn lemma_name_before(l0: Low, st: Setting, k: nat, v: u32)
    requires
        lowers(l0, st),
        0 < k < l0.ir.blocks@.len(),
        stage(l0, st, k).vals.dom().contains(v),
    ensures
        ({
            let fin = stage(l0, st, l0.ir.blocks@.len());
            let lb = begun(stage(l0, st, k), k as usize);
            let q = fin.vals[v];
            &&& lb.vals.dom().contains(v)
            &&& lb.vals[v] == q
            &&& lb.ty_of(q) == fin.ty_of(q)
            &&& forall|j: int|
                0 <= j < l0.blocks[k as int].params.len() ==> #[trigger] l0.blocks[k as int].params[j]
                    != q
        }),
{
    let nb = l0.ir.blocks@.len();
    let fin = stage(l0, st, nb);
    let l = stage(l0, st, k);
    let lb = begun(l, k as usize);
    let q = l.vals[v];
    assert(fin.vals[v] == q && l.has(q) && fin.tys[q.0 as int] == l.tys[q.0 as int]) by {
        lemma_stands(l0, st, k);
        lemma_stays(l0, st, k, nb);
        assert(l.has(q));
    }
    assert(lb.vals.dom().contains(v) && lb.vals[v] == q && lb.tys == l.tys) by {
        lemma_stands(l0, st, k);
        lemma_begins(l0, st, k);
    }
    assert forall|j: int| 0 <= j < l0.blocks[k as int].params.len() implies
        #[trigger] l0.blocks[k as int].params[j] != q by {
        reveal(lowers);
        lemma_stands(l0, st, k);
        assert(is_param(l0, k as int, j, l0.blocks[k as int].params[j]));
        assert(params_from(l0, k as int).contains(l0.blocks[k as int].params[j]));
    }
}

/// The name of a value where a block ends.
proof fn lemma_name_after(l0: Low, st: Setting, a: nat, v: u32)
    requires
        lowers(l0, st),
        a < l0.ir.blocks@.len(),
        filled_to(l0, st, a).vals.dom().contains(v),
    ensures
        ({
            let fin = stage(l0, st, l0.ir.blocks@.len());
            let s3 = filled_to(l0, st, a);
            let q = fin.vals[v];
            &&& s3.vals[v] == q
            &&& s3.has(q)
            &&& s3.ty_of(q) == fin.ty_of(q)
        }),
{
    let nb = l0.ir.blocks@.len();
    lemma_stands(l0, st, a);
    lemma_stays(l0, st, a + 1, nb);
    lemma_s3_sound(l0, st, a);
    let fin = stage(l0, st, nb);
    let s3 = filled_to(l0, st, a);
    let sa = stage(l0, st, a + 1);
    assert(s3.vals == sa.vals);
    assert(sa.vals.dom().contains(v));
    let q = s3.vals[v];
    assert(s3.has(q));
    assert(sa.tys[q.0 as int] == s3.tys[q.0 as int]);
    assert(fin.tys[q.0 as int] == sa.tys[q.0 as int]);
}

/// A value that is named where one block ends and where another one begins has one name.
proof fn lemma_one_name(l0: Low, st: Setting, a: nat, k: nat, v: u32)
    requires
        lowers(l0, st),
        a < l0.ir.blocks@.len(),
        0 < k < l0.ir.blocks@.len(),
        stage(l0, st, k).vals.dom().contains(v),
        filled_to(l0, st, a).vals.dom().contains(v),
    ensures
        ({
            let s3 = filled_to(l0, st, a);
            let lb = begun(stage(l0, st, k), k as usize);
            let q = s3.vals[v];
            &&& lb.vals.dom().contains(v)
            &&& lb.vals[v] == q
            &&& s3.has(q)
            &&& lb.ty_of(q) == s3.ty_of(q)
            &&& forall|j: int|
                0 <= j < l0.blocks[k as int].params.len() ==> #[trigger] l0.blocks[k as int].params[j]
                    != q
        }),
{
    lemma_name_before(l0, st, k, v);
    lemma_name_after(l0, st, a, v);
}

/// Lowering can go on behind the instructions of a block.
proof fn lemma_s3_sound(l0: Low, st: Setting, a: nat)
    requires
        lowers(l0, st),
        a < l0.ir.blocks@.len(),
    ensures
        sound(filled_to(l0, st, a)),
        grows(filled_to(l0, st, a), stage(l0, st, a + 1)),
{
    reveal(lowers);
    lemma_stands(l0, st, a);
    lemma_weights(l0.ir, a + 1, l0.ir.blocks@.len());
    assert(weights(l0.ir, a + 1) == weights(l0.ir, a) + weight(l0.ir, a as int));
    let lb = begun(stage(l0, st, a), a as usize);
    let code = l0.ir.blocks@[a as int].insts@;
    assert(one_result(lb));
    lemma_insts_lays(lb, code, code.len(), Set::empty());
}

/// The same for arrays.
proof fn lemma_one_pair(l0: Low, st: Setting, a: nat, k: nat, x: u32)
    requires
        lowers(l0, st),
        a < l0.ir.blocks@.len(),
        0 < k < l0.ir.blocks@.len(),
        stage(l0, st, k).arrays.dom().contains(x),
        filled_to(l0, st, a).arrays.dom().contains(x),
    ensures
        ({
            let s3 = filled_to(l0, st, a);
            let lb = begun(stage(l0, st, k), k as usize);
            let p = s3.arrays[x];
            &&& lb.arrays.dom().contains(x)
            &&& lb.arrays[x] == p
            &&& s3.has(p.data)
            &&& s3.has(p.len)
            &&& lb.ty_of(p.data) == s3.ty_of(p.data)
            &&& lb.ty_of(p.len) == s3.ty_of(p.len)
            &&& forall|j: int|
                0 <= j < l0.blocks[k as int].params.len() ==> #[trigger] l0.blocks[k as int].params[j]
                    != p.data && l0.blocks[k as int].params[j] != p.len
        }),
{
    reveal(lowers);
    let nb = l0.ir.blocks@.len();
    lemma_stands(l0, st, a);
    lemma_stands(l0, st, k);
    lemma_stays(l0, st, a + 1, nb);
    lemma_stays(l0, st, k, nb);
    lemma_begins(l0, st, k);
    lemma_s3_sound(l0, st, a);
    let fin = stage(l0, st, nb);
    let s3 = filled_to(l0, st, a);
    let sa = stage(l0, st, a + 1);
    let l = stage(l0, st, k);
    assert(s3.arrays == sa.arrays);
    assert(fin.arrays[x] == l.arrays[x] && fin.arrays[x] == sa.arrays[x]);
    let p = l.arrays[x];
    assert(l.has(p.data) && l.has(p.len) && s3.has(p.data) && s3.has(p.len));
    assert(fin.tys[p.data.0 as int] == l.tys[p.data.0 as int]);
    assert(fin.tys[p.len.0 as int] == l.tys[p.len.0 as int]);
    assert(fin.tys[p.data.0 as int] == sa.tys[p.data.0 as int]);
    assert(fin.tys[p.len.0 as int] == sa.tys[p.len.0 as int]);
    assert(sa.tys[p.data.0 as int] == s3.tys[p.data.0 as int]);
    assert(sa.tys[p.len.0 as int] == s3.tys[p.len.0 as int]);
    assert forall|j: int| 0 <= j < l0.blocks[k as int].params.len() implies
        #[trigger] l0.blocks[k as int].params[j] != p.data && l0.blocks[k as int].params[j]
        != p.len by {
        assert(is_param(l0, k as int, j, l0.blocks[k as int].params[j]));
        assert(params_from(l0, k as int).contains(l0.blocks[k as int].params[j]));
    }
}

/// How a block begins.
proof fn lemma_begun_facts<H>(c: Stage<H>, l0: Low, st: Setting, k: nat)
    requires
        lowers(l0, st),
        lowering_of(c, l0),
        0 < k < l0.ir.blocks@.len(),
    ensures
        ({
            let lb = begun(stage(l0, st, k), k as usize);
            let phis = l0.ir.blocks@[k as int].phis@;
            let params = l0.blocks[k as int].params;
            &&& sound(lb)
            &&& lowering_of(c, lb)
            &&& lb.cur == k
            &&& lb.blocks[k as int].insts.len() == 0
            &&& stage(l0, st, l0.ir.blocks@.len()).blocks[k as int].params == params
            &&& k < stage(l0, st, l0.ir.blocks@.len()).blocks.len()
            &&& params.len() >= phis.len()
            &&& forall|i: int, j: int|
                0 <= i < j < phis.len() ==> (#[trigger] params[i]) != (#[trigger] params[j])
            &&& forall|j: int|
                #![trigger phis[j]]
                0 <= j < phis.len() ==> lb.vals.dom().contains(phis[j].dst.0)
                    && lb.vals[phis[j].dst.0] == params[j] && lb.ty_of(params[j]) == scalar_ty(
                    declared(l0.ir, phis[j].dst),
                )
            &&& c.prebind.len() > 0 ==> lb.arrays == Map::<u32, FatPtr>::empty()
        }),
{
    reveal(lowers);
    let nb = l0.ir.blocks@.len();
    lemma_stands(l0, st, k);
    lemma_stays(l0, st, 0, nb);
    lemma_begins(l0, st, k);
    assert(stage(l0, st, 0) == l0);
    let l = stage(l0, st, k);
    let lb = begun(l, k as usize);
    let phis = l0.ir.blocks@[k as int].phis@;
    let params = l0.blocks[k as int].params;
    assert(l.blocks[k as int] == l0.blocks[k as int]);
    assert forall|i: int, j: int| 0 <= i < j < phis.len() implies (#[trigger] params[i]) != (
    #[trigger] params[j]) by {
        assert(is_param(l0, k as int, i, params[i]));
        assert(is_param(l0, k as int, j, params[j]));
    }
    assert forall|j: int|
        #![trigger phis[j]]
        0 <= j < phis.len() implies lb.vals.dom().contains(phis[j].dst.0)
        && lb.vals[phis[j].dst.0] == params[j] && lb.ty_of(params[j]) == scalar_ty(
        declared(l0.ir, phis[j].dst),
    ) by {
        assert(l0.ir.blocks@[k as int].phis@[j] == phis[j]);
        assert(l0.has(l0.blocks[k as int].params[j]));
        assert(l.tys[params[j].0 as int] == l0.tys[params[j].0 as int]);
    }
    if c.prebind.len() > 0 {
        assert(l.arrays =~= Map::<u32, FatPtr>::empty()) by {
            assert forall|x: u32| !l.arrays.dom().contains(x) by {
                if l.arrays.dom().contains(x) {
                    assert(made_before(l0, k as int, x));
                    let z = choose|z: int|
                        0 <= z < k && #[trigger] made_in(
                            l0.ir.blocks@[z].insts@,
                            l0.ir.blocks@[z].insts@.len(),
                            x,
                        );
                    assert(made_in(l0.ir.blocks@[z].insts@, l0.ir.blocks@[z].insts@.len(), x));
                }
            }
        }
    }
}

/// Going on to another block: the machine knows the values of its phis, and all that is alive.
#[verifier::rlimit(30)]
proof fn lemma_enters<H>(
    c: Stage<H>,
    l0: Low,
    st: Setting,
    a: BlockId,
    b: BlockId,
    out: Src<H>,
    env: Map<usize, Value>,
    e: Map<usize, Value>,
    args: Seq<Val>,
)
    requires
        lowers(l0, st),
        lowering_of(c, l0),
        alive(c, l0, st),
        c.ir.has_block(a),
        c.ir.has_block(b),
        b.0 > 0,
        meets(c, filled_to(l0, st, a.0 as nat), env, out),
        frames(filled_to(l0, st, a.0 as nat), env, e),
        carries(c.ir, a, b, args, e, out.vals),
    ensures
        meets(
            c,
            begun(stage(l0, st, b.0 as nat), b.0 as usize),
            passed_on(l0.blocks[b.0 as int].params, args, e, args.len()),
            enters(c, a, b, out),
        ),
{
    reveal(alive);
    reveal(lowers);
    let ir = c.ir;
    let k = b.0 as nat;
    let s3 = filled_to(l0, st, a.0 as nat);
    let lb = begun(stage(l0, st, k), k as usize);
    lemma_begun_facts(c, l0, st, k);
    let phis = ir.blocks@[k as int].phis@;
    let n = phis.len();
    let params = l0.blocks[k as int].params;
    assert(own_phis(ir, k as usize));
    let kept = out.vals.restrict((c.live)(b));
    let now = taken_on(ir, a, b, out.vals, kept, n);
    let env2 = passed_on(params, args, e, n);
    assert forall|v: u32| #[trigger] now.dom().contains(v) implies lb.vals.dom().contains(v)
        && !lb.repairs.dom().contains(v) && env2[lb.vals[v].0] == now[v] && lb.source_ty(ValueId(v))
        == type_of(now[v]) && scalar(now[v]) && lb.ty_of(lb.vals[v]) == scalar_ty(
        type_of(now[v]),
    ) by {
        lemma_taken_on(ir, a, b, out.vals, kept, n, v);
        if exists|j: int| 0 <= j < n && #[trigger] phi_at(ir, k as int, j, v) {
            let j = choose|j: int| 0 <= j < n && #[trigger] phi_at(ir, k as int, j, v);
            assert(phis[j].dst == ValueId(v));
            assert(lb.vals[v] == params[j]);
            lemma_passed(params, args, e, n, params[j].0);
            assert(args[j] == args[j]);
        } else {
            assert(kept.dom().contains(v));
            assert(out.vals.dom().contains(v) && (c.live)(b).contains(v));
            assert(s3.vals.dom().contains(v));
            lemma_one_name(l0, st, a.0 as nat, k, v);
            let q = s3.vals[v];
            assert forall|j: int| 0 <= j < n implies (#[trigger] params[j]).0 != q.0 by {
                assert(l0.blocks[k as int].params[j] != q);
            }
            lemma_passed(params, args, e, n, q.0);
            assert(e[q.0] == env[q.0]);
        }
    }
    let arrs = out.arrs.restrict((c.held)(b));
    assert forall|x: u32| #[trigger] arrs.dom().contains(x) implies lb.arrays.dom().contains(x)
        && env2[lb.arrays[x].data.0] == Value::I64(arrs[x].0) && env2[lb.arrays[x].len.0]
        == Value::I64(arrs[x].1) && lb.ty_of(lb.arrays[x].data) == ClifTy::I64 && lb.ty_of(
        lb.arrays[x].len,
    ) == ClifTy::I64 by {
        assert(out.arrs.dom().contains(x) && (c.held)(b).contains(x));
        assert(s3.arrays.dom().contains(x));
        lemma_one_pair(l0, st, a.0 as nat, k, x);
        let p = s3.arrays[x];
        assert forall|j: int| 0 <= j < n implies (#[trigger] params[j]).0 != p.data.0
            && params[j].0 != p.len.0 by {
            assert(l0.blocks[k as int].params[j] != p.data);
        }
        lemma_passed(params, args, e, n, p.data.0);
        lemma_passed(params, args, e, n, p.len.0);
        assert(e[p.data.0] == env[p.data.0] && e[p.len.0] == env[p.len.0]);
    }
}

/// What the host does with an error, as the end of a machine run: it ends the program, or
/// takes note, and the function gives back zeros.
pub open spec fn reported<H>(
    c: Stage<H>,
    results: Seq<ClifTy>,
    code: i64,
    x: i64,
    y: i64,
    sc: Scene<H>,
) -> Config<H> {
    match (c.machine.host)(
        "helix_panic"@,
        seq![Value::I64(code), Value::I64(x), Value::I64(y)],
        sc,
    ) {
        Reply::Gives(_, now) => Config::Returned(zeros_of(results), now),
        Reply::Stops(now) => Config::Stopped(now),
    }
}

/// A zero of a machine type.
pub open spec fn zero_of(t: ClifTy) -> Value {
    match t {
        ClifTy::F32 => Value::F32(0),
        ClifTy::F64 => Value::F64(0),
        ClifTy::I32 => Value::I32(0),
        ClifTy::I8 => Value::Bool(false),
        ClifTy::I64 => Value::I64(0),
    }
}

/// Zeros of machine types.
pub open spec fn zeros_of(tys: Seq<ClifTy>) -> Seq<Value> {
    tys.map_values(|t: ClifTy| zero_of(t))
}

/// How a machine run ends where the function ends so.
pub open spec fn ends_as<H>(c: Stage<H>, results: Seq<ClifTy>, r: End<H>) -> Config<H> {
    match r {
        End::Returned(vs, sc) => Config::Returned(vs, sc),
        End::Stopped(sc) => Config::Stopped(sc),
        End::Fails(code, x, y, sc) => reported(c, results, code, x, y, sc),
        _ => Config::Lost,
    }
}

/// A run is where errors are reported.
pub open spec fn alarm_at<H>(fin: Low, e: Map<usize, Value>, sc: Scene<H>) -> Config<H> {
    Config::At(fin.panic->0 as int, 0, e, sc)
}

/// The code of the block that reports errors does so.
#[verifier::opaque]
pub open spec fn reports<H>(c: Stage<H>, fin: Low, results: Seq<ClifTy>) -> bool {
    fin.panic is Some ==> forall|e: Map<usize, Value>, code: i64, x: i64, y: i64, sc: Scene<H>|
        #![trigger reported(c, results, code, x, y, sc), alarm_at(fin, e, sc)]
        ({
            let q = fin.blocks[fin.panic->0 as int].params;
            &&& e[q[0].0] == Value::I64(code)
            &&& e[q[1].0] == Value::I64(x)
            &&& e[q[2].0] == Value::I64(y)
        }) ==> comes(
            c.machine,
            fin,
            alarm_at(fin, e, sc),
            reported(c, results, code, x, y, sc),
        )
}

/// The code of a block in the finished function.
proof fn lemma_block_facts<H>(c: Stage<H>, l0: Low, st: Setting, fin: Low, k: nat)
    requires
        lowers(l0, st),
        lowering_of(c, l0),
        k < l0.ir.blocks@.len(),
        grows(stage(l0, st, l0.ir.blocks@.len()), fin),
    ensures
        ({
            let lb = begun(stage(l0, st, k), k as usize);
            let code = l0.ir.blocks@[k as int].insts@;
            let s3 = filled_to(l0, st, k);
            &&& lb.insts(code, code.len()) is Ok
            &&& s3.term(seq![], k as usize) is Ok
            &&& grows(s3.term(seq![], k as usize)->Ok_0, fin)
            &&& grows(s3, fin)
            &&& room(lb, 64 + 24 * code.len() as int)
            &&& room(s3, 32 + handed_on(l0.ir, BlockId(k as u32)) as int)
            &&& one_result(lb)
            &&& s3.ir == c.ir
        }),
{
    reveal(lowers);
    let nb = l0.ir.blocks@.len();
    lemma_stands(l0, st, k);
    lemma_stays(l0, st, k + 1, nb);
    let s = stage(l0, st, k + 1);
    let lb = begun(stage(l0, st, k), k as usize);
    let code = l0.ir.blocks@[k as int].insts@;
    let s3 = filled_to(l0, st, k);
    lemma_grows_on(s, stage(l0, st, nb), fin);
    lemma_grows_on(s3, s, fin);
    lemma_weights(l0.ir, k + 1, nb);
    assert(weights(l0.ir, k + 1) == weights(l0.ir, k) + weight(l0.ir, k as int));
    assert(one_result(lb));
    lemma_insts_lays(lb, code, code.len(), Set::empty());
}

/// The last instruction of a block, at work.
proof fn lemma_last<H>(
    c: Stage<H>,
    fin: Low,
    b: BlockId,
    here: int,
    pos: int,
    e: Map<usize, Value>,
    out: Src<H>,
    op: OpV,
)
    requires
        0 <= here < fin.blocks.len(),
        0 <= pos < fin.blocks[here].insts.len(),
        fin.blocks[here].insts[pos].op == op,
        leaves_as(c.ir, b, op, e, out.vals),
    ensures
        ({
            let r = tick(c.machine, fin, Config::At(here, pos, e, out.scene));
            match c.ir.at(b).term {
                Term::Jump(t, _) => r == Config::At(
                    t.0 as int,
                    0,
                    passed_on(fin.blocks[t.0 as int].params, op->Jump_1, e, (op->Jump_1).len()),
                    out.scene,
                ) && carries(c.ir, b, t, op->Jump_1, e, out.vals),
                Term::Branch { cond, t, f } => if out.vals[cond.0] == Value::Bool(true) {
                    r == Config::At(
                        t.0 as int,
                        0,
                        passed_on(fin.blocks[t.0 as int].params, op->Brif_2, e, (op->Brif_2).len()),
                        out.scene,
                    ) && carries(c.ir, b, t, op->Brif_2, e, out.vals)
                } else {
                    r == Config::At(
                        f.0 as int,
                        0,
                        passed_on(fin.blocks[f.0 as int].params, op->Brif_4, e, (op->Brif_4).len()),
                        out.scene,
                    ) && carries(c.ir, b, f, op->Brif_4, e, out.vals)
                },
                Term::Return(Some(v)) => r == Config::Returned(seq![out.vals[v.0]], out.scene),
                Term::Return(None) => r == Config::Returned(seq![], out.scene),
            }
        }),
{
    if let Term::Return(v) = c.ir.at(b).term {
        let xs = op->Return_0;
        match v {
            Some(v) => {
                assert(values(xs, e) =~= seq![out.vals[v.0]]);
            },
            None => {
                assert(values(xs, e) =~= Seq::<Value>::empty());
            },
        }
    }
}

/// An error is reported.
proof fn lemma_reports<H>(
    c: Stage<H>,
    fin: Low,
    results: Seq<ClifTy>,
    from: Config<H>,
    e: Map<usize, Value>,
    code: i64,
    x: i64,
    y: i64,
    sc: Scene<H>,
)
    requires
        reports(c, fin, results),
        alarms(c.machine, fin, from, e, code, x, y, sc),
    ensures
        comes(c.machine, fin, from, reported(c, results, code, x, y, sc)),
{
    reveal(reports);
    lemma_comes_on(
        c.machine,
        fin,
        from,
        alarm_at(fin, e, sc),
        reported(c, results, code, x, y, sc),
    );
}

/// Where a run comes to from an edge.
pub open spec fn past_edge<H>(
    fin: Low,
    t: BlockId,
    args: Seq<Val>,
    e: Map<usize, Value>,
    sc: Scene<H>,
) -> Config<H> {
    Config::At(
        t.0 as int,
        0,
        passed_on(fin.blocks[t.0 as int].params, args, e, args.len()),
        sc,
    )
}

/// The end of a block, and what it does.
proof fn lemma_goes<H>(
    c: Stage<H>,
    fin: Low,
    l: Low,
    b: usize,
    env: Map<usize, Value>,
    out: Src<H>,
) -> (r: (Map<usize, Value>, Seq<Val>))
    requires
        meets(c, l, env, out),
        b <= u32::MAX,
        room(l, 32 + handed_on(l.ir, BlockId(b as u32)) as int),
        l.term(seq![], b) is Ok,
        grows(l.term(seq![], b)->Ok_0, fin),
        end_known(c.ir, BlockId(b as u32), out.vals),
    ensures
        ({
            let (e, args) = r;
            let me = BlockId(b as u32);
            let from = at(l, env, out.scene);
            &&& frames(l, env, e)
            &&& match c.ir.at(me).term {
                Term::Jump(t, _) => comes(
                    c.machine,
                    fin,
                    from,
                    past_edge(fin, t, args, e, out.scene),
                ) && carries(c.ir, me, t, args, e, out.vals),
                Term::Branch { cond, t, f } => {
                    let to = if out.vals[cond.0] == Value::Bool(true) {
                        t
                    } else {
                        f
                    };
                    comes(c.machine, fin, from, past_edge(fin, to, args, e, out.scene)) && carries(
                        c.ir,
                        me,
                        to,
                        args,
                        e,
                        out.vals,
                    )
                },
                Term::Return(Some(v)) => comes(
                    c.machine,
                    fin,
                    from,
                    Config::Returned(seq![out.vals[v.0]], out.scene),
                ),
                Term::Return(None) => comes(
                    c.machine,
                    fin,
                    from,
                    Config::Returned(seq![], out.scene),
                ),
            }
        }),
{
    let m = c.machine;
    let me = BlockId(b as u32);
    let (e, op) = lemma_leaves(c, fin, l, b, env, out);
    let from = at(l, env, out.scene);
    let here = l.cur as int;
    let pos = choose|p: int|
        #![trigger fin.blocks[here].insts[p]]
        0 <= here < fin.blocks.len() && 0 <= p < fin.blocks[here].insts.len()
            && fin.blocks[here].insts[p].op == op && comes(
            m,
            fin,
            from,
            Config::At(here, p, e, out.scene),
        );
    let last = Config::At(here, pos, e, out.scene);
    lemma_comes(m, fin, last);
    lemma_comes_on(m, fin, from, last, tick(m, fin, last));
    lemma_last(c, fin, me, here, pos, e, out, op);
    let args = match c.ir.at(me).term {
        Term::Jump(t, _) => op->Jump_1,
        Term::Branch { cond, t, f } => if out.vals[cond.0] == Value::Bool(true) {
            op->Brif_2
        } else {
            op->Brif_4
        },
        Term::Return(_) => seq![],
    };
    (e, args)
}

/// A run of a block and of all that follows.
#[verifier::rlimit(30)]
pub proof fn lemma_performs<H>(
    c: Stage<H>,
    l0: Low,
    st: Setting,
    fin: Low,
    b: BlockId,
    env: Map<usize, Value>,
    src: Src<H>,
    n: nat,
    span: Span,
)
    requires
        lowers(l0, st),
        lowering_of(c, l0),
        alive(c, l0, st),
        c.ir.has_block(b),
        forall|a: BlockId| !#[trigger] c.ir.edge(a, BlockId(0)),
        grows(stage(l0, st, c.ir.blocks@.len()), fin),
        reports(c, fin, st.results),
        meets(c, begun(stage(l0, st, b.0 as nat), b.0 as usize), env, src),
        !(performs(c, b, src, n, span) is Odd),
        !(performs(c, b, src, n, span) is Cut),
    ensures
        comes(
            c.machine,
            fin,
            at(begun(stage(l0, st, b.0 as nat), b.0 as usize), env, src.scene),
            ends_as(c, st.results, performs(c, b, src, n, span)),
        ),
    decreases n, 2nat,
{
    let m = c.machine;
    let ir = c.ir;
    let k = b.0 as nat;
    lemma_block_facts(c, l0, st, fin, k);
    let lb = begun(stage(l0, st, k), k as usize);
    let code = ir.at(b).insts@;
    let s3 = filled_to(l0, st, k);
    let from = at(lb, env, src.scene);
    let e = lemma_acts(c, fin, lb, env, src, code, code.len(), span);
    match acts(c, src, code, code.len(), span) {
        Act::Odd => {},
        Act::Stopped(sc) => {},
        Act::Fails(kind, x, y, sc) => {
            lemma_reports(c, fin, st.results, from, e, kind, x, y, sc);
        },
        Act::Done(out) => {
            lemma_rest(c, l0, st, fin, b, e, src, out, n, span);
            lemma_comes_on(
                m,
                fin,
                from,
                at(s3, e, out.scene),
                ends_as(c, st.results, performs(c, b, src, n, span)),
            );
        },
    }
}

/// A run from the end of a block on.
#[verifier::rlimit(30)]
proof fn lemma_rest<H>(
    c: Stage<H>,
    l0: Low,
    st: Setting,
    fin: Low,
    b: BlockId,
    e: Map<usize, Value>,
    src: Src<H>,
    out: Src<H>,
    n: nat,
    span: Span,
)
    requires
        lowers(l0, st),
        lowering_of(c, l0),
        alive(c, l0, st),
        c.ir.has_block(b),
        forall|a: BlockId| !#[trigger] c.ir.edge(a, BlockId(0)),
        grows(stage(l0, st, c.ir.blocks@.len()), fin),
        reports(c, fin, st.results),
        meets(c, filled_to(l0, st, b.0 as nat), e, out),
        n > 0,
        acts(c, src, c.ir.at(b).insts@, c.ir.at(b).insts@.len(), span) == Act::Done(out),
        !(performs(c, b, src, n, span) is Odd),
        !(performs(c, b, src, n, span) is Cut),
    ensures
        comes(
            c.machine,
            fin,
            at(filled_to(l0, st, b.0 as nat), e, out.scene),
            ends_as(c, st.results, performs(c, b, src, n, span)),
        ),
    decreases n, 1nat,
{
    let m = c.machine;
    let ir = c.ir;
    let k = b.0 as nat;
    let end = ends_as(c, st.results, performs(c, b, src, n, span));
    lemma_block_facts(c, l0, st, fin, k);
    let s3 = filled_to(l0, st, k);
    let mid = at(s3, e, out.scene);
    assert(BlockId(k as u32) == b);
    assert(end_known(ir, b, out.vals));
    let (e2, args) = lemma_goes(c, fin, s3, k as usize, e, out);
    match ir.at(b).term {
        Term::Jump(t, _) => {
            assert(ir.at(b).term.targets()[0] == t);
            lemma_goes_on(c, l0, st, fin, b, t, out, e, e2, args, n, span);
            lemma_comes_on(m, fin, mid, past_edge(fin, t, args, e2, out.scene), end);
        },
        Term::Branch { cond, t, f } => {
            assert(ir.at(b).term.targets()[0] == t && ir.at(b).term.targets()[1] == f);
            let to = if out.vals[cond.0] == Value::Bool(true) {
                t
            } else {
                f
            };
            lemma_goes_on(c, l0, st, fin, b, to, out, e, e2, args, n, span);
            lemma_comes_on(m, fin, mid, past_edge(fin, to, args, e2, out.scene), end);
        },
        Term::Return(_) => {},
    }
}

/// The rest of a run, from an edge on.
#[verifier::rlimit(20)]
proof fn lemma_goes_on<H>(
    c: Stage<H>,
    l0: Low,
    st: Setting,
    fin: Low,
    b: BlockId,
    t: BlockId,
    out: Src<H>,
    env: Map<usize, Value>,
    e: Map<usize, Value>,
    args: Seq<Val>,
    n: nat,
    span: Span,
)
    requires
        lowers(l0, st),
        lowering_of(c, l0),
        alive(c, l0, st),
        c.ir.has_block(b),
        c.ir.at(b).term.targets().contains(t),
        forall|a: BlockId| !#[trigger] c.ir.edge(a, BlockId(0)),
        grows(stage(l0, st, c.ir.blocks@.len()), fin),
        reports(c, fin, st.results),
        meets(c, filled_to(l0, st, b.0 as nat), env, out),
        frames(filled_to(l0, st, b.0 as nat), env, e),
        carries(c.ir, b, t, args, e, out.vals),
        n > 0,
        !(performs(c, t, enters(c, b, t, out), (n - 1) as nat, span) is Odd),
        !(performs(c, t, enters(c, b, t, out), (n - 1) as nat, span) is Cut),
    ensures
        comes(
            c.machine,
            fin,
            past_edge(fin, t, args, e, out.scene),
            ends_as(
                c,
                st.results,
                performs(c, t, enters(c, b, t, out), (n - 1) as nat, span),
            ),
        ),
    decreases n, 0nat,
{
    let ts = c.ir.at(b).term.targets();
    assert(c.ir.edge(b, t));
    let i = choose|i: int| 0 <= i < ts.len() && ts[i] == t;
    assert(c.ir.has_block(t)) by {
        reveal(lowers);
        assert(c.ir.has_block(c.ir.at(b).term.targets()[i]));
    }
    assert(t != BlockId(0));
    let k = t.0 as nat;
    lemma_begun_facts(c, l0, st, k);
    lemma_enters(c, l0, st, b, t, out, env, e, args);
    let all = stage(l0, st, c.ir.blocks@.len());
    assert(fin.blocks[k as int].params == all.blocks[k as int].params);
    let env2 = passed_on(fin.blocks[t.0 as int].params, args, e, args.len());
    let lb = begun(stage(l0, st, k), k as usize);
    let next = enters(c, b, t, out);
    assert(at(lb, env2, next.scene) == Config::At(t.0 as int, 0, env2, out.scene));
    lemma_performs(c, l0, st, fin, t, env2, next, (n - 1) as nat, span);
}

/// All blocks are lowered.
pub proof fn lemma_finished_stage<H>(c: Stage<H>, l0: Low, st: Setting)
    requires
        lowers(l0, st),
        lowering_of(c, l0),
    ensures
        ({
            let l = stage(l0, st, l0.ir.blocks@.len());
            &&& sound(l)
            &&& one_result(l)
            &&& l.callees == c.callees
            &&& within(l0, l, weights(l0.ir, l0.ir.blocks@.len()) as int)
            &&& stage(l0, st, 0) == l0
            &&& begun(l0, 0) == l0
            &&& c.ir.entry == BlockId(0)
            &&& c.ir.has_block(BlockId(0))
        }),
{
    reveal(lowers);
    lemma_stands(l0, st, l0.ir.blocks@.len());
    lemma_stands(l0, st, 0);
    assert(grows(l0, stage(l0, st, l0.ir.blocks@.len())));
}

} // verus!
