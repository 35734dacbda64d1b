//! Finished functions in machine code: the block that reports errors, and the law that
//! lowered functions do what the functions do.
use vstd::prelude::*;

use crate::acts::{performs, returns_of, Src, Stage};
use crate::clif::{ClifTy, OpV, SigV};
use crate::cpu::{comes, lemma_comes, lemma_comes_on, tick, values, Reply, Scene};
use crate::drives::{at, lemma_adds_ins, lemma_called, lemma_computes, meets};
use crate::error::Span;
use crate::faithful::{
    alarm_at, alive, ends_as, lemma_finished_stage, lemma_performs, lowering_of, lowers, reported,
    reports, weights, zero_of, zeros_of,
};
use crate::floats::FloatWorld;
use crate::functions::stage;
use crate::ir::BlockId;
use crate::lays::{
    grows, lays, lemma_grows_on, lemma_grows_self, lemma_import, lemma_ins, lemma_lays_on,
    lemma_one_result, lemma_put, one_result, room, sound,
};
use crate::lower::{lowered, opened, zero_op, Low, Setting};
use crate::transfer::{adds, lemma_adds_none, machine_values};
use crate::value::Value;

verus! {

/// Zeros at the end of a block: they are what they should be.
proof fn lemma_zero_list(w: FloatWorld, l: Low, env: Map<usize, Value>, tys: Seq<ClifTy>, k: nat)
    requires
        sound(l),
        k <= tys.len(),
        room(l, 32 + k as int),
    ensures
        ({
            let (s, zs) = l.zero_list(tys, k);
            &&& adds(w, l, s, env, k)
            &&& lays(l, s)
            &&& s.tys.len() == l.tys.len() + k
            &&& s.blocks.len() == l.blocks.len()
            &&& s.imports == l.imports
            &&& zs.len() == k
            &&& forall|i: int|
                0 <= i < k ==> s.has(#[trigger] zs[i]) && machine_values(w, l, s, env)[zs[i].0]
                    == zero_of(tys[i])
        }),
    decreases k,
{
    lemma_grows_self(l);
    if k == 0 {
        lemma_adds_none(w, l, env);
    } else {
        let p = (k - 1) as nat;
        lemma_zero_list(w, l, env, tys, p);
        let (s, before) = l.zero_list(tys, p);
        let t = tys[k - 1];
        lemma_ins(s, zero_op(t), t);
        lemma_lays_on(l, s, s.ins(zero_op(t), t));
        lemma_adds_ins(w, l, s, zero_op(t), t, env, p);
        let (u, zs) = l.zero_list(tys, k);
        assert(zs == before.push(s.next()));
        assert forall|i: int| 0 <= i < k implies u.has(#[trigger] zs[i]) && machine_values(
            w,
            l,
            u,
            env,
        )[zs[i].0] == zero_of(tys[i]) by {
            if i < p {
                assert(zs[i] == before[i]);
                assert(s.has(before[i]));
            }
        }
    }
}

/// The lowering without its mark of the block that reports errors.
pub open spec fn unmarked(l: Low) -> Low {
    Low { panic: None, ..l }
}

proof fn lemma_zero_list_unmarked(l: Low, tys: Seq<ClifTy>, k: nat)
    ensures
        unmarked(l).zero_list(tys, k).0 == unmarked(l.zero_list(tys, k).0),
        unmarked(l).zero_list(tys, k).1 == l.zero_list(tys, k).1,
        l.zero_list(tys, k).0.panic == l.panic,
    decreases k,
{
    if k > 0 {
        lemma_zero_list_unmarked(l, tys, (k - 1) as nat);
    }
}

/// The host can be told of errors: nothing comes back.
pub open spec fn hears<H>(c: Stage<H>) -> bool {
    &&& returns_of(c.callees, "helix_panic"@).len() == 0
    &&& forall|xs: Seq<Value>, sc: Scene<H>|
        (#[trigger] (c.machine.host)("helix_panic"@, xs, sc)) matches Reply::Gives(rs, _)
            ==> rs.len() == 0
}

/// The block that reports errors is finished: what was there stays, and it reports.
#[verifier::rlimit(30)]
pub proof fn lemma_finish<H>(c: Stage<H>, l: Low, results: Seq<ClifTy>)
    requires
        sound(l),
        one_result(l),
        l.callees == c.callees,
        room(l, 64 + results.len() as int),
        hears(c),
        l.finish(results) is Ok,
    ensures
        grows(l, l.finish(results)->Ok_0),
        reports(c, l.finish(results)->Ok_0, results),
{
    reveal(reports);
    let fin = l.finish(results)->Ok_0;
    lemma_grows_self(l);
    if let Some(p) = l.panic {
        let m = c.machine;
        let name = "helix_panic"@;
        let l1 = unmarked(l.at(p));
        lemma_grows_self(l1);
        let params = l.blocks[p as int].params;
        let args = seq![params[0], params[1], params[2]];
        assert(sound(l1));
        lemma_import(l1, name);
        lemma_one_result(l, name);
        let (s, f) = l.at(p).import(name)->Ok_0;
        let (s1, f1) = l1.import(name)->Ok_0;
        assert(s1 == unmarked(s) && f1 == f);
        let t1 = s1.call(f, args);
        lemma_put(s1, OpV::Call(f, args), s1.import_sig(f).returns);
        assert(t1 == unmarked(s.call(f, args)));
        let t = s.call(f, args);
        let n = results.len();
        lemma_zero_list_unmarked(t, results, n);
        let (z, zs) = t.zero_list(results, n);
        let (z1, zs1) = t1.zero_list(results, n);
        lemma_zero_list(m.floats, t1, Map::empty(), results, n);
        let op = OpV::Return(zs);
        lemma_put(z1, op, seq![]);
        let f1n = z1.end(op);
        assert(fin == z.end(op));
        assert(f1n == unmarked(fin));
        lemma_lays_on(l1, s1, t1);
        lemma_lays_on(l1, t1, z1);
        lemma_lays_on(l1, z1, f1n);
        assert(grows(l, fin)) by {
            assert(grows(l1, f1n));
        }
        assert(grows(f1n, fin));
        lemma_grows_on(z1, f1n, fin);
        lemma_grows_on(t1, z1, fin);
        assert forall|e: Map<usize, Value>, code: i64, x: i64, y: i64, sc: Scene<H>|
            #![trigger reported(c, results, code, x, y, sc), alarm_at(fin, e, sc)]
            ({
                let q = fin.blocks[fin.panic->0 as int].params;
                &&& e[q[0].0] == Value::I64(code)
                &&& e[q[1].0] == Value::I64(x)
                &&& e[q[2].0] == Value::I64(y)
            }) implies comes(
            m,
            fin,
            alarm_at(fin, e, sc),
            reported(c, results, code, x, y, sc),
        ) by {
            assert(fin.blocks[p as int].params == l.blocks[p as int].params);
            let from = alarm_at(fin, e, sc);
            assert(from == at(s1, e, sc));
            let told = seq![Value::I64(code), Value::I64(x), Value::I64(y)];
            assert(values(args, e) =~= told);
            lemma_called(m, fin, s1, f, name, args, e, sc);
            match (m.host)(name, told, sc) {
                Reply::Stops(now) => {},
                Reply::Gives(rs, now) => {
                    assert(rs.len() == 0);
                    lemma_zero_list(m.floats, t1, e, results, n);
                    let e2 = machine_values(m.floats, t1, z1, e);
                    lemma_computes(m, fin, t1, z1, e, n, now);
                    let b = z1.cur as int;
                    let k = z1.blocks[b].insts.len() as int;
                    assert(fin.blocks[b].insts[k] == f1n.blocks[b].insts[k]);
                    assert(fin.blocks[b].params == f1n.blocks[b].params);
                    let last = at(z1, e2, now);
                    lemma_comes(m, fin, last);
                    assert(values(zs, e2) =~= zeros_of(results)) by {
                        assert forall|i: int| 0 <= i < n implies values(zs, e2)[i]
                            == zeros_of(results)[i] by {
                            assert(zs1[i] == zs[i]);
                        }
                    }
                    lemma_comes_on(m, fin, from, at(t1, e, now), last);
                    lemma_comes_on(m, fin, from, last, tick(m, fin, last));
                },
            }
        }
    }
}

/// Lowered functions do what the functions do, with their memory, their calls, what they
/// print and their errors.
///
/// A run of the function that begins with what the machine knows ends on the machine as it
/// ends: where it gives something back, with the same values and the same memory and host;
/// where the host ends the program, so; and where it ends with an error, the host learns of
/// the error and of its two details before anything else happens, and then the function
/// gives back zeros. Instructions are checked, or not, as the lowering says.
///
/// Every value has one definition that does not read it, no region is handed to the host,
/// every array is made in one place, and no edge goes to the entry. Where a block begins,
/// only values count that are alive there, and those were lowered before.
#[verifier::rlimit(30)]
pub proof fn law_lowered_functions_do_what_functions_do<H>(
    c: Stage<H>,
    sig: SigV,
    st: Setting,
    env: Map<usize, Value>,
    src: Src<H>,
    n: nat,
    span: Span,
)
    requires
        opened(c.ir, c.unchecked, c.callees, c.prebind, sig.params) is Ok,
        ({
            let l0 = opened(c.ir, c.unchecked, c.callees, c.prebind, sig.params)->Ok_0;
            &&& lowers(l0, st)
            &&& lowering_of(c, l0)
            &&& alive(c, l0, st)
            &&& room(l0, 256 + (weights(c.ir, c.ir.blocks@.len()) + st.results.len()) as int)
            &&& meets(c, l0, env, src)
        }),
        forall|a: BlockId| !#[trigger] c.ir.edge(a, BlockId(0)),
        lowered(c.ir, c.unchecked, c.callees, c.prebind, sig, st) is Ok,
        hears(c),
        !(performs(c, c.ir.entry, src, n, span) is Odd),
        !(performs(c, c.ir.entry, src, n, span) is Cut),
    ensures
        ({
            let l0 = opened(c.ir, c.unchecked, c.callees, c.prebind, sig.params)->Ok_0;
            let fin = lowered(c.ir, c.unchecked, c.callees, c.prebind, sig, st)->Ok_0;
            comes(
                c.machine,
                fin,
                at(l0, env, src.scene),
                ends_as(c, st.results, performs(c, c.ir.entry, src, n, span)),
            )
        }),
{
    let l0 = opened(c.ir, c.unchecked, c.callees, c.prebind, sig.params)->Ok_0;
    let fin = lowered(c.ir, c.unchecked, c.callees, c.prebind, sig, st)->Ok_0;
    let l = stage(l0, st, c.ir.blocks@.len());
    lemma_finished_stage(c, l0, st);
    lemma_finish(c, l, st.results);
    assert(l.finish(st.results) == Ok::<Low, Seq<char>>(fin));
    lemma_performs(c, l0, st, fin, c.ir.entry, env, src, n, span);
}

} // verus!
