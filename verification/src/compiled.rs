//! Compiled functions: what machine code does with arrays in memory is what the function
//! does, and one call of a compiled body is one iteration of its loop.
use vstd::prelude::*;

use crate::acts::{performs, End, Src, Stage};
use crate::cells::{law_addresses_stand_for_elements, Ground};
use crate::clif::{params_below, SigV};
use crate::cpu::{comes, Config};
use crate::drives::{at, meets};
use crate::error::Span;
use crate::faithful::{alive, lowers, made_once, reported, weights};
use crate::finished::{hears, law_lowered_functions_do_what_functions_do};
use crate::functions::ordinary;
use crate::ir::{block_views, BlockId, FuncIr};
use crate::iterate::{
    begins, call, get, iterate, law_one_call_is_one_iteration, passed, Ended, Returned, State,
};
use crate::lays::{one_result, room};
use crate::lower::{blank, lowered, opened, Low, Setting};
use crate::opening::{law_functions_open_prepared, parameters_fit, phi_count};
use crate::parallel::region_parts;
use crate::plan::RegionKind;
use crate::transfer::own_phis;
use crate::twins::{meaning, single, Cells};
use crate::value::Value;

verus! {

/// The lowering where the first block begins.
pub open spec fn begin_of<H>(c: Stage<H>, sig: SigV) -> Low {
    opened(c.ir, c.unchecked, c.callees, c.prebind, sig.params)->Ok_0
}

/// The machine code of the function.
pub open spec fn code_of<H>(c: Stage<H>, sig: SigV, st: Setting) -> Low {
    lowered(c.ir, c.unchecked, c.callees, c.prebind, sig, st)->Ok_0
}

/// The span of code that no source stands for.
pub open spec fn nowhere() -> Span {
    Span { start: 0, end: 0 }
}

/// What is asked of a function that is compiled: it is well formed, every value has one
/// definition and every array is made in one block, nothing goes back to the entry, no value
/// is read by its own definition, no region is handed to the host, and numbers suffice.
pub open spec fn compiles<H>(c: Stage<H>, sig: SigV, st: Setting) -> bool {
    let ir = c.ir;
    let n = ir.blocks@.len();
    &&& ir.wf()
    &&& ir.entry == BlockId(0)
    &&& single(ir)
    &&& made_once(ir)
    &&& forall|b: usize| b < n ==> #[trigger] own_phis(ir, b)
    &&& forall|a: BlockId| !#[trigger] ir.edge(a, BlockId(0))
    &&& one_result(blank(ir, c.unchecked, c.callees, c.prebind))
    &&& parameters_fit(ir, c.prebind)
    &&& params_below(ir, ir.at(ir.entry).phis@.len()).len() <= sig.params.len()
    &&& ordinary(st)
    &&& c.callees.len() <= usize::MAX
    &&& ir.n_locals <= u32::MAX
    &&& phi_count(ir, n) + sig.params.len() + ir.n_locals + 64 <= usize::MAX
    &&& n + ir.n_locals + 64 <= usize::MAX
    &&& opened(ir, c.unchecked, c.callees, c.prebind, sig.params) is Ok
    &&& lowered(ir, c.unchecked, c.callees, c.prebind, sig, st) is Ok
    &&& room(begin_of(c, sig), 256 + (weights(ir, n) + st.results.len()) as int)
}

/// The machine has what the function is given: in its environment, and in memory.
pub open spec fn starts<H>(
    g: Ground<H>,
    sig: SigV,
    st: Setting,
    env: Map<usize, Value>,
    s: State<Value, Cells>,
    src: Src<H>,
) -> bool {
    &&& compiles(g.c, sig, st)
    &&& alive(g.c, begin_of(g.c, sig), st)
    &&& hears(g.c)
    &&& meets(g.c, begin_of(g.c, sig), env, src)
    &&& g.plain()
    &&& g.apart()
    &&& g.calls_agree()
    &&& g.agrees(s, src)
}

/// A compiled function does what the function does. Where it gives something back, so does
/// the machine, and memory holds the elements that the function leaves, each at its address.
/// Where the function ends with an error, the machine tells the host its code and two
/// details, and nothing of the function follows. Where the host stops a run, the machine
/// stops.
///
/// The machine begins where the zeros of locals that nothing assigns are known.
pub proof fn law_compiled_functions_do_what_functions_do<H>(
    g: Ground<H>,
    sig: SigV,
    st: Setting,
    env: Map<usize, Value>,
    s: State<Value, Cells>,
    src: Src<H>,
    n: nat,
)
    requires
        starts(g, sig, st, env, s, src),
        !(performs(g.c, BlockId(0), src, n, nowhere()) is Odd),
        !(performs(g.c, BlockId(0), src, n, nowhere()) is Cut),
    ensures
        ({
            let fin = code_of(g.c, sig, st);
            let first = at(begin_of(g.c, sig), env, src.scene);
            let r = call(meaning(g.o), block_views(g.c.ir.blocks@), BlockId(0), s, n);
            match performs(g.c, BlockId(0), src, n, nowhere()) {
                End::Returned(vs, sc) => {
                    &&& comes(g.c.machine, fin, first, Config::Returned(vs, sc))
                    &&& r matches Returned::Done(t)
                    &&& g.holds(t.mem, sc.mem)
                    &&& t.cell == (g.slot)(sc.host)
                },
                End::Fails(code, x, y, sc) => {
                    &&& comes(
                        g.c.machine,
                        fin,
                        first,
                        reported(g.c, st.results, code, x, y, sc),
                    )
                    &&& r is Halted
                },
                End::Stopped(sc) => comes(g.c.machine, fin, first, Config::Stopped(sc)),
                _ => false,
            }
        }),
{
    let c = g.c;
    law_functions_open_prepared(c.ir, c.unchecked, c.callees, c.prebind, sig.params);
    let l0 = begin_of(c, sig);
    assert(lowers(l0, st)) by {
        reveal(lowers);
    }
    law_lowered_functions_do_what_functions_do(c, sig, st, env, src, n, nowhere());
    law_addresses_stand_for_elements(g, BlockId(0), s, src, n, nowhere());
}

/// One machine call of a compiled body is one iteration of its loop. Where the machine
/// returns, memory holds the elements that the iteration leaves; after a full round the cell
/// holds the accumulator that comes back around the loop, and where the loop is left the cell
/// is as it was. Where the machine reports an error, the iteration ends with one.
pub proof fn law_one_machine_call_is_one_iteration<H>(
    g: Ground<H>,
    sig: SigV,
    st: Setting,
    env: Map<usize, Value>,
    src: Src<H>,
    ir: FuncIr,
    header: BlockId,
    kind: RegionKind,
    s: State<Value, Cells>,
    ctx: Value,
    n: nat,
)
    requires
        ir.wf(),
        ir.blocks@.len() < u32::MAX,
        ir.has_block(header),
        region_parts(ir, header, kind) is Some,
        (region_parts(ir, header, kind)->0).is_body(g.c.ir),
        begins(meaning(g.o), region_parts(ir, header, kind)->0, s, ctx),
        starts(g, sig, st, env, passed(region_parts(ir, header, kind)->0, s, ctx), src),
        !(performs(g.c, BlockId(0), src, n + 1, nowhere()) is Odd),
        !(performs(g.c, BlockId(0), src, n + 1, nowhere()) is Cut),
        !(iterate(meaning(g.o), region_parts(ir, header, kind)->0, header, s, n) is Cut),
    ensures
        ({
            let p = region_parts(ir, header, kind)->0;
            let m = meaning(g.o);
            let fin = code_of(g.c, sig, st);
            let first = at(begin_of(g.c, sig), env, src.scene);
            match performs(g.c, BlockId(0), src, n + 1, nowhere()) {
                End::Returned(vs, sc) => {
                    &&& comes(g.c.machine, fin, first, Config::Returned(vs, sc))
                    &&& match iterate(m, p, header, s, n) {
                        Ended::Back(t) => g.holds(t.mem, sc.mem) && (g.slot)(sc.host) == (
                        match p.acc {
                            Some(a) => get(m, t, a.back),
                            None => s.cell,
                        }),
                        Ended::Left(t) => g.holds(t.mem, sc.mem) && (g.slot)(sc.host) == s.cell,
                        _ => false,
                    }
                },
                End::Fails(code, x, y, sc) => {
                    &&& comes(
                        g.c.machine,
                        fin,
                        first,
                        reported(g.c, st.results, code, x, y, sc),
                    )
                    &&& iterate(m, p, header, s, n) is Halted
                },
                End::Stopped(sc) => comes(g.c.machine, fin, first, Config::Stopped(sc)),
                _ => false,
            }
        }),
{
    let p = region_parts(ir, header, kind)->0;
    let given = passed(p, s, ctx);
    law_one_call_is_one_iteration(meaning(g.o), ir, header, kind, s, ctx, n);
    law_compiled_functions_do_what_functions_do(g, sig, st, env, given, src, n + 1);
}

} // verus!
