//! What plans hold: every loop that is approved and lies outermost or innermost, once, in
//! the order of the nest, and nothing else.
use vstd::prelude::*;

use crate::canon::{canonical, Bound};
use crate::ir::FuncIr;
use crate::loops::{Loop, LoopInfo};
use crate::plan::{
    function_regions, innermost, program_regions, region_for, reports_on, Judgement, LoopReport,
    Region, RegionKind,
};
use crate::search::{first_where, lemma_first_where, lemma_first_where_is};
use crate::text::natural_text;

verus! {

/// No other loop of the nest has fewer blocks, all of them blocks of this loop.
pub open spec fn holds_no_loop(info: LoopInfo, lp: Loop) -> bool {
    forall|i: int|
        0 <= i < info.loops@.len() && (#[trigger] info.loops@[i]).id != lp.id
            && info.loops@[i].blocks@.len() < lp.blocks@.len() ==> exists|j: int|
            0 <= j < info.loops@[i].blocks@.len() && !lp.blocks@.contains(
                #[trigger] info.loops@[i].blocks@[j],
            )
}

/// Report `m` is the first on the loop.
pub open spec fn first_report(reports: Seq<LoopReport>, lp: Loop, m: int) -> bool {
    &&& 0 <= m < reports.len()
    &&& reports[m].loop_id == lp.id
    &&& forall|n: int| 0 <= n < m ==> (#[trigger] reports[n]).loop_id != lp.id
}

/// The loop is to be run in parallel: it counts, its report does not keep it sequential, and
/// it is outermost or holds no other loop.
pub open spec fn plannable(
    func: FuncIr,
    info: LoopInfo,
    reports: Seq<LoopReport>,
    lp: Loop,
    m: int,
) -> bool {
    &&& canonical(func, lp.header, lp.blocks@) is Some
    &&& first_report(reports, lp, m)
    &&& !(reports[m].verdict@ is Stays)
    &&& lp.depth == 1 || holds_no_loop(info, lp)
}

/// The number of the value that a bound is, where it is no constant.
pub open spec fn names_bound(v: Option<u32>, b: Bound) -> bool {
    match b {
        Bound::Const(_) => v is None,
        Bound::Sym(s) => v == Some(s),
    }
}

/// The region is that of the loop: its header, the operator of its verdict, its bounds, and
/// a body named after the function and the loop.
pub open spec fn region_of_loop(
    func: FuncIr,
    func_idx: int,
    reports: Seq<LoopReport>,
    lp: Loop,
    m: int,
    r: Region,
) -> bool {
    let c = canonical(func, lp.header, lp.blocks@)->0;
    &&& r.func_idx == func_idx
    &&& r.header == lp.header
    &&& match reports[m].verdict@ {
        Judgement::Safe => r.kind is DoAll && r.reduction is None,
        Judgement::Reduces { op, .. } => r.kind == RegionKind::Reduction(op) && r.reduction
            == Some(op),
        Judgement::Stays { .. } => false,
    }
    &&& names_bound(r.start_val, c.start)
    &&& names_bound(r.end_val, c.end)
    &&& r.body_fn_name == func.name@ + ".loop"@ + natural_text(lp.id as nat) + ".body"@
}

/// The loop at the position is to be run in parallel, and the region is its own.
pub open spec fn planned_as(
    func: FuncIr,
    func_idx: int,
    info: LoopInfo,
    reports: Seq<LoopReport>,
    j: int,
    r: Region,
) -> bool {
    exists|m: int| #[trigger]
        plannable(func, info, reports, info.loops@[j], m) && region_of_loop(
            func,
            func_idx,
            reports,
            info.loops@[j],
            m,
            r,
        )
}

/// Innermost loops are those that hold no other.
proof fn lemma_innermost(info: LoopInfo, lp: Loop)
    ensures
        innermost(info, lp) <==> holds_no_loop(info, lp),
{
    if innermost(info, lp) {
        assert forall|i: int|
            0 <= i < info.loops@.len() && (#[trigger] info.loops@[i]).id != lp.id
                && info.loops@[i].blocks@.len() < lp.blocks@.len() implies exists|j: int|
            0 <= j < info.loops@[i].blocks@.len() && !lp.blocks@.contains(
                #[trigger] info.loops@[i].blocks@[j],
            ) by {
            assert(!crate::loops::covers(lp.blocks@, info.loops@[i].blocks@));
        }
    }
    if holds_no_loop(info, lp) {
        assert forall|i: int| 0 <= i < info.loops@.len() implies (
        #[trigger] info.loops@[i]).id == lp.id || info.loops@[i].blocks@.len()
            >= lp.blocks@.len() || !crate::loops::covers(
            lp.blocks@,
            info.loops@[i].blocks@,
        ) by {
            if info.loops@[i].id != lp.id && info.loops@[i].blocks@.len() < lp.blocks@.len() {
                let j = choose|j: int|
                    0 <= j < info.loops@[i].blocks@.len() && !lp.blocks@.contains(
                        #[trigger] info.loops@[i].blocks@[j],
                    );
                assert(!lp.blocks@.contains(info.loops@[i].blocks@[j]));
            }
        }
    }
}

/// A loop has a region exactly where it is to be run in parallel, and it is its own.
pub proof fn law_regions_are_of_plannable_loops(
    func: FuncIr,
    func_idx: int,
    info: LoopInfo,
    reports: Seq<LoopReport>,
    lp: Loop,
)
    ensures
        region_for(func, func_idx, info, reports, lp) is Some <==> exists|m: int| #[trigger]
            plannable(func, info, reports, lp, m),
        forall|m: int| #[trigger]
            plannable(func, info, reports, lp, m) ==> region_of_loop(
                func,
                func_idx,
                reports,
                lp,
                m,
                region_for(func, func_idx, info, reports, lp)->0,
            ),
{
    lemma_innermost(info, lp);
    lemma_first_where(reports, reports_on(lp.id));
    if region_for(func, func_idx, info, reports, lp) is Some {
        let m = first_where(reports, reports_on(lp.id))->0;
        assert forall|n: int| 0 <= n < m implies (#[trigger] reports[n]).loop_id != lp.id by {
            assert(!reports_on(lp.id)(reports[n]));
        }
        assert(plannable(func, info, reports, lp, m));
    }
    assert forall|m: int| #[trigger] plannable(func, info, reports, lp, m) implies (region_for(
        func,
        func_idx,
        info,
        reports,
        lp,
    ) is Some) && region_of_loop(
        func,
        func_idx,
        reports,
        lp,
        m,
        region_for(func, func_idx, info, reports, lp)->0,
    ) by {
        lemma_first_where_is(reports, reports_on(lp.id), m);
    }
}

/// Every loop of a function that counts, that its report does not keep sequential, and that
/// is outermost or holds no other loop has its region in the plan of the function.
pub proof fn law_approved_loops_are_planned(
    func: FuncIr,
    func_idx: int,
    info: LoopInfo,
    reports: Seq<LoopReport>,
    k: nat,
    j: int,
    m: int,
) -> (i: int)
    requires
        0 <= j < k <= info.loops@.len(),
        plannable(func, info, reports, info.loops@[j], m),
    ensures
        0 <= i < function_regions(func, func_idx, info, reports, k).len(),
        region_of_loop(
            func,
            func_idx,
            reports,
            info.loops@[j],
            m,
            function_regions(func, func_idx, info, reports, k)[i],
        ),
    decreases k,
{
    let before = function_regions(func, func_idx, info, reports, (k - 1) as nat);
    law_regions_are_of_plannable_loops(func, func_idx, info, reports, info.loops@[j]);
    if j == k - 1 {
        before.len() as int
    } else {
        law_approved_loops_are_planned(func, func_idx, info, reports, (k - 1) as nat, j, m)
    }
}

/// The plan of a function holds the regions of its loops in the order of the nest, each once:
/// the loops that its regions are of are returned, in ascending order, and all of them are to
/// be run in parallel.
pub proof fn law_plans_follow_the_nest(
    func: FuncIr,
    func_idx: int,
    info: LoopInfo,
    reports: Seq<LoopReport>,
    k: nat,
) -> (js: Seq<int>)
    requires
        k <= info.loops@.len(),
    ensures
        ({
            let all = function_regions(func, func_idx, info, reports, k);
            &&& js.len() == all.len()
            &&& forall|i: int| 0 <= i < js.len() ==> 0 <= #[trigger] js[i] < k
            &&& forall|a: int, b: int| 0 <= a < b < js.len() ==> #[trigger] js[a] < #[trigger] js[b]
            &&& forall|i: int|
                0 <= i < js.len() ==> planned_as(
                    func,
                    func_idx,
                    info,
                    reports,
                    #[trigger] js[i],
                    all[i],
                )
        }),
    decreases k,
{
    if k == 0 {
        seq![]
    } else {
        let before = function_regions(func, func_idx, info, reports, (k - 1) as nat);
        let all = function_regions(func, func_idx, info, reports, k);
        let lp = info.loops@[k - 1];
        let old_js = law_plans_follow_the_nest(func, func_idx, info, reports, (k - 1) as nat);
        law_regions_are_of_plannable_loops(func, func_idx, info, reports, lp);
        match region_for(func, func_idx, info, reports, lp) {
            Some(r) => {
                let js = old_js.push(k - 1);
                let m = choose|m: int| #[trigger] plannable(func, info, reports, lp, m);
                assert forall|i: int| 0 <= i < js.len() implies planned_as(
                    func,
                    func_idx,
                    info,
                    reports,
                    #[trigger] js[i],
                    all[i],
                ) by {
                    if i < old_js.len() {
                        assert(js[i] == old_js[i]);
                        assert(all[i] == before[i]);
                        assert(planned_as(func, func_idx, info, reports, old_js[i], before[i]));
                    } else {
                        assert(plannable(func, info, reports, info.loops@[js[i]], m));
                    }
                }
                assert forall|a: int, b: int| 0 <= a < b < js.len() implies #[trigger] js[a]
                    < #[trigger] js[b] by {
                    if b < old_js.len() {
                        assert(js[a] == old_js[a] && js[b] == old_js[b]);
                    } else {
                        assert(js[a] == old_js[a]);
                    }
                }
                js
            },
            None => old_js,
        }
    }
}

/// The plan of a program holds every region of every function, with the position of its
/// function.
pub proof fn law_programs_are_planned(
    funcs: Seq<FuncIr>,
    loops: Seq<LoopInfo>,
    reports: Seq<Vec<LoopReport>>,
    n: nat,
    f: int,
    j: int,
    m: int,
) -> (i: int)
    requires
        0 <= f < n,
        0 <= j < loops[f].loops@.len(),
        plannable(funcs[f], loops[f], reports[f]@, loops[f].loops@[j], m),
    ensures
        0 <= i < program_regions(funcs, loops, reports, n).len(),
        region_of_loop(
            funcs[f],
            f,
            reports[f]@,
            loops[f].loops@[j],
            m,
            program_regions(funcs, loops, reports, n)[i],
        ),
    decreases n,
{
    let before = program_regions(funcs, loops, reports, (n - 1) as nat);
    if f == n - 1 {
        before.len() + law_approved_loops_are_planned(
            funcs[f],
            f,
            loops[f],
            reports[f]@,
            loops[f].loops@.len(),
            j,
            m,
        )
    } else {
        law_programs_are_planned(funcs, loops, reports, (n - 1) as nat, f, j, m)
    }
}

/// Every region of a program's plan is that of a loop of the function whose position it
/// gives, and the loop is to be run in parallel. The loop and its report are returned.
pub proof fn law_planned_regions_are_of_loops(
    funcs: Seq<FuncIr>,
    loops: Seq<LoopInfo>,
    reports: Seq<Vec<LoopReport>>,
    n: nat,
    i: int,
) -> (w: (int, int, int))
    requires
        0 <= i < program_regions(funcs, loops, reports, n).len(),
    ensures
        ({
            let (f, j, m) = w;
            &&& 0 <= f < n
            &&& 0 <= j < loops[f].loops@.len()
            &&& plannable(funcs[f], loops[f], reports[f]@, loops[f].loops@[j], m)
            &&& region_of_loop(
                funcs[f],
                f,
                reports[f]@,
                loops[f].loops@[j],
                m,
                program_regions(funcs, loops, reports, n)[i],
            )
        }),
    decreases n,
{
    let before = program_regions(funcs, loops, reports, (n - 1) as nat);
    if i < before.len() {
        law_planned_regions_are_of_loops(funcs, loops, reports, (n - 1) as nat, i)
    } else {
        let f = n - 1;
        let js = law_plans_follow_the_nest(
            funcs[f],
            f,
            loops[f],
            reports[f]@,
            loops[f].loops@.len(),
        );
        let j = js[i - before.len()];
        let r = program_regions(funcs, loops, reports, n)[i];
        assert(planned_as(funcs[f], f, loops[f], reports[f]@, js[i - before.len()], r));
        let m = choose|m: int| #[trigger]
            plannable(funcs[f], loops[f], reports[f]@, loops[f].loops@[j], m) && region_of_loop(
                funcs[f],
                f,
                reports[f]@,
                loops[f].loops@[j],
                m,
                r,
            );
        (f, j, m)
    }
}

} // verus!
