//! From the functions of a program to the plan of what runs in parallel.
use vstd::prelude::*;

use crate::access::inst_count;
use crate::graph::{all_loops, in_loop, is_header, loop_members, loops_below, natural_loop};
use crate::ir::{BlockId, FuncIr};
use crate::jit::{are_planned, compile_fault, is_compiled, JitEngine};
use crate::lower::{can_lower, lowerable};
use crate::loops::{find_loops, loop_nest, LoopInfo, NestedLoop};
use crate::parallel::{PlannedRegion, RegionIds};
use crate::plan::{
    analyzable, analyze, build_plan, program_regions, regions, report_of, LoopReport,
    ParallelPlan,
};

verus! {

/// How many instructions the first `k` blocks hold.
pub open spec fn total_insts(f: FuncIr, k: nat) -> nat
    decreases k,
{
    if k == 0 {
        0
    } else {
        total_insts(f, (k - 1) as nat) + f.blocks@[k - 1].insts@.len()
    }
}

/// The function holds together, and its instructions can be numbered.
pub open spec fn fit(f: FuncIr) -> bool {
    f.wf() && total_insts(f, f.blocks@.len()) <= u32::MAX
}

/// Whether all targets of a terminator are below `n`.
fn targets_below(f: &FuncIr, a: BlockId, n: usize) -> (r: bool)
    requires
        f.has_block(a),
        n == f.blocks@.len(),
    ensures
        r == forall|k: int|
            0 <= k < f.at(a).term.targets().len() ==> f.has_block(
                #[trigger] f.at(a).term.targets()[k],
            ),
{
    let targets = crate::graph::successors(&f.blocks[a.0 as usize].term);
    let mut i: usize = 0;
    while i < targets.len()
        invariant
            n == f.blocks@.len(),
            targets@ == f.at(a).term.targets(),
            i <= targets@.len(),
            forall|k: int|
                0 <= k < i ==> f.has_block(#[trigger] f.at(a).term.targets()[k]),
        decreases targets@.len() - i,
    {
        if targets[i].0 as usize >= n {
            assert(!f.has_block(f.at(a).term.targets()[i as int]));
            return false;
        }
        i = i + 1;
    }
    true
}

/// Whether the function holds together and its instructions can be numbered.
pub fn can_analyze(f: &FuncIr) -> (r: bool)
    ensures
        r == fit(*f),
{
    let n: usize = f.blocks.len();
    if n > 0xffff_ffff || f.entry.0 as usize >= n {
        return false;
    }
    let mut total: u64 = 0;
    let mut i: usize = 0;
    while i < n
        invariant
            n == f.blocks@.len(),
            n <= u32::MAX,
            i <= n,
            total <= u32::MAX,
            total == total_insts(*f, i as nat),
            f.has_block(f.entry),
            forall|a: BlockId, k: int|
                a.0 < i && 0 <= k < f.at(a).term.targets().len() ==> f.has_block(
                    #[trigger] f.at(a).term.targets()[k],
                ),
        decreases n - i,
    {
        let a = BlockId(i as u32);
        if !targets_below(f, a, n) {
            assert(!f.wf());
            return false;
        }
        let here: usize = f.blocks[i].insts.len();
        proof {
            lemma_total_grows(*f, (i + 1) as nat, n as nat);
        }
        if here > 0xffff_ffff {
            return false;
        }
        total = total + here as u64;
        if total > 0xffff_ffff {
            return false;
        }
        i = i + 1;
    }
    true
}

/// More blocks hold no fewer instructions.
proof fn lemma_total_grows(f: FuncIr, a: nat, b: nat)
    requires
        a <= b,
    ensures
        total_insts(f, a) <= total_insts(f, b),
    decreases b,
{
    if a < b {
        lemma_total_grows(f, a, (b - 1) as nat);
    }
}

/// The blocks of a loop hold no more instructions than all blocks.
proof fn lemma_members_count(f: FuncIr, h: BlockId, k: nat)
    requires
        k <= f.blocks@.len(),
        k <= u32::MAX,
    ensures
        inst_count(f, loop_members(f, h, k), loop_members(f, h, k).len()) <= total_insts(f, k),
        forall|i: int|
            0 <= i < loop_members(f, h, k).len() ==> (#[trigger] loop_members(f, h, k)[i]).0 < k,
    decreases k,
{
    if k > 0 {
        lemma_members_count(f, h, (k - 1) as nat);
        let before = loop_members(f, h, (k - 1) as nat);
        let now = loop_members(f, h, k);
        if in_loop(f, h, BlockId((k - 1) as u32)) {
            lemma_count_prefix(f, now, before, before.len());
        }
    }
}

/// Only the listed blocks count.
proof fn lemma_count_prefix(f: FuncIr, a: Seq<BlockId>, b: Seq<BlockId>, n: nat)
    requires
        n <= a.len(),
        n <= b.len(),
        forall|i: int| 0 <= i < n ==> a[i] == b[i],
    ensures
        inst_count(f, a, n) == inst_count(f, b, n),
    decreases n,
{
    if n > 0 {
        lemma_count_prefix(f, a, b, (n - 1) as nat);
    }
}

/// A discovered loop is the natural loop of a header.
proof fn lemma_loops_below(f: FuncIr, k: nat, i: int)
    requires
        k <= u32::MAX,
        0 <= i < loops_below(f, k).len(),
    ensures
        loops_below(f, k)[i].0.0 < k,
        loops_below(f, k)[i].1 == natural_loop(f, loops_below(f, k)[i].0),
    decreases k,
{
    if k > 0 {
        let before = loops_below(f, (k - 1) as nat);
        if i < before.len() {
            lemma_loops_below(f, (k - 1) as nat, i);
        } else {
            assert(is_header(f, BlockId((k - 1) as u32)));
        }
    }
}

/// Every loop of the nest can be analyzed.
pub proof fn law_loops_can_be_analyzed(f: FuncIr, i: int)
    requires
        fit(f),
        0 <= i < loop_nest(f).len(),
    ensures
        analyzable(f, loop_nest(f)[i].header, loop_nest(f)[i].blocks),
{
    let pairs = loop_nest(f).map_values(|l: NestedLoop| (l.header, l.blocks));
    crate::loops::law_nest_keeps_every_loop(f);
    let e = pairs[i];
    assert(pairs.contains(e));
    pairs.to_multiset_ensures();
    all_loops(f).to_multiset_ensures();
    assert(pairs.to_multiset().count(e) > 0);
    assert(all_loops(f).contains(e));
    let j = choose|j: int| 0 <= j < all_loops(f).len() && all_loops(f)[j] == e;
    lemma_loops_below(f, f.blocks@.len(), j);
    lemma_members_count(f, e.0, f.blocks@.len());
}

/// What is found out about a program.
#[derive(Debug)]
pub struct Analysis {
    pub loops: Vec<LoopInfo>,
    pub reports: Vec<Vec<LoopReport>>,
    pub plan: ParallelPlan,
}

/// The loops and reports are those of the function.
pub open spec fn is_analyzed(f: FuncIr, l: LoopInfo, reports: Seq<LoopReport>) -> bool {
    &&& l.nested() == loop_nest(f)
    &&& l.numbered()
    &&& reports.len() == l.loops@.len()
    &&& forall|i: int|
        0 <= i < reports.len() ==> (#[trigger] reports[i])@ == report_of(
            f,
            i,
            l.loops@[i].header,
            l.loops@[i].blocks@,
            l.loops@[i].depth,
        )
}

/// What was found out is true of the program.
pub open spec fn is_analysis(funcs: Seq<FuncIr>, a: Analysis) -> bool {
    &&& a.loops@.len() == funcs.len()
    &&& a.reports@.len() == funcs.len()
    &&& forall|i: int|
        #![trigger funcs[i]]
        0 <= i < funcs.len() ==> is_analyzed(funcs[i], a.loops@[i], a.reports@[i]@)
    &&& regions(a.plan.regions@) == program_regions(funcs, a.loops@, a.reports@, funcs.len())
}

/// Finds the loops of a program, reports on them, and plans what runs in parallel.
pub fn analyze_program(funcs: &Vec<FuncIr>) -> (r: Analysis)
    requires
        forall|i: int| 0 <= i < funcs@.len() ==> fit(#[trigger] funcs@[i]),
    ensures
        is_analysis(funcs@, r),
{
    let mut loops: Vec<LoopInfo> = Vec::new();
    let mut reports: Vec<Vec<LoopReport>> = Vec::new();
    let mut i: usize = 0;
    while i < funcs.len()
        invariant
            i <= funcs@.len(),
            loops@.len() == i,
            reports@.len() == i,
            forall|i: int| 0 <= i < funcs@.len() ==> fit(#[trigger] funcs@[i]),
            forall|j: int|
                0 <= j < i ==> is_analyzed(
                    #[trigger] funcs@[j],
                    loops@[j],
                    reports@[j]@,
                ),
            forall|a: int, j: int|
                0 <= a < i && 0 <= j < loops@[a].loops@.len() ==> funcs@[a].has_block(
                    (#[trigger] loops@[a].loops@[j]).header,
                ),
        decreases funcs@.len() - i,
    {
        let f = &funcs[i];
        assert(fit(funcs@[i as int]));
        let l = find_loops(f);
        proof {
            assert forall|j: int| 0 <= j < l.loops@.len() implies analyzable(
                *f,
                (#[trigger] l.loops@[j]).header,
                l.loops@[j].blocks@,
            ) by {
                assert(l.nested()[j] == loop_nest(*f)[j]);
                law_loops_can_be_analyzed(*f, j);
            }
        }
        let rep = analyze(f, &l);
        proof {
            assert(is_analyzed(*f, l, rep@));
        }
        loops.push(l);
        reports.push(rep);
        i = i + 1;
    }
    let plan = build_plan(funcs, &loops, &reports);
    Analysis { loops, reports, plan }
}

/// Every planned region starts at a loop of its function.
pub proof fn law_regions_start_at_loops(
    funcs: Seq<FuncIr>,
    loops: Seq<LoopInfo>,
    reports: Seq<Vec<LoopReport>>,
    n: nat,
    i: int,
)
    requires
        n <= funcs.len(),
        n <= loops.len(),
        n <= reports.len(),
        0 <= i < program_regions(funcs, loops, reports, n).len(),
    ensures
        ({
            let r = program_regions(funcs, loops, reports, n)[i];
            &&& 0 <= r.func_idx < n
            &&& exists|j: int|
                0 <= j < loops[r.func_idx].loops@.len() && r.header == (
                #[trigger] loops[r.func_idx].loops@[j]).header
        }),
    decreases n,
{
    let before = program_regions(funcs, loops, reports, (n - 1) as nat);
    if i < before.len() {
        law_regions_start_at_loops(funcs, loops, reports, (n - 1) as nat, i);
    } else {
        crate::verdicts::law_plans_hold_approved_loops(
            funcs[n - 1],
            n - 1,
            loops[n - 1],
            reports[n - 1]@,
            loops[n - 1].loops@.len(),
            i - before.len(),
        );
    }
}

/// A program can be analyzed and lowered.
pub open spec fn compilable(f: FuncIr) -> bool {
    fit(f) && lowerable(f) && f.blocks@.len() < u32::MAX
}

/// Whether a function can be analyzed and lowered.
pub fn can_compile(f: &FuncIr) -> (r: bool)
    ensures
        r == compilable(*f),
{
    can_analyze(f) && can_lower(f) && f.blocks.len() < 0xffff_ffff
}

/// What compiling gives, given what was planned.
pub open spec fn is_built(
    funcs: Seq<FuncIr>,
    unchecked: bool,
    first_id: i64,
    a: Analysis,
    planned: Seq<PlannedRegion>,
    r: Result<JitEngine, String>,
) -> bool {
    &&& is_analysis(funcs, a)
    &&& are_planned(a.plan.regions@, funcs, first_id, planned)
    &&& match compile_fault(funcs, planned, unchecked) {
        Some(m) => r matches Err(s) && s@ == m,
        None => r matches Ok(c) && is_compiled(c, funcs, planned, unchecked),
    }
}

/// Analyzes a program and compiles it, with the planned loops taken out to run in
/// parallel.
pub fn compile_program(funcs: &Vec<FuncIr>, unchecked: bool, ids: &mut RegionIds) -> (r: Result<
    JitEngine,
    String,
>)
    requires
        forall|i: int| 0 <= i < funcs@.len() ==> compilable(#[trigger] funcs@[i]),
    ensures
        exists|a: Analysis, planned: Seq<PlannedRegion>| #[trigger]
            is_built(funcs@, unchecked, old(ids).next, a, planned, r),
{
    proof {
        assert forall|i: int| 0 <= i < funcs@.len() implies fit(#[trigger] funcs@[i]) by {
            assert(compilable(funcs@[i]));
        }
        assert forall|i: int| 0 <= i < funcs@.len() implies lowerable(#[trigger] funcs@[i]) by {
            assert(compilable(funcs@[i]));
        }
    }
    let a = analyze_program(funcs);
    proof {
        assert forall|k: int|
            0 <= k < a.plan.regions@.len() && (#[trigger] a.plan.regions@[k]).func_idx
                < funcs@.len() implies {
            let f = funcs@[a.plan.regions@[k].func_idx as int];
            f.wf() && f.blocks@.len() < u32::MAX && f.has_block(a.plan.regions@[k].header)
        } by {
            assert(regions(a.plan.regions@)[k] == a.plan.regions@[k]@);
            law_regions_start_at_loops(funcs@, a.loops@, a.reports@, funcs@.len(), k);
            let fi = a.plan.regions@[k].func_idx as int;
            assert(compilable(funcs@[fi]));
            assert(is_analyzed(funcs@[fi], a.loops@[fi], a.reports@[fi]@));
            let j = choose|j: int|
                0 <= j < a.loops@[fi].loops@.len() && a.plan.regions@[k].header == (
                #[trigger] a.loops@[fi].loops@[j]).header;
            assert(a.loops@[fi].nested()[j] == loop_nest(funcs@[fi])[j]);
            law_loops_can_be_analyzed(funcs@[fi], j);
        }
    }
    let r = JitEngine::compile(funcs, &a.plan, unchecked, ids);
    proof {
        let planned = choose|planned: Seq<PlannedRegion>|
            {
                &&& #[trigger] are_planned(a.plan.regions@, funcs@, old(ids).next, planned)
                &&& match compile_fault(funcs@, planned, unchecked) {
                    Some(m) => r matches Err(s) && s@ == m,
                    None => r matches Ok(c) && is_compiled(c, funcs@, planned, unchecked),
                }
            };
        assert(is_built(funcs@, unchecked, old(ids).next, a, planned, r));
    }
    r
}

} // verus!
