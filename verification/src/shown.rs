//! What is shown of the loops of a program.
use vstd::prelude::*;

use crate::plan::{Edge, Findings, Judgement, LoopReport};
use crate::reduce::ReductionOp;
use crate::selftest::{listing, report_lines, reports_lines};
use crate::text::natural_text;

verus! {

/// The word that stands for a verdict.
pub open spec fn verdict_word(v: Judgement) -> Seq<char> {
    match v {
        Judgement::Safe => "SAFE"@,
        Judgement::Reduces { op, .. } => "REDUCTION("@ + (match op {
            ReductionOp::Add => "+"@,
            ReductionOp::Mul => "*"@,
            ReductionOp::Min => "min"@,
            ReductionOp::Max => "max"@,
        }) + ")"@,
        Judgement::Stays { reason } => "SEQUENTIAL ("@ + reason + ")"@,
    }
}

/// A summary names the loop, counted from one, says how many dependences of each kind there
/// are, and ends with the verdict.
pub proof fn law_summaries_end_with_the_verdict(r: Findings)
    ensures
        r.summary() == "Loop #"@ + natural_text((r.loop_id + 1) as nat) + ": RAW "@ + natural_text(
            r.raw_deps.len(),
        ) + " / WAR "@ + natural_text(r.war_deps.len()) + " / WAW "@ + natural_text(
            r.waw_deps.len(),
        ) + " => "@ + verdict_word(r.verdict),
{
}

/// The lines of each report stand in the list, in the order of the reports.
proof fn lemma_reports(v: Seq<LoopReport>, k: nat, j: int, q: int)
    requires
        0 <= j < k <= v.len(),
        0 <= q < report_lines(v[j]@).len(),
    ensures
        0 <= reports_lines(v, j as nat).len() + q < reports_lines(v, k).len(),
        reports_lines(v, k)[reports_lines(v, j as nat).len() + q] == report_lines(v[j]@)[q],
    decreases k,
{
    if j < k - 1 {
        lemma_reports(v, (k - 1) as nat, j, q);
    }
}

/// Every report is shown, each behind those before it: its summary first, then, indented, the
/// accesses of the loop and why each dependence was found.
pub proof fn law_every_report_is_shown(
    name: Seq<char>,
    v: Seq<LoopReport>,
    j: int,
    e: Edge,
    a: int,
) -> (p: int)
    requires
        0 <= j < v.len(),
    ensures
        0 < p < listing(name, v).len(),
        listing(name, v)[p] == v[j]@.summary(),
        0 <= a < v[j]@.accesses.len() ==> listing(name, v).contains("    "@ + v[j]@.accesses[a]),
        v[j]@.raw_deps.contains(e) || v[j]@.war_deps.contains(e) || v[j]@.waw_deps.contains(e)
            ==> listing(name, v).contains("    "@ + e.explain),
{
    let r = v[j]@;
    let lines = report_lines(r);
    let base = 1 + reports_lines(v, j as nat).len();
    let all = listing(name, v);
    let edges = r.raw_deps + r.war_deps + r.waw_deps;
    lemma_reports(v, v.len(), j, 0);
    assert(lines[0] == r.summary());
    assert(all[base as int] == r.summary());
    if 0 <= a < r.accesses.len() {
        lemma_reports(v, v.len(), j, 1 + a);
        assert(lines[1 + a] == "    "@ + r.accesses[a]);
        assert(all[base + 1 + a] == lines[1 + a]);
    }
    if r.raw_deps.contains(e) || r.war_deps.contains(e) || r.waw_deps.contains(e) {
        let k = if r.raw_deps.contains(e) {
            choose|k: int| 0 <= k < r.raw_deps.len() && r.raw_deps[k] == e
        } else if r.war_deps.contains(e) {
            r.raw_deps.len() + choose|k: int| 0 <= k < r.war_deps.len() && r.war_deps[k] == e
        } else {
            r.raw_deps.len() + r.war_deps.len() + choose|k: int|
                0 <= k < r.waw_deps.len() && r.waw_deps[k] == e
        };
        assert(edges[k] == e);
        let q = 1 + r.accesses.len() + k;
        assert(lines[q] == "    "@ + e.explain);
        lemma_reports(v, v.len(), j, q);
        assert(all[base + q] == lines[q]);
    }
    base as int
}

/// Nothing is shown of a function without loops.
pub proof fn law_nothing_is_shown_of_nothing(name: Seq<char>, v: Seq<LoopReport>)
    ensures
        listing(name, v).len() == 0 <==> v.len() == 0,
{
}

} // verus!
