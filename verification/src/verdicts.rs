//! What verdicts and plans promise.
use vstd::prelude::*;

use crate::access::{accesses_of, turned, wraps_to, Touch};
use crate::canon::canonical;
use crate::deps::{dimension_depends, law_distance_is_exact, law_independent_is_sound, same_element};
use crate::ir::{BlockId, FuncIr, LocalId};
use crate::loops::LoopInfo;
use crate::plan::{
    body_name, edges_left, exempt_local, function_regions, innermost, loop_prints, name_of,
    other_form, own_finding, pair_finding, range_of, region_for, report_of, reports_on,
    shape_notes, user_callees, with_edge, with_own, with_row, with_rows, written, Collected, Found,
    LoopReport, PairContext, PairFinding,
};
use crate::reduce::reductions;
use crate::search::{first_where, lemma_first_where};
use crate::text::{lemma_natural_text_digits, lemma_natural_text_injective, natural_text};

verus! {

/// How many edges are collected, without those on a local where one is given.
#[verifier::opaque]
spec fn edge_count(c: Collected, off: Option<LocalId>) -> nat {
    edges_left(c.raw, off).len() + edges_left(c.waw, off).len()
}

/// An edge on another local counts.
proof fn lemma_edge_counts(c: Collected, both_write: bool, e: Found, off: Option<LocalId>)
    ensures
        edge_count(with_edge(c, both_write, e), off) == edge_count(c, off) + (if off == Some(
            e.on,
        ) {
            0int
        } else {
            1int
        }),
{
    reveal(edge_count);
    assert(c.raw.push(e).drop_last() =~= c.raw);
    assert(c.waw.push(e).drop_last() =~= c.waw);
}

/// Remarks do not count.
proof fn lemma_notes_do_not_count(c: Collected, notes: Seq<Seq<char>>, off: Option<LocalId>)
    ensures
        edge_count(Collected { notes, raw: c.raw, waw: c.waw }, off) == edge_count(c, off),
{
    reveal(edge_count);
}

/// A row only adds, and adds nothing exactly where every pair of it shows nothing.
proof fn lemma_row(
    ctx: PairContext,
    c: Collected,
    s: Seq<Touch>,
    i: int,
    j: int,
    off: Option<LocalId>,
)
    requires
        0 <= i,
    ensures
        edge_count(with_row(ctx, c, s, i, j), off) >= edge_count(c, off),
        with_row(ctx, c, s, i, j).notes.len() >= c.notes.len(),
        edge_count(with_row(ctx, c, s, i, j), off) == edge_count(c, off) && off != Some(s[i].arr)
            ==> forall|q: int| i < q < j ==> pair_finding(ctx, s[i], #[trigger] s[q]) is Nothing,
    decreases j - i,
{
    if j > i + 1 {
        lemma_row(ctx, c, s, i, j - 1, off);
        let before = with_row(ctx, c, s, i, j - 1);
        let both_write = s[i].is_write && s[j - 1].is_write;
        match pair_finding(ctx, s[i], s[j - 1]) {
            PairFinding::Nothing => {},
            PairFinding::Unknown { note, edge } => {
                let notes = before.notes.push(note);
                lemma_notes_do_not_count(before, notes, off);
                lemma_edge_counts(
                    Collected { notes, raw: before.raw, waw: before.waw },
                    both_write,
                    Found { on: s[i].arr, edge },
                    off,
                );
            },
            PairFinding::Carried { edge } => {
                lemma_edge_counts(before, both_write, Found { on: s[i].arr, edge }, off);
            },
        }
    }
}

/// The rows only add, and add nothing exactly where no access shows anything.
proof fn lemma_rows(ctx: PairContext, c: Collected, s: Seq<Touch>, n: nat, off: Option<LocalId>)
    requires
        n <= s.len(),
    ensures
        edge_count(with_rows(ctx, c, s, n), off) >= edge_count(c, off),
        with_rows(ctx, c, s, n).notes.len() >= c.notes.len(),
        edge_count(with_rows(ctx, c, s, n), off) == edge_count(c, off) ==> {
            &&& forall|p: int, q: int|
                0 <= p < n && p < q < s.len() && off != Some(s[p].arr) ==> pair_finding(
                    ctx,
                    #[trigger] s[p],
                    #[trigger] s[q],
                ) is Nothing
            &&& forall|p: int|
                0 <= p < n && off != Some(s[p].arr) ==> own_finding(ctx, #[trigger] s[p]) is None
        },
    decreases n,
{
    if n > 0 {
        let before = with_rows(ctx, c, s, (n - 1) as nat);
        let own = with_own(ctx, before, s[n - 1]);
        lemma_rows(ctx, c, s, (n - 1) as nat, off);
        if let Some(edge) = own_finding(ctx, s[n - 1]) {
            lemma_edge_counts(before, true, Found { on: s[n - 1].arr, edge }, off);
        }
        lemma_row(ctx, own, s, n - 1, s.len() as int, off);
        if edge_count(with_rows(ctx, c, s, n), off) == edge_count(c, off) {
            assert forall|p: int, q: int|
                0 <= p < n && p < q < s.len() && off != Some(s[p].arr) implies pair_finding(
                ctx,
                #[trigger] s[p],
                #[trigger] s[q],
            ) is Nothing by {
                if p == n - 1 {
                    assert(pair_finding(ctx, s[n - 1], s[q]) is Nothing);
                }
            }
        }
    }
}

/// A loop with any remark stays sequential.
pub proof fn law_remarks_veto(
    func: FuncIr,
    id: int,
    header: BlockId,
    blocks: Seq<BlockId>,
    depth: u32,
)
    ensures
        report_of(func, id, header, blocks, depth).notes.len() > 0 ==> report_of(
            func,
            id,
            header,
            blocks,
            depth,
        ).verdict is Stays,
{
}

/// A loop that prints, that calls a function of the program, or that does not count
/// stays sequential.
pub proof fn law_side_effects_and_shape_veto(
    func: FuncIr,
    id: int,
    header: BlockId,
    blocks: Seq<BlockId>,
    depth: u32,
)
    requires
        loop_prints(func, blocks) || user_callees(func, blocks, blocks.len()).len() > 0
            || canonical(func, header, blocks) is None,
    ensures
        report_of(func, id, header, blocks, depth).verdict is Stays,
{
    let c = canonical(func, header, blocks);
    let iv = match c {
        Some(l) => name_of(func, l.iv),
        None => "?"@,
    };
    let touched = match c {
        Some(l) => accesses_of(func, blocks, l.iv_value_in_loop),
        None => seq![],
    };
    let ctx = PairContext { func, depth, range: range_of(c), iv };
    let start = Collected { notes: shape_notes(func, header, blocks), raw: seq![], waw: seq![] };
    assert(start.notes.len() > 0);
    lemma_rows(ctx, start, touched, touched.len(), None);
}

/// An approved loop has no remark and no edge left.
pub proof fn law_approved_loops_are_clean(
    func: FuncIr,
    id: int,
    header: BlockId,
    blocks: Seq<BlockId>,
    depth: u32,
)
    requires
        !(report_of(func, id, header, blocks, depth).verdict is Stays),
    ensures
        ({
            let r = report_of(func, id, header, blocks, depth);
            r.notes.len() == 0 && r.raw_deps.len() == 0 && r.war_deps.len() == 0 && r.waw_deps.len()
                == 0
        }),
{
}

/// Two accesses of an approved loop, one of which writes, never touch one element in two
/// different iterations.
///
/// The two may be one access. Left out are: a write whose subscript is not known against
/// itself, iterations further apart than an `i64` tells, accesses to the accumulator of a
/// reduction, whose chain the reduction breaks, and subscripts that wrap around: of the
/// indices `x` and `y` that are computed the law speaks where neither form leaves the
/// 64-bit integers.
pub proof fn law_approved_iterations_are_independent(
    func: FuncIr,
    id: int,
    header: BlockId,
    blocks: Seq<BlockId>,
    depth: u32,
    p: int,
    q: int,
    i: int,
    j: int,
    x: i64,
    y: i64,
)
    requires
        !(report_of(func, id, header, blocks, depth).verdict is Stays),
        canonical(func, header, blocks) is Some,
        ({
            let c = canonical(func, header, blocks);
            let s = accesses_of(func, blocks, c->0.iv_value_in_loop);
            let recognized = reductions(func, blocks, seq![c->0.iv]);
            let range = range_of(c);
            &&& 0 <= p <= q < s.len()
            &&& s[p].arr == s[q].arr
            &&& s[p].is_write || s[q].is_write
            &&& p == q ==> s[p].affine is Some
            &&& recognized.len() > 0 ==> s[p].arr != recognized[0].var
            &&& i64::MIN < i - j <= i64::MAX
            &&& range.has(i)
            &&& range.has(j)
            &&& i != j
        }),
    ensures
        ({
            let s = accesses_of(func, blocks, canonical(func, header, blocks)->0.iv_value_in_loop);
            &&& s[p].affine is Some
            &&& s[q].affine is Some
            &&& s[p].affine->0.at(i) != s[q].affine->0.at(j)
            &&& i64::MIN <= s[p].affine->0.at(i) <= i64::MAX && i64::MIN <= s[q].affine->0.at(j)
                <= i64::MAX && wraps_to(x as int, s[p].affine->0.at(i)) && wraps_to(
                y as int,
                s[q].affine->0.at(j),
            ) ==> x != y
        }),
{
    let c = canonical(func, header, blocks);
    let iv = name_of(func, c->0.iv);
    let s = accesses_of(func, blocks, c->0.iv_value_in_loop);
    let recognized = reductions(func, blocks, seq![c->0.iv]);
    let range = range_of(c);
    let ctx = PairContext { func, depth, range, iv };
    let start = Collected { notes: shape_notes(func, header, blocks), raw: seq![], waw: seq![] };
    let all = with_rows(ctx, start, s, s.len());
    let off = exempt_local(recognized, all.notes);
    lemma_rows(ctx, start, s, s.len(), off);
    assert(edge_count(all, off) == 0) by {
        reveal(edge_count);
    }
    assert(edge_count(start, off) == 0) by {
        reveal(edge_count);
    }
    if p == q {
        let f = s[p].affine->0;
        assert(own_finding(ctx, s[p]) is None);
        assert(f.a * i != f.a * j) by (nonlinear_arith)
            requires
                f.a != 0,
                i != j,
        ;
    } else {
        assert(pair_finding(ctx, s[p], s[q]) is Nothing);
        let w = written(s[p], s[q])->0;
        let r = other_form(s[p], s[q])->0;
        let (ri, wi) = if s[p].is_write {
            (j, i)
        } else {
            (i, j)
        };
        if dimension_depends(r, w, range) {
            if same_element(r, w, ri, wi) {
                law_distance_is_exact(r, w, range, ri, wi);
            }
        } else {
            law_independent_is_sound(r, w, range, ri, wi);
        }
    }
    if wraps_to(x as int, s[p].affine->0.at(i)) && wraps_to(y as int, s[q].affine->0.at(j)) {
        let k = choose|k: int| x == #[trigger] turned(s[p].affine->0.at(i), k);
        let l = choose|l: int| y == #[trigger] turned(s[q].affine->0.at(j), l);
    }
}

/// Every region of a plan comes from a loop of its function that counts, that its
/// report does not keep sequential, and that is outermost or innermost; its operator
/// is present exactly for a reduction.
pub proof fn law_plans_hold_approved_loops(
    func: FuncIr,
    func_idx: int,
    info: LoopInfo,
    reports: Seq<LoopReport>,
    k: nat,
    i: int,
)
    requires
        k <= info.loops@.len(),
        0 <= i < function_regions(func, func_idx, info, reports, k).len(),
    ensures
        ({
            let r = function_regions(func, func_idx, info, reports, k)[i];
            &&& r.func_idx == func_idx
            &&& r.kind is DoAll <==> r.reduction is None
            &&& exists|j: int|
                0 <= j < k && region_for(
                    func,
                    func_idx,
                    info,
                    reports,
                    #[trigger] info.loops@[j],
                ) == Some(r) && r.header == info.loops@[j].header && canonical(
                    func,
                    info.loops@[j].header,
                    info.loops@[j].blocks@,
                ) is Some && (info.loops@[j].depth == 1 || innermost(info, info.loops@[j])) && (
                exists|m: int|
                    0 <= m < reports.len() && (#[trigger] reports[m]).loop_id == info.loops@[j].id
                        && !(reports[m].verdict@ is Stays))
        }),
    decreases k,
{
    let all = function_regions(func, func_idx, info, reports, k);
    let before = function_regions(func, func_idx, info, reports, (k - 1) as nat);
    if i < before.len() {
        law_plans_hold_approved_loops(func, func_idx, info, reports, (k - 1) as nat, i);
        assert(all[i] == before[i]);
    } else {
        let lp = info.loops@[k - 1];
        lemma_first_where(reports, reports_on(lp.id));
        assert(region_for(func, func_idx, info, reports, lp) == Some(all[i]));
        let m = first_where(reports, reports_on(lp.id))->0;
        assert(reports[m].loop_id == lp.id);
    }
}

/// The name of a body function tells its function and its loop.
pub proof fn law_body_names_are_unique(f: Seq<char>, a: nat, g: Seq<char>, b: nat)
    requires
        body_name(f, a) == body_name(g, b),
    ensures
        f == g,
        a == b,
{
    reveal_strlit(".loop");
    reveal_strlit(".body");
    let x = body_name(f, a);
    let (ta, tb) = (natural_text(a), natural_text(b));
    let end = x.len() - 5;
    assert(x == f + ".loop"@ + ta + ".body"@);
    assert(x == g + ".loop"@ + tb + ".body"@);
    assert(ta =~= x.subrange(end - ta.len(), end));
    assert(tb =~= x.subrange(end - tb.len(), end));
    assert(x[end - ta.len() - 1] == 'p');
    assert(x[end - tb.len() - 1] == 'p');
    if ta.len() < tb.len() {
        lemma_natural_text_digits(b, tb.len() - ta.len() - 1);
    } else if tb.len() < ta.len() {
        lemma_natural_text_digits(a, ta.len() - tb.len() - 1);
    }
    assert(f =~= x.take(end - ta.len() - 5));
    assert(g =~= x.take(end - tb.len() - 5));
    lemma_natural_text_injective(a, b);
}

} // verus!
