//! What reports tell: every edge is of two accesses that meet, at the distance that it
//! gives, and accesses that meet in two iterations have an edge.
use vstd::prelude::*;

use crate::access::{accesses_of, Touch};
use crate::canon::canonical;
use crate::deps::{
    battery_fits, dimension_depends, dimension_distance, law_dependence_is_real,
    law_dirs_are_conservative, law_distance_is_exact, law_independent_is_sound, same_element,
    Affine, IterRange,
};
use crate::ir::{BlockId, FuncIr, Inst, LocalId};
use crate::plan::{
    block_prints, edges_left, inst_prints, loop_prints, name_of, own_finding, pair_finding,
    range_of, report_of, shape_notes, stands, user_callees, with_callee, with_callees, with_own,
    with_row, with_rows, Collected, Edge, Findings, Found, Judgement, PairContext, PairFinding,
};
use crate::reduce::{reductions, Recognized};
use crate::text::integer_text;

verus! {

// ---------------------------------------------------------------------------
// Members of the lists
// ---------------------------------------------------------------------------

/// The list of edges of a kind.
spec fn listed(c: Collected, both_write: bool) -> Seq<Found> {
    if both_write {
        c.waw
    } else {
        c.raw
    }
}

/// The edge stands for what the test of the two accesses found.
spec fn from_pair(
    ctx: PairContext,
    s: Seq<Touch>,
    p: int,
    q: int,
    both_write: bool,
    e: Found,
) -> bool {
    &&& both_write == (s[p].is_write && s[q].is_write)
    &&& e.on == s[p].arr
    &&& match pair_finding(ctx, s[p], s[q]) {
        PairFinding::Nothing => false,
        PairFinding::Unknown { edge, .. } => edge == e.edge,
        PairFinding::Carried { edge } => edge == e.edge,
    }
}

/// The edge stands for what the write shows against itself.
spec fn from_own(ctx: PairContext, s: Seq<Touch>, p: int, e: Found) -> bool {
    own_finding(ctx, s[p]) == Some(e.edge) && e.on == s[p].arr
}

/// Members of a list with one more.
proof fn lemma_pushed(s: Seq<Found>, x: Found, e: Found)
    ensures
        s.push(x).contains(e) <==> s.contains(e) || e == x,
{
    if s.contains(e) {
        let i = choose|i: int| 0 <= i < s.len() && s[i] == e;
        assert(s.push(x)[i] == e);
    }
    if e == x {
        assert(s.push(x)[s.len() as int] == e);
    }
    if s.push(x).contains(e) && e != x {
        let i = choose|i: int| 0 <= i < s.push(x).len() && s.push(x)[i] == e;
        assert(s[i] == e);
    }
}

/// What a row adds.
proof fn lemma_row_members(
    ctx: PairContext,
    c: Collected,
    s: Seq<Touch>,
    i: int,
    j: int,
    both_write: bool,
    e: Found,
)
    requires
        0 <= i,
    ensures
        listed(with_row(ctx, c, s, i, j), both_write).contains(e) <==> listed(
            c,
            both_write,
        ).contains(e) || exists|q: int| i < q < j && #[trigger] from_pair(ctx, s, i, q, both_write, e),
    decreases j - i,
{
    if j > i + 1 {
        lemma_row_members(ctx, c, s, i, j - 1, both_write, e);
        let before = with_row(ctx, c, s, i, j - 1);
        let both = s[i].is_write && s[j - 1].is_write;
        match pair_finding(ctx, s[i], s[j - 1]) {
            PairFinding::Nothing => {},
            PairFinding::Unknown { edge, .. } => {
                lemma_pushed(listed(before, both), Found { on: s[i].arr, edge }, e);
            },
            PairFinding::Carried { edge } => {
                lemma_pushed(listed(before, both), Found { on: s[i].arr, edge }, e);
            },
        }
        if exists|q: int| i < q < j && #[trigger] from_pair(ctx, s, i, q, both_write, e) {
            let q = choose|q: int| i < q < j && #[trigger] from_pair(ctx, s, i, q, both_write, e);
            if q < j - 1 {
                assert(from_pair(ctx, s, i, q, both_write, e));
            }
        }
        if from_pair(ctx, s, i, j - 1, both_write, e) {
            assert(listed(with_row(ctx, c, s, i, j), both_write).contains(e));
        }
    }
}

/// What the rows add.
proof fn lemma_rows_members(
    ctx: PairContext,
    c: Collected,
    s: Seq<Touch>,
    n: nat,
    both_write: bool,
    e: Found,
)
    requires
        n <= s.len(),
    ensures
        listed(with_rows(ctx, c, s, n), both_write).contains(e) <==> {
            ||| listed(c, both_write).contains(e)
            ||| exists|p: int, q: int|
                0 <= p < n && p < q < s.len() && #[trigger] from_pair(ctx, s, p, q, both_write, e)
            ||| both_write && exists|p: int| 0 <= p < n && #[trigger] from_own(ctx, s, p, e)
        },
    decreases n,
{
    if n > 0 {
        let before = with_rows(ctx, c, s, (n - 1) as nat);
        let own = with_own(ctx, before, s[n - 1]);
        lemma_rows_members(ctx, c, s, (n - 1) as nat, both_write, e);
        if let Some(edge) = own_finding(ctx, s[n - 1]) {
            lemma_pushed(before.waw, Found { on: s[n - 1].arr, edge }, e);
        }
        lemma_row_members(ctx, own, s, n - 1, s.len() as int, both_write, e);
        if from_own(ctx, s, n - 1, e) && both_write {
            assert(listed(own, both_write).contains(e));
        }
        if listed(with_rows(ctx, c, s, n), both_write).contains(e) {
            if listed(own, both_write).contains(e) {
                if !listed(before, both_write).contains(e) {
                    assert(from_own(ctx, s, n - 1, e));
                }
            } else {
                let q = choose|q: int|
                    n - 1 < q < s.len() && #[trigger] from_pair(ctx, s, n - 1, q, both_write, e);
                assert(from_pair(ctx, s, n - 1, q, both_write, e));
            }
        }
        if exists|p: int, q: int|
            0 <= p < n && p < q < s.len() && #[trigger] from_pair(ctx, s, p, q, both_write, e) {
            let (p, q) = choose|p: int, q: int|
                0 <= p < n && p < q < s.len() && #[trigger] from_pair(ctx, s, p, q, both_write, e);
            if p == n - 1 {
                assert(from_pair(ctx, s, n - 1, q, both_write, e));
            } else {
                assert(from_pair(ctx, s, p, q, both_write, e));
                assert(listed(before, both_write).contains(e));
                assert(listed(own, both_write).contains(e));
            }
        }
        if both_write && exists|p: int| 0 <= p < n && #[trigger] from_own(ctx, s, p, e) {
            let p = choose|p: int| 0 <= p < n && #[trigger] from_own(ctx, s, p, e);
            if p < n - 1 {
                assert(from_own(ctx, s, p, e));
                assert(listed(before, both_write).contains(e));
            }
            assert(listed(own, both_write).contains(e));
        }
    }
}

/// The edges that are left are those on other locals.
proof fn lemma_left(s: Seq<Found>, off: Option<LocalId>, edge: Edge)
    ensures
        edges_left(s, off).contains(edge) <==> exists|e: Found| #[trigger]
            s.contains(e) && e.edge == edge && off != Some(e.on),
    decreases s.len(),
{
    if s.len() > 0 {
        let d = s.drop_last();
        lemma_left(d, off, edge);
        let left = edges_left(d, off);
        let last = s.last();
        assert(s =~= d.push(last));
        if off != Some(last.on) {
            let all = left.push(last.edge);
            if left.contains(edge) {
                let i = choose|i: int| 0 <= i < left.len() && left[i] == edge;
                assert(all[i] == edge);
            }
            if last.edge == edge {
                assert(all[left.len() as int] == edge);
                lemma_pushed(d, last, last);
            }
            if all.contains(edge) && last.edge != edge {
                let i = choose|i: int| 0 <= i < all.len() && all[i] == edge;
                assert(left[i] == edge);
            }
        }
        if left.contains(edge) {
            let e = choose|e: Found| #[trigger]
                d.contains(e) && e.edge == edge && off != Some(e.on);
            lemma_pushed(d, last, e);
        }
        if exists|e: Found| #[trigger] s.contains(e) && e.edge == edge && off != Some(e.on) {
            let e = choose|e: Found| #[trigger]
                s.contains(e) && e.edge == edge && off != Some(e.on);
            lemma_pushed(d, last, e);
            if e != last {
                assert(d.contains(e));
            }
        }
    } else {
        assert(!edges_left(s, off).contains(edge));
    }
}

// ---------------------------------------------------------------------------
// What an edge tells
// ---------------------------------------------------------------------------

/// Iteration `i` of the first form and iteration `j` of the second meet in the loop.
pub open spec fn meet(r: Affine, w: Affine, range: IterRange, i: int, j: int) -> bool {
    range.lo <= i <= range.hi && range.lo <= j <= range.hi && r.a * i + r.b == w.a * j + w.b
}

/// The text quotes the distance, up to a comma.
pub open spec fn quotes(text: Seq<char>, d: i64) -> bool {
    exists|pre: Seq<char>, post: Seq<char>|
        text == #[trigger] (pre + "carried by iteration distance "@ + integer_text(d as int) + post)
            && post.len() > 0 && post[0] == ','
}

/// The edge is true of the two forms. A distance that it gives is the difference of every
/// two iterations that meet, is not 0, and is quoted; it gives one wherever the two move by
/// the same amount, and none where they stand still or move differently. Its directions
/// hold that of every two iterations that meet.
pub open spec fn tells(e: Edge, r: Affine, w: Affine, range: IterRange) -> bool {
    &&& e.distance matches Some(d) ==> {
        &&& d != 0
        &&& forall|i: int, j: int| #[trigger] meet(r, w, range, i, j) ==> i - j == d
        &&& quotes(e.explain, d)
        &&& e.direction == (if d < 0 {
            seq!['<']
        } else {
            seq!['>']
        })
    }
    &&& e.distance is Some <==> r.a == w.a && r.a != 0
    &&& forall|i: int, j: int| #[trigger]
        meet(r, w, range, i, j) ==> (i < j ==> e.direction.contains('<')) && (i == j
            ==> e.direction.contains('=')) && (i > j ==> e.direction.contains('>'))
    &&& range.lo <= range.hi ==> exists|i: int, j: int| #[trigger] meet(r, w, range, i, j)
}

/// The edge says that nothing is known.
pub open spec fn says_nothing(e: Edge) -> bool {
    e.distance is None && e.direction == "*"@
}

/// What a found pair shows is true of it.
#[verifier::rlimit(30)]
proof fn lemma_pair_tells(ctx: PairContext, src: Touch, dst: Touch)
    ensures
        ({
            let (w, r) = if src.is_write {
                (src.affine, dst.affine)
            } else {
                (dst.affine, src.affine)
            };
            match pair_finding(ctx, src, dst) {
                PairFinding::Nothing => true,
                PairFinding::Unknown { edge, .. } => {
                    &&& src.arr == dst.arr
                    &&& src.is_write || dst.is_write
                    &&& edge.array == name_of(ctx.func, src.arr)
                    &&& edge.level == ctx.depth
                    &&& says_nothing(edge)
                    &&& r is None || w is None || !battery_fits(r->0, w->0, ctx.range)
                },
                PairFinding::Carried { edge } => {
                    &&& src.arr == dst.arr
                    &&& src.is_write || dst.is_write
                    &&& edge.array == name_of(ctx.func, src.arr)
                    &&& edge.level == ctx.depth
                    &&& r is Some && w is Some
                    &&& tells(edge, r->0, w->0, ctx.range)
                },
            }
        }),
{
    if let PairFinding::Carried { edge } = pair_finding(ctx, src, dst) {
        let (w, r) = if src.is_write {
            (src.affine->0, dst.affine->0)
        } else {
            (dst.affine->0, src.affine->0)
        };
        lemma_carried_tells(ctx, edge, r, w);
    }
}

/// An edge between two forms that depend, and not only within an iteration, is true.
#[verifier::rlimit(30)]
proof fn lemma_carried_tells(ctx: PairContext, e: Edge, r: Affine, w: Affine)
    requires
        dimension_depends(r, w, ctx.range),
        !crate::plan::within_iteration(r, w, ctx.range),
        exists|kind: Seq<char>, name: Seq<char>|
            e == #[trigger] crate::plan::carried_edge(kind, name, ctx.depth, w, r, ctx.iv),
    ensures
        tells(e, r, w, ctx.range),
{
    let range = ctx.range;
    let (kind, name) = choose|kind: Seq<char>, name: Seq<char>|
        e == #[trigger] crate::plan::carried_edge(kind, name, ctx.depth, w, r, ctx.iv);
    assert forall|i: int, j: int| #[trigger] meet(r, w, range, i, j) implies (i < j
        ==> e.direction.contains('<')) && (i == j ==> e.direction.contains('=')) && (i > j
        ==> e.direction.contains('>')) by {
        assert(same_element(r, w, i, j));
        lemma_spelling(crate::plan::edge_dirs(r, w));
        if r.a != 0 || w.a != 0 {
            law_dirs_are_conservative(r, w, range, i, j);
        }
    }
    if range.lo <= range.hi {
        law_dependence_is_real(r, w, range);
        let (i, j) = choose|i: int, j: int|
            range.has(i) && range.has(j) && #[trigger] same_element(r, w, i, j);
        assert(meet(r, w, range, i, j));
    }
    if let Some(d) = e.distance {
        assert(r.a != 0 && r.a == w.a);
        assert(dimension_distance(r, w) == Some(d));
        assert forall|i: int, j: int| #[trigger] meet(r, w, range, i, j) implies i - j == d by {
            assert(same_element(r, w, i, j));
            law_distance_is_exact(r, w, range, i, j);
        }
        let (i, j) = choose|i: int, j: int|
            range.has(i) && range.has(j) && #[trigger] same_element(r, w, i, j);
        law_distance_is_exact(r, w, range, i, j);
        assert(d == i - j);
        lemma_spelling(crate::plan::edge_dirs(r, w));
        let iv = ctx.iv;
        let pre = kind + " "@ + name + "["@ + crate::plan::affine_text(w, iv) + "] <- "@ + name
            + "["@ + crate::plan::affine_text(r, iv) + "] ("@;
        let post = ", level "@ + crate::text::natural_text(ctx.depth as nat) + ")"@;
        reveal_strlit(", level ");
        assert(post[0] == ',');
        assert(e.explain =~= pre + "carried by iteration distance "@ + integer_text(d as int)
            + post);
    }
}

/// The spelling of a set of directions holds the characters of its members.
proof fn lemma_spelling(v: crate::deps::DirVec)
    ensures
        v.lt ==> v.spelling().contains('<'),
        v.eq ==> v.spelling().contains('='),
        v.gt ==> v.spelling().contains('>'),
        v.lt && !v.eq && !v.gt ==> v.spelling() == seq!['<'],
        !v.lt && !v.eq && v.gt ==> v.spelling() == seq!['>'],
{
    let s0 = if v.lt { seq!['<'] } else { Seq::<char>::empty() };
    let s1 = if v.eq { s0.push('=') } else { s0 };
    let s = v.spelling();
    if v.lt {
        assert(s[0] == '<');
    }
    if v.eq {
        assert(s[s0.len() as int] == '=');
    }
    if v.gt {
        assert(s[s1.len() as int] == '>');
    }
    if v.lt && !v.eq && !v.gt {
        assert(s =~= seq!['<']);
    }
    if !v.lt && !v.eq && v.gt {
        assert(s =~= seq!['>']);
    }
}

// ---------------------------------------------------------------------------
// Reports
// ---------------------------------------------------------------------------

/// The accesses of a counting loop.
pub open spec fn loop_accesses(func: FuncIr, header: BlockId, blocks: Seq<BlockId>) -> Seq<Touch> {
    accesses_of(func, blocks, canonical(func, header, blocks)->0.iv_value_in_loop)
}

/// The iterations of a counting loop.
pub open spec fn loop_range(func: FuncIr, header: BlockId, blocks: Seq<BlockId>) -> IterRange {
    range_of(canonical(func, header, blocks))
}

/// The reductions of a counting loop.
pub open spec fn loop_reductions(func: FuncIr, header: BlockId, blocks: Seq<BlockId>) -> Seq<
    Recognized,
> {
    reductions(func, blocks, seq![canonical(func, header, blocks)->0.iv])
}

/// The form of the access that writes, the earlier one where both do.
pub open spec fn writing(s: Touch, t: Touch) -> Option<Affine> {
    if s.is_write {
        s.affine
    } else {
        t.affine
    }
}

/// The form of the other access.
pub open spec fn meeting(s: Touch, t: Touch) -> Option<Affine> {
    if s.is_write {
        t.affine
    } else {
        s.affine
    }
}

/// The coefficient and the offset are at most 2^62 in magnitude.
pub open spec fn moderate(f: Affine) -> bool {
    -0x4000_0000_0000_0000 <= f.a <= 0x4000_0000_0000_0000 && -0x4000_0000_0000_0000 <= f.b
        <= 0x4000_0000_0000_0000
}

/// The subscript is known and moderate.
pub open spec fn tame(form: Option<Affine>) -> bool {
    match form {
        Some(f) => moderate(f),
        None => false,
    }
}

/// Moderate forms can be tested.
proof fn lemma_moderate(r: Affine, w: Affine, func: FuncIr, header: BlockId, blocks: Seq<BlockId>)
    requires
        moderate(r),
        moderate(w),
    ensures
        battery_fits(r, w, loop_range(func, header, blocks)),
{
    let x = crate::deps::magnitude(r.a as int);
    let y = crate::deps::magnitude(w.a as int);
    assert(x * y <= 0x4000_0000_0000_0000 * 0x4000_0000_0000_0000) by (nonlinear_arith)
        requires
            0 <= x <= 0x4000_0000_0000_0000,
            0 <= y <= 0x4000_0000_0000_0000,
    ;
}

/// What the analysis of a counting loop starts from and collects.
spec fn context(func: FuncIr, header: BlockId, blocks: Seq<BlockId>, depth: u32) -> PairContext {
    PairContext {
        func,
        depth,
        range: loop_range(func, header, blocks),
        iv: name_of(func, canonical(func, header, blocks)->0.iv),
    }
}

spec fn outset(func: FuncIr, header: BlockId, blocks: Seq<BlockId>) -> Collected {
    Collected { notes: shape_notes(func, header, blocks), raw: seq![], waw: seq![] }
}

spec fn collected(func: FuncIr, header: BlockId, blocks: Seq<BlockId>, depth: u32) -> Collected {
    let s = loop_accesses(func, header, blocks);
    with_rows(context(func, header, blocks, depth), outset(func, header, blocks), s, s.len())
}

/// The edges of a report, by kind.
pub open spec fn report_edges(r: Findings, both_write: bool) -> Seq<Edge> {
    if both_write {
        r.waw_deps
    } else {
        r.raw_deps
    }
}

/// The edges of a report are those that were collected, but for those on its accumulator.
proof fn lemma_report_edges(
    func: FuncIr,
    id: int,
    header: BlockId,
    blocks: Seq<BlockId>,
    depth: u32,
    both_write: bool,
)
    requires
        canonical(func, header, blocks) is Some,
    ensures
        ({
            let r = report_of(func, id, header, blocks, depth);
            let all = collected(func, header, blocks, depth);
            let off = crate::plan::exempt_local(loop_reductions(func, header, blocks), all.notes);
            report_edges(r, both_write) == edges_left(listed(all, both_write), off) && r.notes
                == all.notes
        }),
{
}

/// Every edge of a report is of two accesses of the loop to one array, of which one writes
/// and the other reads, or both write; it names the array and the depth. Where the
/// subscripts of both are known and moderate it is true of them: a distance that it gives is
/// the distance of every two iterations that meet, and its explanation quotes it.
///
/// The two accesses are returned. They are one where a write meets itself.
pub proof fn law_reported_edges_are_true(
    func: FuncIr,
    id: int,
    header: BlockId,
    blocks: Seq<BlockId>,
    depth: u32,
    both_write: bool,
    n: int,
) -> (w: (int, int))
    requires
        0 <= n < report_edges(report_of(func, id, header, blocks, depth), both_write).len(),
    ensures
        ({
            let (p, q) = w;
            let e = report_edges(report_of(func, id, header, blocks, depth), both_write)[n];
            let s = loop_accesses(func, header, blocks);
            &&& canonical(func, header, blocks) is Some
            &&& 0 <= p <= q < s.len()
            &&& s[p].arr == s[q].arr
            &&& both_write ==> s[p].is_write && s[q].is_write
            &&& !both_write ==> s[p].is_write != s[q].is_write
            &&& e.array == name_of(func, s[p].arr)
            &&& e.level == depth
            &&& tame(writing(s[p], s[q])) && tame(meeting(s[p], s[q])) ==> tells(
                e,
                meeting(s[p], s[q])->0,
                writing(s[p], s[q])->0,
                loop_range(func, header, blocks),
            )
            &&& writing(s[p], s[q]) is None || meeting(s[p], s[q]) is None ==> says_nothing(e)
            &&& says_nothing(e) || writing(s[p], s[q]) is Some && meeting(s[p], s[q]) is Some
                && tells(
                e,
                meeting(s[p], s[q])->0,
                writing(s[p], s[q])->0,
                loop_range(func, header, blocks),
            )
        }),
{
    if canonical(func, header, blocks) is None {
        assert(edges_left(seq![], None) =~= seq![]);
        assert(edges_left(
            seq![],
            crate::plan::exempt_local(
                reductions(func, blocks, seq![]),
                shape_notes(func, header, blocks),
            ),
        ) =~= seq![]);
        (0, 0)
    } else {
        let r = report_of(func, id, header, blocks, depth);
        let edge = report_edges(r, both_write)[n];
        let all = collected(func, header, blocks, depth);
        let ctx = context(func, header, blocks, depth);
        let start = outset(func, header, blocks);
        let s = loop_accesses(func, header, blocks);
        let off = crate::plan::exempt_local(loop_reductions(func, header, blocks), all.notes);
        lemma_report_edges(func, id, header, blocks, depth, both_write);
        assert(edges_left(listed(all, both_write), off).contains(edge));
        lemma_left(listed(all, both_write), off, edge);
        let e = choose|e: Found| #[trigger]
            listed(all, both_write).contains(e) && e.edge == edge && off != Some(e.on);
        lemma_rows_members(ctx, start, s, s.len(), both_write, e);
        assert(!listed(start, both_write).contains(e));
        if exists|p: int, q: int|
            0 <= p < s.len() && p < q < s.len() && #[trigger] from_pair(
                ctx,
                s,
                p,
                q,
                both_write,
                e,
            ) {
            let (p, q) = choose|p: int, q: int|
                0 <= p < s.len() && p < q < s.len() && #[trigger] from_pair(
                    ctx,
                    s,
                    p,
                    q,
                    both_write,
                    e,
                );
            lemma_pair_tells(ctx, s[p], s[q]);
            if let (Some(f), Some(g)) = (writing(s[p], s[q]), meeting(s[p], s[q])) {
                if moderate(f) && moderate(g) {
                    lemma_moderate(g, f, func, header, blocks);
                }
            }
            (p, q)
        } else {
            let p = choose|p: int| 0 <= p < s.len() && #[trigger] from_own(ctx, s, p, e);
            if let Some(f) = s[p].affine {
                assert(edge == crate::plan::carried_edge(
                    crate::plan::kind_text(true),
                    name_of(func, s[p].arr),
                    depth,
                    f,
                    f,
                    ctx.iv,
                ));
                lemma_carried_tells(ctx, edge, f, f);
            }
            (p, p)
        }
    }
}

/// Accesses that meet have an edge: where two accesses to one array, of which one writes,
/// touch one element in two different iterations of the loop, the report has an edge on the
/// array, among those of two writes or those of a write and a read; where the subscripts are
/// moderate it is true of them.
///
/// The two may be one access. Left out are the accumulator of a reduction, and iterations
/// further apart than an `i64` tells.
pub proof fn law_meeting_accesses_are_reported(
    func: FuncIr,
    id: int,
    header: BlockId,
    blocks: Seq<BlockId>,
    depth: u32,
    p: int,
    q: int,
    i: int,
    j: int,
) -> (n: int)
    requires
        canonical(func, header, blocks) is Some,
        ({
            let s = loop_accesses(func, header, blocks);
            let recognized = loop_reductions(func, header, blocks);
            &&& 0 <= p <= q < s.len()
            &&& s[p].arr == s[q].arr
            &&& s[p].is_write || s[q].is_write
            &&& s[p].affine is Some && s[q].affine is Some
            &&& recognized.len() > 0 ==> s[p].arr != recognized[0].var
            &&& i != j
            &&& i64::MIN < i - j <= i64::MAX
            &&& meet(
                meeting(s[p], s[q])->0,
                writing(s[p], s[q])->0,
                loop_range(func, header, blocks),
                i,
                j,
            )
        }),
    ensures
        ({
            let s = loop_accesses(func, header, blocks);
            let both_write = s[p].is_write && s[q].is_write;
            let edges = report_edges(report_of(func, id, header, blocks, depth), both_write);
            let f = writing(s[p], s[q])->0;
            let g = meeting(s[p], s[q])->0;
            &&& 0 <= n < edges.len()
            &&& edges[n].array == name_of(func, s[p].arr)
            &&& edges[n].level == depth
            &&& moderate(f) && moderate(g) ==> tells(
                edges[n],
                g,
                f,
                loop_range(func, header, blocks),
            )
        }),
{
    let all = collected(func, header, blocks, depth);
    let ctx = context(func, header, blocks, depth);
    let start = outset(func, header, blocks);
    let s = loop_accesses(func, header, blocks);
    let range = loop_range(func, header, blocks);
    let off = crate::plan::exempt_local(loop_reductions(func, header, blocks), all.notes);
    let both_write = s[p].is_write && s[q].is_write;
    let edges = report_edges(report_of(func, id, header, blocks, depth), both_write);
    let f = writing(s[p], s[q])->0;
    let g = meeting(s[p], s[q])->0;
    assert(same_element(g, f, i, j));
    lemma_report_edges(func, id, header, blocks, depth, both_write);
    if p == q {
        assert(f.a == 0) by (nonlinear_arith)
            requires
                f.a * i + f.b == f.a * j + f.b,
                i != j,
        ;
        let edge = own_finding(ctx, s[p])->0;
        let e = Found { on: s[p].arr, edge };
        assert(from_own(ctx, s, p, e));
        lemma_rows_members(ctx, start, s, s.len(), true, e);
        lemma_left(all.waw, off, edge);
        assert(edges.contains(edge));
        lemma_carried_tells(ctx, edge, f, f);
        choose|n: int| 0 <= n < edges.len() && edges[n] == edge
    } else {
        if !dimension_depends(g, f, range) {
            law_independent_is_sound(g, f, range, i, j);
        } else if g.a != 0 || f.a != 0 {
            if dimension_distance(g, f) is Some {
                law_distance_is_exact(g, f, range, i, j);
            }
        }
        lemma_pair_tells(ctx, s[p], s[q]);
        if moderate(f) && moderate(g) {
            lemma_moderate(g, f, func, header, blocks);
        }
        let edge = match pair_finding(ctx, s[p], s[q]) {
            PairFinding::Unknown { edge, .. } => edge,
            PairFinding::Carried { edge } => edge,
            PairFinding::Nothing => crate::plan::unknown_edge(seq![], seq![], depth),
        };
        let e = Found { on: s[p].arr, edge };
        assert(from_pair(ctx, s, p, q, both_write, e));
        lemma_rows_members(ctx, start, s, s.len(), both_write, e);
        lemma_left(listed(all, both_write), off, edge);
        assert(edges.contains(edge));
        choose|n: int| 0 <= n < edges.len() && edges[n] == edge
    }
}

/// A verdict follows from what was found: a loop stays sequential exactly where there is a
/// remark or an edge; otherwise it is a reduction by the first operator that was recognized,
/// or safe where none was.
pub proof fn law_verdicts_follow_from_findings(
    func: FuncIr,
    id: int,
    header: BlockId,
    blocks: Seq<BlockId>,
    depth: u32,
)
    ensures
        ({
            let r = report_of(func, id, header, blocks, depth);
            let recognized = loop_reductions(func, header, blocks);
            &&& r.war_deps.len() == 0
            &&& r.verdict is Stays <==> r.notes.len() > 0 || r.raw_deps.len() > 0
                || r.waw_deps.len() > 0
            &&& !(r.verdict is Stays) ==> canonical(func, header, blocks) is Some
            &&& !(r.verdict is Stays) && recognized.len() == 0 ==> r.verdict is Safe
            &&& !(r.verdict is Stays) && recognized.len() > 0 ==> r.verdict == (
            Judgement::Reduces {
                op: recognized[0].op,
                var: name_of(func, recognized[0].var),
            })
        }),
{
    if canonical(func, header, blocks) is None {
        crate::verdicts::law_side_effects_and_shape_veto(func, id, header, blocks, depth);
    }
}

// ---------------------------------------------------------------------------
// Side effects
// ---------------------------------------------------------------------------

/// The instruction calls nothing but functions of the language that have no effect.
pub open spec fn harmless(inst: Inst) -> bool {
    match inst {
        Inst::Call(c) => c.callee@ == "min"@ || c.callee@ == "max"@ || c.callee@ == "sqrt"@
            || c.callee@ == "abs"@ || c.callee@ == "len"@ || c.callee@ == "zeros"@,
        _ => true,
    }
}

/// Names only grow, and stay as they are exactly where nothing foreign is called.
proof fn lemma_callees(names: Seq<Seq<char>>, insts: Seq<Inst>, k: nat)
    requires
        k <= insts.len(),
    ensures
        with_callees(names, insts, k).len() >= names.len(),
        (forall|j: int| 0 <= j < k ==> harmless(#[trigger] insts[j])) ==> with_callees(
            names,
            insts,
            k,
        ) == names,
        names.len() == 0 && with_callees(names, insts, k).len() == 0 ==> forall|j: int|
            0 <= j < k ==> harmless(#[trigger] insts[j]) || inst_prints(insts[j]),
    decreases k,
{
    if k > 0 {
        lemma_callees(names, insts, (k - 1) as nat);
        let before = with_callees(names, insts, (k - 1) as nat);
        assert(with_callees(names, insts, k) == with_callee(before, insts[k - 1]));
        if (forall|j: int| 0 <= j < k ==> harmless(#[trigger] insts[j])) {
            assert(harmless(insts[k - 1]));
        }
        if names.len() == 0 && with_callees(names, insts, k).len() == 0 {
            assert(before.len() == 0);
            if let Inst::Call(c) = insts[k - 1] {
                assert(!before.contains(c.callee@));
            }
        }
    }
}

/// The same for the blocks of a loop.
proof fn lemma_user_callees(func: FuncIr, blocks: Seq<BlockId>, n: nat)
    requires
        n <= blocks.len(),
    ensures
        (forall|i: int, j: int|
            0 <= i < n && 0 <= j < func.at(blocks[i]).insts@.len() ==> harmless(
                #[trigger] func.at(blocks[i]).insts@[j],
            )) ==> user_callees(func, blocks, n).len() == 0,
        user_callees(func, blocks, n).len() == 0 ==> forall|i: int, j: int|
            0 <= i < n && 0 <= j < func.at(blocks[i]).insts@.len() ==> harmless(
                #[trigger] func.at(blocks[i]).insts@[j],
            ) || inst_prints(func.at(blocks[i]).insts@[j]),
    decreases n,
{
    if n > 0 {
        let insts = func.at(blocks[n - 1]).insts@;
        let before = user_callees(func, blocks, (n - 1) as nat);
        lemma_user_callees(func, blocks, (n - 1) as nat);
        lemma_callees(before, insts, insts.len());
        if (forall|i: int, j: int|
            0 <= i < n && 0 <= j < func.at(blocks[i]).insts@.len() ==> harmless(
                #[trigger] func.at(blocks[i]).insts@[j],
            )) {
            assert forall|j: int| 0 <= j < insts.len() implies harmless(#[trigger] insts[j]) by {
                assert(harmless(func.at(blocks[n - 1]).insts@[j]));
            }
            assert(with_callees(before, insts, insts.len()) == before);
        }
        if user_callees(func, blocks, n).len() == 0 {
            assert(before.len() == 0);
            assert forall|i: int, j: int|
                0 <= i < n && 0 <= j < func.at(blocks[i]).insts@.len() implies harmless(
                #[trigger] func.at(blocks[i]).insts@[j],
            ) || inst_prints(func.at(blocks[i]).insts@[j]) by {
                if i == n - 1 {
                    assert(harmless(insts[j]) || inst_prints(insts[j]));
                }
            }
        }
    }
}

/// A loop that calls anything but `min`, `max`, `sqrt`, `abs`, `len` and `zeros` stays
/// sequential: whatever prints, and every function of the program.
pub proof fn law_effects_keep_loops_sequential(
    func: FuncIr,
    id: int,
    header: BlockId,
    blocks: Seq<BlockId>,
    depth: u32,
    i: int,
    j: int,
)
    requires
        0 <= i < blocks.len(),
        0 <= j < func.at(blocks[i]).insts@.len(),
        !harmless(func.at(blocks[i]).insts@[j]),
    ensures
        report_of(func, id, header, blocks, depth).verdict is Stays,
{
    lemma_user_callees(func, blocks, blocks.len());
    if user_callees(func, blocks, blocks.len()).len() == 0 {
        assert(inst_prints(func.at(blocks[i]).insts@[j]));
        assert(block_prints(func.at(blocks[i])));
    }
    crate::verdicts::law_side_effects_and_shape_veto(func, id, header, blocks, depth);
}

/// Two accesses cannot get in each other's way: both subscripts are known and moderate, and
/// no two iterations meet, or the two are the same and move.
pub open spec fn out_of_the_way(s: Touch, t: Touch, range: IterRange) -> bool {
    match (writing(s, t), meeting(s, t)) {
        (Some(w), Some(r)) => moderate(w) && moderate(r) && ((forall|i: int, j: int|
            !#[trigger] meet(r, w, range, i, j)) || (r == w && r.a != 0)),
        _ => false,
    }
}

/// Such accesses show nothing.
proof fn lemma_out_of_the_way(
    func: FuncIr,
    header: BlockId,
    blocks: Seq<BlockId>,
    depth: u32,
    s: Touch,
    t: Touch,
)
    requires
        s.arr == t.arr && (s.is_write || t.is_write) ==> out_of_the_way(
            s,
            t,
            loop_range(func, header, blocks),
        ),
    ensures
        pair_finding(context(func, header, blocks, depth), s, t) is Nothing,
{
    let range = loop_range(func, header, blocks);
    if s.arr == t.arr && (s.is_write || t.is_write) {
        let w = writing(s, t)->0;
        let r = meeting(s, t)->0;
        lemma_moderate(r, w, func, header, blocks);
        if r == w && r.a != 0 {
            assert(crate::deps::siv_distance(r, w) == 0) by (nonlinear_arith)
                requires
                    r == w,
                    r.a != 0,
                    crate::deps::siv_distance(r, w) == (w.b - r.b) / (r.a as int),
            ;
        } else if dimension_depends(r, w, range) && range.lo <= range.hi {
            law_dependence_is_real(r, w, range);
            let (i, j) = choose|i: int, j: int|
                range.has(i) && range.has(j) && #[trigger] same_element(r, w, i, j);
            assert(meet(r, w, range, i, j));
        } else if dimension_depends(r, w, range) && !stands(r, w) {
            let (i, j) = choose|i: int, j: int|
                range.has(i) && range.has(j) && #[trigger] same_element(r, w, i, j);
            assert(false);
        }
    }
}

/// Rows of accesses that show nothing add nothing.
proof fn lemma_quiet_rows(ctx: PairContext, c: Collected, s: Seq<Touch>, n: nat)
    requires
        n <= s.len(),
        forall|p: int, q: int|
            0 <= p < q < s.len() ==> pair_finding(ctx, #[trigger] s[p], #[trigger] s[q]) is Nothing,
        forall|p: int| 0 <= p < s.len() ==> own_finding(ctx, #[trigger] s[p]) is None,
    ensures
        with_rows(ctx, c, s, n) == c,
    decreases n,
{
    if n > 0 {
        lemma_quiet_rows(ctx, c, s, (n - 1) as nat);
        assert(own_finding(ctx, s[n - 1]) is None);
        lemma_quiet_row(ctx, c, s, n - 1, s.len() as int);
    }
}

proof fn lemma_quiet_row(ctx: PairContext, c: Collected, s: Seq<Touch>, i: int, j: int)
    requires
        0 <= i < s.len(),
        j <= s.len(),
        forall|p: int, q: int|
            0 <= p < q < s.len() ==> pair_finding(ctx, #[trigger] s[p], #[trigger] s[q]) is Nothing,
    ensures
        with_row(ctx, c, s, i, j) == c,
    decreases j - i,
{
    if j > i + 1 {
        lemma_quiet_row(ctx, c, s, i, j - 1);
        assert(pair_finding(ctx, s[i], s[j - 1]) is Nothing);
    }
}

/// A counting loop that calls nothing foreign, in which no two accesses get in each other's
/// way and every write moves, is approved.
pub proof fn law_independent_loops_are_approved(
    func: FuncIr,
    id: int,
    header: BlockId,
    blocks: Seq<BlockId>,
    depth: u32,
)
    requires
        canonical(func, header, blocks) is Some,
        forall|i: int, j: int|
            0 <= i < blocks.len() && 0 <= j < func.at(blocks[i]).insts@.len() ==> harmless(
                #[trigger] func.at(blocks[i]).insts@[j],
            ),
        ({
            let s = loop_accesses(func, header, blocks);
            &&& forall|p: int, q: int|
                0 <= p < q < s.len() && (#[trigger] s[p]).arr == (#[trigger] s[q]).arr && (
                s[p].is_write || s[q].is_write) ==> out_of_the_way(
                    s[p],
                    s[q],
                    loop_range(func, header, blocks),
                )
            &&& forall|p: int|
                0 <= p < s.len() && (#[trigger] s[p]).is_write ==> (s[p].affine matches Some(f)
                    && f.a != 0)
        }),
    ensures
        !(report_of(func, id, header, blocks, depth).verdict is Stays),
{
    let s = loop_accesses(func, header, blocks);
    let ctx = context(func, header, blocks, depth);
    let start = outset(func, header, blocks);
    lemma_user_callees(func, blocks, blocks.len());
    assert(!loop_prints(func, blocks)) by {
        if loop_prints(func, blocks) {
            let i = choose|i: int| 0 <= i < blocks.len() && block_prints(func.at(#[trigger] blocks[i]));
            let insts = func.at(blocks[i]).insts@;
            let j = choose|j: int| 0 <= j < insts.len() && inst_prints(#[trigger] insts[j]);
            assert(harmless(func.at(blocks[i]).insts@[j]));
            reveal_strlit("print");
            reveal_strlit("min");
            reveal_strlit("max");
            reveal_strlit("sqrt");
            reveal_strlit("abs");
            reveal_strlit("len");
            reveal_strlit("zeros");
            assert("print"@[0] == 'p' && "zeros"@[0] == 'z');
            assert("print"@.len() == 5);
        }
    }
    assert(start.notes =~= seq![]);
    assert forall|p: int, q: int| 0 <= p < q < s.len() implies pair_finding(
        ctx,
        #[trigger] s[p],
        #[trigger] s[q],
    ) is Nothing by {
        lemma_out_of_the_way(func, header, blocks, depth, s[p], s[q]);
    }
    lemma_quiet_rows(ctx, start, s, s.len());
    lemma_report_edges(func, id, header, blocks, depth, true);
    lemma_report_edges(func, id, header, blocks, depth, false);
    let off = crate::plan::exempt_local(loop_reductions(func, header, blocks), start.notes);
    assert(edges_left(seq![], off) =~= seq![]);
}

} // verus!
