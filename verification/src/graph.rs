//! Reachability, dominance and natural loops of the control-flow graph.
use vstd::prelude::*;

use crate::ir::{BlockId, FuncIr, Term};

verus! {

/// `p` walks along edges of the function and never touches the block to avoid.
pub open spec fn is_path(f: FuncIr, avoid: Option<BlockId>, p: Seq<BlockId>) -> bool {
    &&& p.len() > 0
    &&& forall|i: int| 0 <= i < p.len() ==> f.has_block(#[trigger] p[i]) && avoid != Some(p[i])
    &&& forall|i: int| 0 <= i < p.len() - 1 ==> f.edge(#[trigger] p[i], p[i + 1])
}

/// Some path leads from `a` to `b` without touching the block to avoid.
pub open spec fn reach(f: FuncIr, avoid: Option<BlockId>, a: BlockId, b: BlockId) -> bool {
    exists|p: Seq<BlockId>| #[trigger] is_path(f, avoid, p) && p[0] == a && p.last() == b
}

/// `b` can be executed, and every path from the entry to `b` goes through `h`.
pub open spec fn dominates(f: FuncIr, h: BlockId, b: BlockId) -> bool {
    reach(f, None, f.entry, b) && !reach(f, Some(h), f.entry, b)
}

/// The edge from `b` to `h` closes a loop.
pub open spec fn back_edge(f: FuncIr, b: BlockId, h: BlockId) -> bool {
    f.edge(b, h) && dominates(f, h, b)
}

/// `h` is the header of a natural loop.
pub open spec fn is_header(f: FuncIr, h: BlockId) -> bool {
    exists|b: BlockId| back_edge(f, b, h)
}

/// `x` belongs to the natural loop of `h`: it is the header, or it leads to the
/// source of a back edge into the header without going through the header.
pub open spec fn in_loop(f: FuncIr, h: BlockId, x: BlockId) -> bool {
    x == h || exists|b: BlockId| #[trigger] back_edge(f, b, h) && reach(f, Some(h), x, b)
}

/// One more edge extends a path.
proof fn lemma_reach_step(f: FuncIr, avoid: Option<BlockId>, a: BlockId, b: BlockId, c: BlockId)
    requires
        reach(f, avoid, a, b),
        f.edge(b, c),
        f.has_block(c),
        avoid != Some(c),
    ensures
        reach(f, avoid, a, c),
{
    let p = choose|p: Seq<BlockId>| #[trigger] is_path(f, avoid, p) && p[0] == a && p.last() == b;
    let q = p.push(c);
    assert forall|i: int| 0 <= i < q.len() - 1 implies f.edge(#[trigger] q[i], q[i + 1]) by {
        if i < p.len() - 1 {
            assert(f.edge(p[i], p[i + 1]));
        }
    }
    assert(is_path(f, avoid, q));
}

/// A path stays in a set that is closed under edges.
proof fn lemma_closed(
    f: FuncIr,
    avoid: Option<BlockId>,
    p: Seq<BlockId>,
    seen: Seq<bool>,
    k: int,
)
    requires
        is_path(f, avoid, p),
        0 <= k < p.len(),
        seen.len() == f.blocks@.len(),
        seen[p[0].0 as int],
        forall|x: BlockId, y: BlockId|
            f.has_block(x) && f.has_block(y) && #[trigger] seen[x.0 as int] && #[trigger] f.edge(
                x,
                y,
            ) && avoid != Some(y) ==> seen[y.0 as int],
    ensures
        seen[p[k].0 as int],
    decreases k,
{
    if k > 0 {
        lemma_closed(f, avoid, p, seen, k - 1);
        assert(f.edge(p[k - 1], p[k - 1 + 1]));
        assert(f.has_block(p[k]) && f.has_block(p[k - 1]));
    }
}

/// Marks every block that can be reached from `start` without touching `avoid`.
#[verifier::rlimit(40)]
pub fn reachable_from(f: &FuncIr, start: BlockId, avoid: Option<BlockId>) -> (seen: Vec<bool>)
    requires
        f.wf(),
        f.has_block(start),
    ensures
        seen@.len() == f.blocks@.len(),
        forall|b: BlockId| #[trigger]
            f.has_block(b) ==> (seen@[b.0 as int] <==> reach(*f, avoid, start, b)),
{
    let n: usize = f.blocks.len();
    let mut seen: Vec<bool> = Vec::new();
    let mut k: usize = 0;
    while k < n
        invariant
            k <= n,
            n == f.blocks@.len(),
            seen@.len() == k,
            forall|i: int| 0 <= i < k ==> !#[trigger] seen@[i],
        decreases n - k,
    {
        seen.push(false);
        k = k + 1;
    }
    let blocked = match avoid {
        Some(a) => a == start,
        None => false,
    };
    if blocked {
        proof {
            assert forall|b: BlockId| #[trigger] f.has_block(b) implies !reach(
                *f,
                avoid,
                start,
                b,
            ) by {
                if reach(*f, avoid, start, b) {
                    let p = choose|p: Seq<BlockId>| #[trigger]
                        is_path(*f, avoid, p) && p[0] == start && p.last() == b;
                    assert(avoid != Some(p[0]));
                }
            }
        }
        return seen;
    }
    let mut stack: Vec<BlockId> = Vec::new();
    seen.set(start.0 as usize, true);
    stack.push(start);
    proof {
        let p = seq![start];
        assert(is_path(*f, avoid, p));
        assert(p[0] == start && p.last() == start);
        assert(reach(*f, avoid, start, start));
    }
    while stack.len() > 0
        invariant
            f.wf(),
            n == f.blocks@.len(),
            seen@.len() == n,
            f.has_block(start),
            seen@[start.0 as int],
            forall|i: int|
                0 <= i < stack@.len() ==> f.has_block(#[trigger] stack@[i])
                    && seen@[stack@[i].0 as int],
            forall|b: BlockId| #[trigger]
                f.has_block(b) && seen@[b.0 as int] ==> reach(*f, avoid, start, b),
            forall|x: BlockId, y: BlockId|
                f.has_block(x) && f.has_block(y) && #[trigger] seen@[x.0 as int]
                    && #[trigger] f.edge(x, y) && avoid != Some(y) && !stack@.contains(x)
                    ==> seen@[y.0 as int],
        decreases unmarked(seen@, n as int), stack@.len(),
    {
        let ghost before = stack@;
        let ghost seen_before = seen@;
        let top = stack.pop().unwrap();
        let succs = successors(&f.block(top).term);
        let mut j: usize = 0;
        proof {
            assert(before.last() == top);
            assert(before == stack@.push(top));
        }
        while j < succs.len()
            invariant
                f.wf(),
                n == f.blocks@.len(),
                seen@.len() == n,
                seen_before.len() == n,
                f.has_block(start),
                f.has_block(top),
                seen@[top.0 as int],
                seen@[start.0 as int],
                succs@ == f.at(top).term.targets(),
                j <= succs@.len(),
                forall|i: int|
                    0 <= i < stack@.len() ==> f.has_block(#[trigger] stack@[i])
                        && seen@[stack@[i].0 as int],
                forall|b: BlockId| #[trigger]
                    f.has_block(b) && seen@[b.0 as int] ==> reach(*f, avoid, start, b),
                forall|x: BlockId, y: BlockId|
                    f.has_block(x) && f.has_block(y) && #[trigger] seen@[x.0 as int]
                        && #[trigger] f.edge(x, y) && avoid != Some(y) && !stack@.contains(x) && x
                        != top ==> seen@[y.0 as int],
                forall|i: int|
                    0 <= i < j ==> avoid == Some(#[trigger] succs@[i])
                        || seen@[succs@[i].0 as int],
                unmarked(seen@, n as int) < unmarked(seen_before, n as int) || (seen@
                    == seen_before && stack@.len() < before.len()),
                unmarked(seen@, n as int) <= unmarked(seen_before, n as int),
            decreases succs@.len() - j,
        {
            let y = succs[j];
            let skip = match avoid {
                Some(a) => a == y,
                None => false,
            };
            proof {
                assert(f.at(top).term.targets()[j as int] == y);
                assert(f.has_block(y));
                assert(f.edge(top, y));
            }
            if !skip && !seen[y.0 as usize] {
                proof {
                    lemma_reach_step(*f, avoid, start, top, y);
                    lemma_unmarked_set(seen@, y.0 as int, n as int);
                }
                let ghost stack_before = stack@;
                let ghost marks_before = seen@;
                seen.set(y.0 as usize, true);
                stack.push(y);
                proof {
                    assert forall|x: BlockId, z: BlockId|
                        f.has_block(x) && f.has_block(z) && #[trigger] seen@[x.0 as int]
                            && #[trigger] f.edge(x, z) && avoid != Some(z) && !stack@.contains(x)
                            && x != top implies seen@[z.0 as int] by {
                        if x == y {
                            assert(stack@[stack@.len() - 1] == y);
                            assert(stack@.contains(x));
                        }
                        if x.0 != y.0 {
                            assert(marks_before[x.0 as int]);
                            if stack_before.contains(x) {
                                let q = choose|q: int|
                                    0 <= q < stack_before.len() && stack_before[q] == x;
                                assert(stack@[q] == x);
                            }
                        }
                    }
                }
            }
            j = j + 1;
        }
        proof {
            assert forall|x: BlockId, y: BlockId|
                f.has_block(x) && f.has_block(y) && #[trigger] seen@[x.0 as int] && #[trigger] f.edge(
                    x,
                    y,
                ) && avoid != Some(y) && !stack@.contains(x) implies seen@[y.0 as int] by {
                if x == top {
                    let q = choose|q: int|
                        0 <= q < f.at(top).term.targets().len() && f.at(top).term.targets()[q] == y;
                    assert(succs@[q] == y);
                }
            }
        }
    }
    proof {
        assert forall|b: BlockId| #[trigger] f.has_block(b) implies (seen@[b.0 as int] <==> reach(
            *f,
            avoid,
            start,
            b,
        )) by {
            if reach(*f, avoid, start, b) {
                let p = choose|p: Seq<BlockId>| #[trigger]
                    is_path(*f, avoid, p) && p[0] == start && p.last() == b;
                lemma_closed(*f, avoid, p, seen@, p.len() - 1);
            }
        }
    }
    seen
}

/// How many of the first `k` marks are not set.
spec fn unmarked(seen: Seq<bool>, k: int) -> nat
    decreases k,
{
    if k <= 0 {
        0
    } else if seen[k - 1] {
        unmarked(seen, k - 1)
    } else {
        unmarked(seen, k - 1) + 1
    }
}

/// Setting a mark lowers the number of marks that are not set.
proof fn lemma_unmarked_set(seen: Seq<bool>, y: int, k: int)
    requires
        0 <= y < seen.len(),
        !seen[y],
        0 <= k <= seen.len(),
    ensures
        y < k ==> unmarked(seen.update(y, true), k) + 1 == unmarked(seen, k),
        y >= k ==> unmarked(seen.update(y, true), k) == unmarked(seen, k),
    decreases k,
{
    if k > 0 {
        lemma_unmarked_set(seen, y, k - 1);
    }
}

/// The blocks that control may go to.
pub fn successors(term: &Term) -> (r: Vec<BlockId>)
    ensures
        r@ == term.targets(),
{
    match term {
        Term::Jump(t, _) => vec![*t],
        Term::Branch { t, f, .. } => vec![*t, *f],
        Term::Return(_) => Vec::new(),
    }
}

/// The blocks below number `k` that belong to the natural loop of `h`, ascending.
pub open spec fn loop_members(f: FuncIr, h: BlockId, k: nat) -> Seq<BlockId>
    decreases k,
{
    if k == 0 {
        seq![]
    } else {
        let x = BlockId((k - 1) as u32);
        let before = loop_members(f, h, (k - 1) as nat);
        if in_loop(f, h, x) {
            before.push(x)
        } else {
            before
        }
    }
}

/// The natural loop of `h`: its blocks in ascending order.
pub open spec fn natural_loop(f: FuncIr, h: BlockId) -> Seq<BlockId> {
    loop_members(f, h, f.blocks@.len())
}

/// A header and the blocks of its natural loop.
pub type RawLoop = (BlockId, Vec<BlockId>);

/// A header and the blocks of its natural loop, as mathematical values.
pub open spec fn raw_view(r: RawLoop) -> (BlockId, Seq<BlockId>) {
    (r.0, r.1@)
}

/// The natural loops whose header is below number `k`, by ascending header.
pub open spec fn loops_below(f: FuncIr, k: nat) -> Seq<(BlockId, Seq<BlockId>)>
    decreases k,
{
    if k == 0 {
        seq![]
    } else {
        let h = BlockId((k - 1) as u32);
        let before = loops_below(f, (k - 1) as nat);
        if is_header(f, h) {
            before.push((h, natural_loop(f, h)))
        } else {
            before
        }
    }
}

/// Every natural loop of the function, by ascending header.
pub open spec fn all_loops(f: FuncIr) -> Seq<(BlockId, Seq<BlockId>)> {
    loops_below(f, f.blocks@.len())
}

/// Discovers the natural loops; back edges that share a header make one loop.
pub fn natural_loops(f: &FuncIr) -> (r: Vec<RawLoop>)
    requires
        f.wf(),
    ensures
        r@.map_values(|l: RawLoop| raw_view(l)) == all_loops(*f),
        r@.len() <= f.blocks@.len(),
{
    let n: usize = f.blocks.len();
    let live = reachable_from(f, f.entry, None);
    let mut out: Vec<RawLoop> = Vec::new();
    let mut k: usize = 0;
    while k < n
        invariant
            f.wf(),
            n == f.blocks@.len(),
            k <= n,
            live@.len() == n,
            forall|b: BlockId| #[trigger]
                f.has_block(b) ==> (live@[b.0 as int] <==> reach(*f, None, f.entry, b)),
            out@.map_values(|l: RawLoop| raw_view(l)) == loops_below(*f, k as nat),
            out@.len() <= k,
        decreases n - k,
    {
        let h = BlockId(k as u32);
        let latches = latches_of(f, h, &live);
        if latches.len() > 0 {
            proof {
                assert(latches@.contains(latches@[0]));
                assert(back_edge(*f, latches@[0], h));
            }
            let body = loop_body(f, h, &latches);
            let ghost before = out@;
            out.push((h, body));
            proof {
                assert(out@.map_values(|l: RawLoop| raw_view(l)) =~= before.map_values(
                    |l: RawLoop| raw_view(l),
                ).push((h, natural_loop(*f, h))));
            }
        } else {
            proof {
                if is_header(*f, h) {
                    let b = choose|b: BlockId| back_edge(*f, b, h);
                    assert(latches@.contains(b));
                }
            }
        }
        k = k + 1;
    }
    out
}

/// The sources of the back edges into `h`. `live` marks the blocks that can be
/// executed.
fn latches_of(f: &FuncIr, h: BlockId, live: &Vec<bool>) -> (r: Vec<BlockId>)
    requires
        f.wf(),
        f.has_block(h),
        live@.len() == f.blocks@.len(),
        forall|b: BlockId| #[trigger]
            f.has_block(b) ==> (live@[b.0 as int] <==> reach(*f, None, f.entry, b)),
    ensures
        forall|b: BlockId| r@.contains(b) <==> #[trigger] back_edge(*f, b, h),
{
    let n: usize = f.blocks.len();
    let around = reachable_from(f, f.entry, Some(h));
    let mut out: Vec<BlockId> = Vec::new();
    let mut k: usize = 0;
    while k < n
        invariant
            f.wf(),
            n == f.blocks@.len(),
            k <= n,
            live@.len() == n,
            around@.len() == n,
            forall|b: BlockId| #[trigger]
                f.has_block(b) ==> (live@[b.0 as int] <==> reach(*f, None, f.entry, b)),
            forall|b: BlockId| #[trigger]
                f.has_block(b) ==> (around@[b.0 as int] <==> reach(*f, Some(h), f.entry, b)),
            forall|b: BlockId|
                out@.contains(b) <==> (#[trigger] back_edge(*f, b, h) && b.0 < k),
        decreases n - k,
    {
        let b = BlockId(k as u32);
        let ghost before = out@;
        let ghost done = k as int;
        assert(forall|x: BlockId|
            before.contains(x) <==> (#[trigger] back_edge(*f, x, h) && x.0 < done));
        assert(f.has_block(b));
        let hit = live[k] && !around[k] && f.block(b).term.goes_to(h);
        assert(hit == back_edge(*f, b, h));
        if hit {
            out.push(b);
        }
        k = k + 1;
        proof {
            assert forall|x: BlockId|
                out@.contains(x) <==> (#[trigger] back_edge(*f, x, h) && x.0 < k) by {
                assert(before.contains(x) <==> (back_edge(*f, x, h) && x.0 < done));
                if before.contains(x) {
                    let q = choose|q: int| 0 <= q < before.len() && before[q] == x;
                    assert(out@[q] == x);
                }
                if hit && x == b {
                    assert(out@[out@.len() - 1] == x);
                }
                if out@.contains(x) {
                    let q = choose|q: int| 0 <= q < out@.len() && out@[q] == x;
                    if q < before.len() {
                        assert(before[q] == x);
                        assert(before.contains(x));
                    } else {
                        assert(x == b);
                    }
                }
                if x.0 == k - 1 {
                    assert(x == b);
                }
            }
        }
    }
    proof {
        assert forall|b: BlockId| out@.contains(b) <==> #[trigger] back_edge(*f, b, h) by {}
    }
    out
}

/// The blocks of the natural loop of `h`, ascending, given the sources of its back
/// edges.
fn loop_body(f: &FuncIr, h: BlockId, latches: &Vec<BlockId>) -> (r: Vec<BlockId>)
    requires
        f.wf(),
        f.has_block(h),
        forall|b: BlockId| latches@.contains(b) <==> #[trigger] back_edge(*f, b, h),
    ensures
        r@ == natural_loop(*f, h),
{
    let n: usize = f.blocks.len();
    let mut out: Vec<BlockId> = Vec::new();
    let mut k: usize = 0;
    while k < n
        invariant
            f.wf(),
            n == f.blocks@.len(),
            k <= n,
            f.has_block(h),
            forall|b: BlockId| latches@.contains(b) <==> #[trigger] back_edge(*f, b, h),
            out@ == loop_members(*f, h, k as nat),
        decreases n - k,
    {
        let x = BlockId(k as u32);
        if block_in_loop(f, h, latches, x) {
            out.push(x);
        }
        k = k + 1;
    }
    out
}

/// Whether `x` belongs to the natural loop of `h`.
fn block_in_loop(f: &FuncIr, h: BlockId, latches: &Vec<BlockId>, x: BlockId) -> (r: bool)
    requires
        f.wf(),
        f.has_block(h),
        f.has_block(x),
        forall|b: BlockId| latches@.contains(b) <==> #[trigger] back_edge(*f, b, h),
    ensures
        r == in_loop(*f, h, x),
{
    if x == h {
        return true;
    }
    let ahead = reachable_from(f, x, Some(h));
    let mut k: usize = 0;
    while k < latches.len()
        invariant
            k <= latches@.len(),
            ahead@.len() == f.blocks@.len(),
            forall|b: BlockId| latches@.contains(b) <==> #[trigger] back_edge(*f, b, h),
            forall|b: BlockId| #[trigger]
                f.has_block(b) ==> (ahead@[b.0 as int] <==> reach(*f, Some(h), x, b)),
            forall|j: int| 0 <= j < k ==> !reach(*f, Some(h), x, #[trigger] latches@[j]),
        decreases latches@.len() - k,
    {
        let b = latches[k];
        proof {
            assert(latches@.contains(b));
            assert(back_edge(*f, b, h));
            assert(f.has_block(b));
        }
        if ahead[b.0 as usize] {
            return true;
        }
        k = k + 1;
    }
    proof {
        if in_loop(*f, h, x) {
            let b = choose|b: BlockId| #[trigger] back_edge(*f, b, h) && reach(*f, Some(h), x, b);
            assert(latches@.contains(b));
            let q = choose|q: int| 0 <= q < latches@.len() && latches@[q] == b;
            assert(!reach(*f, Some(h), x, latches@[q]));
        }
    }
    false
}

/// The members of a natural loop are exactly the blocks that belong to it, each once
/// and in ascending order.
pub proof fn lemma_loop_members(f: FuncIr, h: BlockId, k: nat)
    requires
        k <= u32::MAX,
    ensures
        forall|x: BlockId|
            loop_members(f, h, k).contains(x) <==> (#[trigger] in_loop(f, h, x) && x.0 < k),
        forall|i: int, j: int|
            0 <= i < j < loop_members(f, h, k).len() ==> (#[trigger] loop_members(f, h, k)[i]).0
                < (#[trigger] loop_members(f, h, k)[j]).0,
        loop_members(f, h, k).len() <= k,
    decreases k,
{
    if k > 0 {
        let x = BlockId((k - 1) as u32);
        let before = loop_members(f, h, (k - 1) as nat);
        let now = loop_members(f, h, k);
        lemma_loop_members(f, h, (k - 1) as nat);
        assert forall|y: BlockId|
            now.contains(y) <==> (#[trigger] in_loop(f, h, y) && y.0 < k) by {
            if before.contains(y) {
                let q = choose|q: int| 0 <= q < before.len() && before[q] == y;
                assert(now[q] == y);
            }
            if in_loop(f, h, x) && y == x {
                assert(now[now.len() - 1] == y);
            }
            if now.contains(y) {
                let q = choose|q: int| 0 <= q < now.len() && now[q] == y;
                if q < before.len() {
                    assert(before[q] == y);
                    assert(before.contains(y));
                }
            }
            if y.0 == k - 1 {
                assert(y == x);
            }
        }
        assert forall|i: int, j: int| 0 <= i < j < now.len() implies (#[trigger] now[i]).0 < (
        #[trigger] now[j]).0 by {
            assert(before.contains(before[i]));
            assert(in_loop(f, h, before[i]));
            if j < before.len() {
                assert(before[i].0 < before[j].0);
            }
        }
    }
}

/// The blocks of the natural loop of `h`; `None` when no loop has that header.
pub fn natural_loop_of(f: &FuncIr, h: BlockId) -> (r: Option<Vec<BlockId>>)
    requires
        f.wf(),
        f.has_block(h),
    ensures
        r is Some <==> is_header(*f, h),
        r matches Some(body) ==> body@ == natural_loop(*f, h),
{
    let live = reachable_from(f, f.entry, None);
    let latches = latches_of(f, h, &live);
    if latches.len() == 0 {
        proof {
            if is_header(*f, h) {
                let b = choose|b: BlockId| back_edge(*f, b, h);
                assert(latches@.contains(b));
            }
        }
        return None;
    }
    proof {
        assert(latches@.contains(latches@[0]));
        assert(back_edge(*f, latches@[0], h));
    }
    Some(loop_body(f, h, &latches))
}

} // verus!
