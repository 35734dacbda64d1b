//! What makes a loop, said of the paths through a function.
use vstd::prelude::*;

use crate::graph::{
    all_loops, back_edge, in_loop, is_header, is_path, lemma_loop_members, loops_below,
    natural_loop, reach,
};
use crate::ir::{BlockId, FuncIr};

verus! {

/// The list runs along edges from the entry of the function to a block.
pub open spec fn walk_to(f: FuncIr, p: Seq<BlockId>, b: BlockId) -> bool {
    &&& p.len() > 0
    &&& p[0] == f.entry
    &&& p.last() == b
    &&& forall|i: int| 0 <= i < p.len() ==> f.has_block(#[trigger] p[i])
    &&& forall|i: int| 0 <= i < p.len() - 1 ==> f.edge(#[trigger] p[i], p[i + 1])
}

/// A walk is a path that avoids nothing.
proof fn lemma_walks(f: FuncIr, p: Seq<BlockId>, b: BlockId)
    ensures
        walk_to(f, p, b) <==> is_path(f, None, p) && p[0] == f.entry && p.last() == b,
{
    if walk_to(f, p, b) {
        assert forall|i: int| 0 <= i < p.len() - 1 implies f.edge(#[trigger] p[i], p[i + 1]) by {}
        assert(is_path(f, None, p));
    }
    if is_path(f, None, p) && p[0] == f.entry && p.last() == b {
        assert forall|i: int| 0 <= i < p.len() - 1 implies f.edge(#[trigger] p[i], p[i + 1]) by {}
        assert(walk_to(f, p, b));
    }
}

/// An edge that returns to a block through which every walk to its source leads closes a loop.
proof fn lemma_back_edge(f: FuncIr, p: Seq<BlockId>, b: BlockId, h: BlockId)
    requires
        f.edge(b, h),
        walk_to(f, p, b),
        forall|q: Seq<BlockId>| #[trigger] walk_to(f, q, b) ==> q.contains(h),
    ensures
        back_edge(f, b, h),
{
    lemma_walks(f, p, b);
    assert(reach(f, None, f.entry, b));
    if reach(f, Some(h), f.entry, b) {
        let q = choose|q: Seq<BlockId>| #[trigger]
            is_path(f, Some(h), q) && q[0] == f.entry && q.last() == b;
        assert(is_path(f, None, q)) by {
            assert forall|i: int| 0 <= i < q.len() - 1 implies f.edge(
                #[trigger] q[i],
                q[i + 1],
            ) by {}
        }
        lemma_walks(f, q, b);
        assert(q.contains(h));
        let i = choose|i: int| 0 <= i < q.len() && q[i] == h;
        assert(Some(h) != Some(q[i]));
    }
}

/// A back edge returns to a block through which every walk to its source leads.
proof fn lemma_back_edge_is(f: FuncIr, b: BlockId, h: BlockId)
    requires
        back_edge(f, b, h),
    ensures
        f.edge(b, h),
        exists|p: Seq<BlockId>| #[trigger] walk_to(f, p, b),
        forall|q: Seq<BlockId>| #[trigger] walk_to(f, q, b) ==> q.contains(h),
{
    let p = choose|p: Seq<BlockId>| #[trigger]
        is_path(f, None, p) && p[0] == f.entry && p.last() == b;
    lemma_walks(f, p, b);
    assert forall|q: Seq<BlockId>| #[trigger] walk_to(f, q, b) implies q.contains(h) by {
        lemma_walks(f, q, b);
        if !q.contains(h) {
            assert forall|i: int| 0 <= i < q.len() implies f.has_block(#[trigger] q[i]) && Some(h)
                != Some(q[i]) by {
                assert(q.contains(q[i]));
            }
            assert forall|i: int| 0 <= i < q.len() - 1 implies f.edge(
                #[trigger] q[i],
                q[i + 1],
            ) by {}
            assert(is_path(f, Some(h), q));
        }
    }
}

/// The loops below a number are those of the headers below it.
proof fn lemma_loops_below(f: FuncIr, k: nat, h: BlockId)
    requires
        k <= u32::MAX,
    ensures
        is_header(f, h) && h.0 < k ==> loops_below(f, k).contains((h, natural_loop(f, h))),
        forall|i: int|
            0 <= i < loops_below(f, k).len() ==> {
                let l = #[trigger] loops_below(f, k)[i];
                is_header(f, l.0) && l.0.0 < k && l.1 == natural_loop(f, l.0)
            },
        forall|i: int, j: int|
            0 <= i < j < loops_below(f, k).len() ==> (#[trigger] loops_below(f, k)[i]).0.0 < (
            #[trigger] loops_below(f, k)[j]).0.0,
    decreases k,
{
    if k > 0 {
        lemma_loops_below(f, (k - 1) as nat, h);
        let x = BlockId((k - 1) as u32);
        let before = loops_below(f, (k - 1) as nat);
        let after = loops_below(f, k);
        if is_header(f, h) && h.0 < k - 1 {
            let i = choose|i: int|
                0 <= i < before.len() && before[i] == (h, natural_loop(f, h));
            assert(after[i] == before[i]);
        } else if is_header(f, h) && h.0 == k - 1 {
            assert(h == x);
            assert(after[before.len() as int] == (h, natural_loop(f, h)));
        }
    }
}

/// Where an edge returns to a block through which every walk to its source leads, there is a
/// loop that starts at that block and holds both.
pub proof fn law_returning_edges_make_loops(
    f: FuncIr,
    p: Seq<BlockId>,
    b: BlockId,
    h: BlockId,
) -> (i: int)
    requires
        f.blocks@.len() <= u32::MAX,
        f.has_block(h),
        f.edge(b, h),
        walk_to(f, p, b),
        forall|q: Seq<BlockId>| #[trigger] walk_to(f, q, b) ==> q.contains(h),
    ensures
        0 <= i < all_loops(f).len(),
        all_loops(f)[i].0 == h,
        all_loops(f)[i].1.contains(h),
        all_loops(f)[i].1.contains(b),
{
    lemma_back_edge(f, p, b, h);
    lemma_loops_below(f, f.blocks@.len(), h);
    lemma_loop_members(f, h, f.blocks@.len());
    assert(p.last() == p[p.len() - 1]);
    assert(f.has_block(b));
    assert(in_loop(f, h, b)) by {
        if b != h {
            let q = seq![b];
            assert(is_path(f, Some(h), q));
            assert(reach(f, Some(h), b, b));
        }
    }
    assert(in_loop(f, h, h));
    choose|i: int| 0 <= i < all_loops(f).len() && all_loops(f)[i] == (h, natural_loop(f, h))
}

/// Every loop has such an edge into its first block from one of its blocks, and no two loops
/// start at one block.
pub proof fn law_loops_have_returning_edges(f: FuncIr, i: int, j: int) -> (b: BlockId)
    requires
        f.blocks@.len() <= u32::MAX,
        0 <= i < all_loops(f).len(),
        0 <= j < all_loops(f).len(),
    ensures
        all_loops(f)[i].1.contains(b),
        f.edge(b, all_loops(f)[i].0),
        exists|p: Seq<BlockId>| #[trigger] walk_to(f, p, b),
        forall|q: Seq<BlockId>| #[trigger] walk_to(f, q, b) ==> q.contains(all_loops(f)[i].0),
        i != j ==> all_loops(f)[i].0 != all_loops(f)[j].0,
{
    let h = all_loops(f)[i].0;
    lemma_loops_below(f, f.blocks@.len(), h);
    let b = choose|b: BlockId| back_edge(f, b, h);
    lemma_back_edge_is(f, b, h);
    let p = choose|p: Seq<BlockId>| #[trigger] walk_to(f, p, b);
    assert(p.last() == p[p.len() - 1]);
    lemma_back_edge(f, p, b, h);
    lemma_loop_members(f, h, f.blocks@.len());
    assert(in_loop(f, h, b)) by {
        if b != h {
            let q = seq![b];
            assert(is_path(f, Some(h), q));
            assert(reach(f, Some(h), b, b));
        }
    }
    b
}

/// What leads to a block of a loop that is not its first belongs to the loop.
pub proof fn law_loops_hold_what_leads_into_them(f: FuncIr, i: int, x: BlockId, y: BlockId)
    requires
        f.blocks@.len() <= u32::MAX,
        0 <= i < all_loops(f).len(),
        all_loops(f)[i].1.contains(y),
        y != all_loops(f)[i].0,
        f.has_block(x),
        f.edge(x, y),
    ensures
        all_loops(f)[i].1.contains(x),
{
    let h = all_loops(f)[i].0;
    lemma_loops_below(f, f.blocks@.len(), h);
    lemma_loop_members(f, h, f.blocks@.len());
    assert(in_loop(f, h, y));
    if x != h {
        let b = choose|b: BlockId| #[trigger] back_edge(f, b, h) && reach(f, Some(h), y, b);
        let p = choose|p: Seq<BlockId>| #[trigger]
            is_path(f, Some(h), p) && p[0] == y && p.last() == b;
        let q = seq![x] + p;
        assert forall|k: int| 0 <= k < q.len() - 1 implies f.edge(#[trigger] q[k], q[k + 1]) by {
            if k > 0 {
                assert(f.edge(p[k - 1], p[k - 1 + 1]));
            }
        }
        assert forall|k: int| 0 <= k < q.len() implies f.has_block(#[trigger] q[k]) && Some(h)
            != Some(q[k]) by {
            if k > 0 {
                assert(f.has_block(p[k - 1]) && Some(h) != Some(p[k - 1]));
            }
        }
        assert(is_path(f, Some(h), q));
        assert(q.last() == b);
        assert(reach(f, Some(h), x, b));
        assert(in_loop(f, h, x));
    } else {
        assert(in_loop(f, h, h));
    }
}

/// A path that ends in a set which holds what leads into it stays in the set.
proof fn lemma_stays(f: FuncIr, h: BlockId, p: Seq<BlockId>, part: Set<BlockId>, k: int)
    requires
        is_path(f, Some(h), p),
        0 <= k < p.len(),
        part.contains(p.last()),
        forall|x: BlockId, y: BlockId|
            #![trigger f.edge(x, y)]
            part.contains(y) && y != h && f.has_block(x) && f.edge(x, y) ==> part.contains(x),
    ensures
        part.contains(p[k]),
    decreases p.len() - k,
{
    if k < p.len() - 1 {
        lemma_stays(f, h, p, part, k + 1);
        assert(f.edge(p[k], p[k + 1]));
        assert(f.has_block(p[k]));
        assert(Some(h) != Some(p[k + 1]));
    }
}

/// A loop holds nothing else: each set that holds its first block, the sources of the edges
/// that return to it, and what leads into the set, holds the loop.
pub proof fn law_loops_hold_nothing_else(f: FuncIr, i: int, part: Set<BlockId>, x: BlockId)
    requires
        f.blocks@.len() <= u32::MAX,
        0 <= i < all_loops(f).len(),
        all_loops(f)[i].1.contains(x),
        part.contains(all_loops(f)[i].0),
        forall|b: BlockId| #[trigger]
            f.edge(b, all_loops(f)[i].0) && (exists|p: Seq<BlockId>| #[trigger] walk_to(f, p, b))
                && (forall|q: Seq<BlockId>| #[trigger]
                walk_to(f, q, b) ==> q.contains(all_loops(f)[i].0)) ==> part.contains(b),
        forall|x: BlockId, y: BlockId|
            #![trigger f.edge(x, y)]
            part.contains(y) && y != all_loops(f)[i].0 && f.has_block(x) && f.edge(x, y)
                ==> part.contains(x),
    ensures
        part.contains(x),
{
    let h = all_loops(f)[i].0;
    lemma_loops_below(f, f.blocks@.len(), h);
    lemma_loop_members(f, h, f.blocks@.len());
    assert(in_loop(f, h, x));
    if x != h {
        let b = choose|b: BlockId| #[trigger] back_edge(f, b, h) && reach(f, Some(h), x, b);
        lemma_back_edge_is(f, b, h);
        assert(f.edge(b, h));
        assert(part.contains(b));
        let p = choose|p: Seq<BlockId>| #[trigger]
            is_path(f, Some(h), p) && p[0] == x && p.last() == b;
        lemma_stays(f, h, p, part, 0);
    }
}

} // verus!
