//! The loop nest: natural loops ordered outer before inner, each with its depth and
//! its immediate parent.
use vstd::prelude::*;

use crate::graph::{all_loops, natural_loops, raw_view, RawLoop};
use crate::ir::{BlockId, FuncIr};

verus! {

/// One loop of the nest. `blocks` holds the header too.
#[derive(Debug)]
pub struct Loop {
    pub id: usize,
    pub header: BlockId,
    pub blocks: Vec<BlockId>,
    /// 1 for an outermost loop.
    pub depth: u32,
    /// Position in [`LoopInfo::loops`] of the immediately enclosing loop.
    pub parent: Option<usize>,
}

/// The loops of one function.
#[derive(Debug)]
pub struct LoopInfo {
    pub loops: Vec<Loop>,
}

/// One loop of the nest as mathematical values; its number is its position.
pub struct NestedLoop {
    pub header: BlockId,
    pub blocks: Seq<BlockId>,
    pub depth: int,
    pub parent: Option<int>,
}

impl View for Loop {
    type V = NestedLoop;

    open spec fn view(&self) -> NestedLoop {
        NestedLoop {
            header: self.header,
            blocks: self.blocks@,
            depth: self.depth as int,
            parent: match self.parent {
                Some(p) => Some(p as int),
                None => None,
            },
        }
    }
}

/// Every block of `inner` is one of `outer`.
pub open spec fn covers(outer: Seq<BlockId>, inner: Seq<BlockId>) -> bool {
    forall|i: int| 0 <= i < inner.len() ==> outer.contains(#[trigger] inner[i])
}

/// Where a body of `size` blocks goes in a list ordered by falling size: behind
/// everything that is not smaller.
pub open spec fn size_position(s: Seq<(BlockId, Seq<BlockId>)>, size: nat) -> int
    decreases s.len(),
{
    if s.len() == 0 || s.last().1.len() >= size {
        s.len() as int
    } else {
        size_position(s.drop_last(), size)
    }
}

/// The loops by falling size of their bodies; equal sizes keep their order.
pub open spec fn by_falling_size(s: Seq<(BlockId, Seq<BlockId>)>) -> Seq<(BlockId, Seq<BlockId>)>
    decreases s.len(),
{
    if s.len() == 0 {
        seq![]
    } else {
        let t = by_falling_size(s.drop_last());
        t.insert(size_position(t, s.last().1.len()), s.last())
    }
}

/// The innermost of the loops placed so far that encloses a body: the last one with
/// another header whose blocks cover it.
pub open spec fn enclosing(
    placed: Seq<NestedLoop>,
    header: BlockId,
    body: Seq<BlockId>,
) -> Option<int>
    decreases placed.len(),
{
    if placed.len() == 0 {
        None
    } else if placed.last().header != header && covers(placed.last().blocks, body) {
        Some(placed.len() - 1)
    } else {
        enclosing(placed.drop_last(), header, body)
    }
}

/// The nest of a list of loops that runs from larger to smaller bodies.
pub open spec fn nest(s: Seq<(BlockId, Seq<BlockId>)>) -> Seq<NestedLoop>
    decreases s.len(),
{
    if s.len() == 0 {
        seq![]
    } else {
        let placed = nest(s.drop_last());
        let parent = enclosing(placed, s.last().0, s.last().1);
        placed.push(
            NestedLoop {
                header: s.last().0,
                blocks: s.last().1,
                depth: match parent {
                    Some(p) => placed[p].depth + 1,
                    None => 1,
                },
                parent,
            },
        )
    }
}

/// The loop nest of a function.
pub open spec fn loop_nest(f: FuncIr) -> Seq<NestedLoop> {
    nest(by_falling_size(all_loops(f)))
}

impl LoopInfo {
    /// The loops as mathematical values.
    pub open spec fn nested(self) -> Seq<NestedLoop> {
        self.loops@.map_values(|l: Loop| l@)
    }

    /// The number of every loop is its position.
    pub open spec fn numbered(self) -> bool {
        forall|i: int| 0 <= i < self.loops@.len() ==> (#[trigger] self.loops@[i]).id == i
    }

    /// The first of the loops that hold `b` whose depth none of the others is below.
    pub fn innermost_containing(&self, b: BlockId) -> (r: Option<&Loop>)
        ensures
            r is None <==> forall|i: int|
                0 <= i < self.loops@.len() ==> !(#[trigger] self.loops@[i]).blocks@.contains(b),
            r matches Some(l) ==> exists|i: int|
                #![trigger self.loops@[i]]
                0 <= i < self.loops@.len() && *l == self.loops@[i] && l.blocks@.contains(b) && (
                forall|j: int|
                    0 <= j < self.loops@.len() && (#[trigger] self.loops@[j]).blocks@.contains(b)
                        ==> l.depth <= self.loops@[j].depth && (j < i ==> l.depth
                        < self.loops@[j].depth)),
    {
        let mut best: Option<usize> = None;
        let mut k: usize = 0;
        while k < self.loops.len()
            invariant
                k <= self.loops@.len(),
                best is None ==> forall|i: int|
                    0 <= i < k ==> !(#[trigger] self.loops@[i]).blocks@.contains(b),
                best matches Some(i) ==> {
                    &&& i < k
                    &&& self.loops@[i as int].blocks@.contains(b)
                    &&& forall|j: int|
                        0 <= j < k && (#[trigger] self.loops@[j]).blocks@.contains(b)
                            ==> self.loops@[i as int].depth <= self.loops@[j].depth && (j < i
                            ==> self.loops@[i as int].depth < self.loops@[j].depth)
                },
            decreases self.loops@.len() - k,
        {
            if has_member(&self.loops[k].blocks, b) {
                let better = match best {
                    Some(i) => self.loops[k].depth < self.loops[i].depth,
                    None => true,
                };
                if better {
                    best = Some(k);
                }
            }
            k = k + 1;
        }
        match best {
            Some(i) => {
                assert(self.loops@[i as int].blocks@.contains(b));
                Some(&self.loops[i])
            },
            None => None,
        }
    }

    /// The loops at nesting depth `d`, in order.
    pub fn at_depth(&self, d: u32) -> (r: Vec<&Loop>)
        ensures
            r@.map_values(|l: &Loop| *l) == self.loops@.filter(|l: Loop| l.depth == d),
    {
        let mut out: Vec<&Loop> = Vec::new();
        let mut k: usize = 0;
        let ghost keep = |l: Loop| l.depth == d;
        let ghost plain = |l: &Loop| *l;
        while k < self.loops.len()
            invariant
                k <= self.loops@.len(),
                keep == (|l: Loop| l.depth == d),
                plain == (|l: &Loop| *l),
                out@.map_values(plain) == self.loops@.take(k as int).filter(keep),
            decreases self.loops@.len() - k,
        {
            let ghost before = out@;
            proof {
                let now = self.loops@.take(k + 1);
                assert(now.drop_last() =~= self.loops@.take(k as int));
                assert(now.last() == self.loops@[k as int]);
                reveal(Seq::filter);
                assert(now.filter(keep) == if keep(now.last()) {
                    now.drop_last().filter(keep).push(now.last())
                } else {
                    now.drop_last().filter(keep)
                });
            }
            if self.loops[k].depth == d {
                out.push(&self.loops[k]);
                assert(out@.map_values(plain) =~= before.map_values(plain).push(
                    self.loops@[k as int],
                ));
            }
            k = k + 1;
        }
        assert(self.loops@.take(k as int) =~= self.loops@);
        out
    }
}

/// Whether `b` is one of the blocks.
pub fn has_member(blocks: &Vec<BlockId>, b: BlockId) -> (r: bool)
    ensures
        r == blocks@.contains(b),
{
    let mut k: usize = 0;
    while k < blocks.len()
        invariant
            k <= blocks@.len(),
            forall|i: int| 0 <= i < k ==> #[trigger] blocks@[i] != b,
        decreases blocks@.len() - k,
    {
        if blocks[k] == b {
            assert(blocks@[k as int] == b);
            return true;
        }
        k = k + 1;
    }
    false
}

/// Whether every block of `inner` is one of `outer`.
pub fn has_members(outer: &Vec<BlockId>, inner: &Vec<BlockId>) -> (r: bool)
    ensures
        r == covers(outer@, inner@),
{
    let mut k: usize = 0;
    while k < inner.len()
        invariant
            k <= inner@.len(),
            forall|i: int| 0 <= i < k ==> outer@.contains(#[trigger] inner@[i]),
        decreases inner@.len() - k,
    {
        if !has_member(outer, inner[k]) {
            assert(!outer@.contains(inner@[k as int]));
            return false;
        }
        k = k + 1;
    }
    true
}

/// Views of raw loops.
spec fn raw_views(s: Seq<RawLoop>) -> Seq<(BlockId, Seq<BlockId>)> {
    s.map_values(|l: RawLoop| raw_view(l))
}

/// The position lies within the list, and splits it by size.
proof fn lemma_size_position(s: Seq<(BlockId, Seq<BlockId>)>, size: nat)
    ensures
        0 <= size_position(s, size) <= s.len(),
        forall|i: int|
            size_position(s, size) <= i < s.len() ==> (#[trigger] s[i]).1.len() < size,
        size_position(s, size) > 0 ==> s[size_position(s, size) - 1].1.len() >= size,
    decreases s.len(),
{
    if s.len() == 0 || s.last().1.len() >= size {
    } else {
        lemma_size_position(s.drop_last(), size);
        assert forall|i: int| size_position(s, size) <= i < s.len() implies (
        #[trigger] s[i]).1.len() < size by {
            if i < s.len() - 1 {
                assert(s.drop_last()[i] == s[i]);
            }
        }
    }
}

/// Cutting a list behind a position that a scan from the end may pass leaves the
/// position where it is.
proof fn lemma_size_position_take(s: Seq<(BlockId, Seq<BlockId>)>, size: nat, k: int)
    requires
        0 <= k <= s.len(),
        forall|i: int| k <= i < s.len() ==> (#[trigger] s[i]).1.len() < size,
    ensures
        size_position(s, size) == size_position(s.take(k), size),
    decreases s.len(),
{
    if k < s.len() {
        assert(s.last().1.len() < size);
        assert(s.drop_last().take(k) =~= s.take(k));
        lemma_size_position_take(s.drop_last(), size, k);
    } else {
        assert(s.take(k) =~= s);
    }
}

/// Orders loops by falling size of their bodies, keeping the order of equal sizes.
fn sort_by_falling_size(raw: Vec<RawLoop>) -> (r: Vec<RawLoop>)
    ensures
        raw_views(r@) == by_falling_size(raw_views(raw@)),
        r@.len() == raw@.len(),
{
    let ghost all = raw_views(raw@);
    let ghost count = raw@.len();
    let mut rest = raw;
    let mut out: Vec<RawLoop> = Vec::new();
    let ghost mut done: int = 0;
    while rest.len() > 0
        invariant
            0 <= done <= all.len(),
            all.len() == count,
            raw_views(rest@) == all.skip(done),
            raw_views(out@) == by_falling_size(all.take(done)),
            out@.len() == done,
            rest@.len() == all.len() - done,
        decreases rest@.len(),
    {
        let ghost rest_before = rest@;
        let item = rest.remove(0);
        let size: usize = item.1.len();
        let mut pos: usize = out.len();
        let ghost views = raw_views(out@);
        while pos > 0 && out[pos - 1].1.len() < size
            invariant
                pos <= out@.len(),
                views == raw_views(out@),
                size == item.1@.len(),
                forall|i: int| pos <= i < views.len() ==> (#[trigger] views[i]).1.len() < size,
            decreases pos,
        {
            assert(views[pos - 1] == raw_view(out@[pos - 1]));
            pos = pos - 1;
        }
        proof {
            lemma_size_position_take(views, size as nat, pos as int);
            if pos > 0 {
                assert(views.take(pos as int).last() == raw_view(out@[pos - 1]));
            }
            assert(size_position(views, size as nat) == pos);
            let prefix = all.take(done + 1);
            assert(raw_views(rest_before)[0] == all.skip(done)[0]);
            assert(prefix.last() == raw_view(item));
            assert(prefix.drop_last() =~= all.take(done));
        }
        let ghost before = out@;
        out.insert(pos, item);
        proof {
            assert(raw_views(out@) =~= raw_views(before).insert(pos as int, raw_view(item)));
            assert(raw_views(rest@) =~= all.skip(done + 1)) by {
                assert forall|i: int| 0 <= i < rest@.len() implies raw_view(#[trigger] rest@[i])
                    == all.skip(done + 1)[i] by {
                    assert(rest@[i] == rest_before[i + 1]);
                    assert(raw_views(rest_before)[i + 1] == all.skip(done)[i + 1]);
                }
            }
            done = done + 1;
        }
    }
    proof {
        assert(all.take(done) =~= all);
    }
    out
}

/// The nest has one loop per entry, each no deeper than its position allows.
proof fn lemma_nest_depths(s: Seq<(BlockId, Seq<BlockId>)>)
    ensures
        nest(s).len() == s.len(),
        forall|i: int|
            0 <= i < s.len() ==> 1 <= (#[trigger] nest(s)[i]).depth <= i + 1 && nest(s)[i].header
                == s[i].0 && nest(s)[i].blocks == s[i].1,
    decreases s.len(),
{
    if s.len() > 0 {
        lemma_nest_depths(s.drop_last());
        lemma_enclosing(nest(s.drop_last()), s.last().0, s.last().1);
        assert forall|i: int| 0 <= i < s.len() implies 1 <= (#[trigger] nest(s)[i]).depth <= i + 1
            && nest(s)[i].header == s[i].0 && nest(s)[i].blocks == s[i].1 by {
            if i < s.len() - 1 {
                assert(nest(s)[i] == nest(s.drop_last())[i]);
                assert(s.drop_last()[i] == s[i]);
            }
        }
    }
}

/// What `enclosing` finds encloses, and nothing behind it does.
proof fn lemma_enclosing(placed: Seq<NestedLoop>, header: BlockId, body: Seq<BlockId>)
    ensures
        enclosing(placed, header, body) matches Some(p) ==> {
            &&& 0 <= p < placed.len()
            &&& placed[p].header != header
            &&& covers(placed[p].blocks, body)
            &&& forall|q: int|
                p < q < placed.len() ==> (#[trigger] placed[q]).header == header || !covers(
                    placed[q].blocks,
                    body,
                )
        },
        enclosing(placed, header, body) is None ==> forall|q: int|
            0 <= q < placed.len() ==> (#[trigger] placed[q]).header == header || !covers(
                placed[q].blocks,
                body,
            ),
    decreases placed.len(),
{
    if placed.len() > 0 {
        let d = placed.drop_last();
        lemma_enclosing(d, header, body);
        if !(placed.last().header != header && covers(placed.last().blocks, body)) {
            let e = enclosing(d, header, body);
            assert(enclosing(placed, header, body) == e);
            let low: int = if e is Some { e->0 } else { -1 };
            if e is Some {
                assert(placed[low] == d[low]);
            }
            assert forall|q: int| low < q < placed.len() implies (
            #[trigger] placed[q]).header == header || !covers(placed[q].blocks, body) by {
                if q < d.len() {
                    assert(d[q] == placed[q]);
                }
            }
        }
    }
}

/// The position of the innermost loop placed so far that encloses a body.
fn find_parent(placed: &Vec<Loop>, header: BlockId, body: &Vec<BlockId>) -> (r: Option<usize>)
    ensures
        (match r {
            Some(p) => Some(p as int),
            None => None,
        }) == enclosing(placed@.map_values(|l: Loop| l@), header, body@),
        r matches Some(p) ==> p < placed@.len(),
{
    let ghost views = placed@.map_values(|l: Loop| l@);
    let mut k: usize = placed.len();
    proof {
        assert(views.take(k as int) =~= views);
    }
    while k > 0
        invariant
            k <= placed@.len(),
            views == placed@.map_values(|l: Loop| l@),
            enclosing(views, header, body@) == enclosing(views.take(k as int), header, body@),
        decreases k,
    {
        proof {
            let now = views.take(k as int);
            assert(now.last() == placed@[k - 1]@);
            assert(now.drop_last() =~= views.take(k - 1));
        }
        if placed[k - 1].header != header && has_members(&placed[k - 1].blocks, body) {
            return Some(k - 1);
        }
        k = k - 1;
    }
    None
}

/// Builds the loop nest of `func`.
///
/// Larger bodies come first, so every loop that could enclose another one is placed
/// before it. A loop is a child of the last loop placed before it whose blocks cover
/// its own and whose header differs.
pub fn find_loops(func: &FuncIr) -> (r: LoopInfo)
    requires
        func.wf(),
    ensures
        r.nested() == loop_nest(*func),
        r.numbered(),
{
    let raw = natural_loops(func);
    let sorted = sort_by_falling_size(raw);
    let ghost all = raw_views(sorted@);
    let ghost count = sorted@.len();
    let mut rest = sorted;
    let mut out: Vec<Loop> = Vec::new();
    while rest.len() > 0
        invariant
            count <= u32::MAX,
            all.len() == count,
            rest@.len() + out@.len() == count,
            raw_views(rest@) == all.skip(out@.len() as int),
            out@.map_values(|l: Loop| l@) == nest(all.take(out@.len() as int)),
            forall|i: int| 0 <= i < out@.len() ==> (#[trigger] out@[i]).id == i,
        decreases rest@.len(),
    {
        let ghost done = out@.len() as int;
        let ghost rest_before = rest@;
        let ghost before = out@;
        let (header, body) = rest.remove(0);
        let parent = find_parent(&out, header, &body);
        proof {
            lemma_nest_depths(all.take(done));
            let prefix = all.take(done + 1);
            assert(raw_views(rest_before)[0] == all.skip(done)[0]);
            assert(prefix.last() == (header, body@));
            assert(prefix.drop_last() =~= all.take(done));
            if parent is Some {
                let p = parent->0 as int;
                assert(out@.map_values(|l: Loop| l@)[p] == out@[p]@);
            }
        }
        let depth: u32 = match parent {
            Some(p) => out[p].depth + 1,
            None => 1,
        };
        let id: usize = out.len();
        out.push(Loop { id, header, blocks: body, depth, parent });
        proof {
            let added = out@[done]@;
            assert(out@.map_values(|l: Loop| l@) =~= before.map_values(|l: Loop| l@).push(added));
            assert(raw_views(rest@) =~= all.skip(done + 1)) by {
                assert forall|i: int| 0 <= i < rest@.len() implies raw_view(#[trigger] rest@[i])
                    == all.skip(done + 1)[i] by {
                    assert(rest@[i] == rest_before[i + 1]);
                    assert(raw_views(rest_before)[i + 1] == all.skip(done)[i + 1]);
                }
            }
        }
    }
    proof {
        assert(all.take(out@.len() as int) =~= all);
    }
    LoopInfo { loops: out }
}

/// Ordering keeps the loops and puts them by falling size.
proof fn lemma_by_falling_size(s: Seq<(BlockId, Seq<BlockId>)>)
    ensures
        by_falling_size(s).to_multiset() =~= s.to_multiset(),
        by_falling_size(s).len() == s.len(),
        forall|i: int, j: int|
            0 <= i < j < s.len() ==> (#[trigger] by_falling_size(s)[i]).1.len() >= (
            #[trigger] by_falling_size(s)[j]).1.len(),
    decreases s.len(),
{
    broadcast use vstd::seq_lib::group_to_multiset_ensures;

    if s.len() > 0 {
        let d = s.drop_last();
        lemma_by_falling_size(d);
        let t = by_falling_size(d);
        let size = s.last().1.len();
        let pos = size_position(t, size);
        lemma_size_position(t, size);
        let r = by_falling_size(s);
        assert(s =~= d.push(s.last()));
        assert(r =~= t.insert(pos, s.last()));
        assert(r.to_multiset() =~= s.to_multiset());
        assert forall|i: int, j: int| 0 <= i < j < s.len() implies (#[trigger] r[i]).1.len() >= (
        #[trigger] r[j]).1.len() by {
            let ti = if i < pos { i } else { i - 1 };
            let tj = if j < pos { j } else { j - 1 };
            if i == pos {
                assert(r[j] == t[tj]);
            } else if j == pos {
                assert(r[i] == t[ti]);
                assert(t[pos - 1].1.len() >= size);
                if i < pos - 1 {
                    assert(t[i].1.len() >= t[pos - 1].1.len());
                }
            } else {
                assert(r[i] == t[ti] && r[j] == t[tj]);
            }
        }
    } else {
        assert(by_falling_size(s) =~= s);
    }
}

/// The nest holds every natural loop of the function exactly as often as it was
/// discovered, and no other.
pub proof fn law_nest_keeps_every_loop(f: FuncIr)
    ensures
        loop_nest(f).map_values(|l: NestedLoop| (l.header, l.blocks)).to_multiset() =~= all_loops(
            f,
        ).to_multiset(),
{
    let sorted = by_falling_size(all_loops(f));
    lemma_by_falling_size(all_loops(f));
    lemma_nest_depths(sorted);
    assert(loop_nest(f).map_values(|l: NestedLoop| (l.header, l.blocks)) =~= sorted);
}

/// Outer before inner: no loop of the nest has fewer blocks than one that follows it.
pub proof fn law_larger_loops_come_first(f: FuncIr, i: int, j: int)
    requires
        0 <= i < j < loop_nest(f).len(),
    ensures
        loop_nest(f)[i].blocks.len() >= loop_nest(f)[j].blocks.len(),
{
    let sorted = by_falling_size(all_loops(f));
    lemma_by_falling_size(all_loops(f));
    lemma_nest_depths(sorted);
    assert(loop_nest(f)[i].blocks == sorted[i].1);
    assert(loop_nest(f)[j].blocks == sorted[j].1);
}

/// A parent stands before its child, has another header, covers all blocks of the
/// child and is one level shallower; between the two stands no loop that would
/// enclose the child. A loop without a parent is at depth 1, and nothing before it
/// encloses it.
pub proof fn law_parent_is_the_nearest_encloser(f: FuncIr, i: int)
    requires
        0 <= i < loop_nest(f).len(),
    ensures
        ({
            let n = loop_nest(f);
            match n[i].parent {
                Some(p) => {
                    &&& 0 <= p < i
                    &&& n[p].header != n[i].header
                    &&& covers(n[p].blocks, n[i].blocks)
                    &&& n[i].depth == n[p].depth + 1
                    &&& forall|q: int|
                        p < q < i ==> (#[trigger] n[q]).header == n[i].header || !covers(
                            n[q].blocks,
                            n[i].blocks,
                        )
                },
                None => {
                    &&& n[i].depth == 1
                    &&& forall|q: int|
                        0 <= q < i ==> (#[trigger] n[q]).header == n[i].header || !covers(
                            n[q].blocks,
                            n[i].blocks,
                        )
                },
            }
        }),
{
    lemma_nest_parents(by_falling_size(all_loops(f)), i);
}

/// The parent of one loop of a nest.
proof fn lemma_nest_parents(s: Seq<(BlockId, Seq<BlockId>)>, i: int)
    requires
        0 <= i < nest(s).len(),
    ensures
        ({
            let n = nest(s);
            match n[i].parent {
                Some(p) => {
                    &&& 0 <= p < i
                    &&& n[p].header != n[i].header
                    &&& covers(n[p].blocks, n[i].blocks)
                    &&& n[i].depth == n[p].depth + 1
                    &&& forall|q: int|
                        p < q < i ==> (#[trigger] n[q]).header == n[i].header || !covers(
                            n[q].blocks,
                            n[i].blocks,
                        )
                },
                None => {
                    &&& n[i].depth == 1
                    &&& forall|q: int|
                        0 <= q < i ==> (#[trigger] n[q]).header == n[i].header || !covers(
                            n[q].blocks,
                            n[i].blocks,
                        )
                },
            }
        }),
    decreases s.len(),
{
    lemma_nest_depths(s);
    let d = s.drop_last();
    lemma_nest_depths(d);
    let placed = nest(d);
    let n = nest(s);
    assert forall|q: int| 0 <= q < placed.len() implies #[trigger] n[q] == placed[q] by {}
    if i < d.len() {
        lemma_nest_parents(d, i);
        assert(n[i] == placed[i]);
        match n[i].parent {
            Some(p) => {
                assert(n[p] == placed[p]);
                assert forall|q: int| p < q < i implies (#[trigger] n[q]).header == n[i].header
                    || !covers(n[q].blocks, n[i].blocks) by {
                    assert(placed[q].header == placed[i].header || !covers(
                        placed[q].blocks,
                        placed[i].blocks,
                    ));
                }
            },
            None => {
                assert forall|q: int| 0 <= q < i implies (#[trigger] n[q]).header == n[i].header
                    || !covers(n[q].blocks, n[i].blocks) by {
                    assert(placed[q].header == placed[i].header || !covers(
                        placed[q].blocks,
                        placed[i].blocks,
                    ));
                }
            },
        }
    } else {
        lemma_enclosing(placed, s.last().0, s.last().1);
    }
}

} // verus!
