//! Parallel regions: which planned loops are taken out of their functions, and what
//! their dispatch needs to know.
//!
//! The plan approves loops; preparation checks each one against what can be taken
//! out, and leaves everything else to run sequentially. A region that contains
//! another one loses: the inner one keeps the parallelism.
use vstd::prelude::*;

use crate::body::{build_body_ir, BodyParts};
use crate::ctx::{
    array_slots, arrays_of, arrays_typed, blocks_read, calls_allowed, captures_of, captures_typed,
    find_arrays, find_captures, lay_out, lemma_captured, scalar_slots, CtxLayout, CTX_ARRAY_BASE,
    MAX_ARRAY_SLOTS,
};
use crate::ir::{BlockId, FuncIr, LocalId, ValueId};
use crate::loops::has_member;
use crate::outline::{
    accumulator_of, carries_nothing, carries_only_iv, find_accumulator, find_skeleton,
    skeleton_of, AccInfo, RKind, SkeletonV,
};
use crate::plan::{ParallelPlan, RegionDesc, RegionKind};

verus! {

/// Thread count that every dispatch asks for; the runtime lowers it where it must.
pub const NTHREADS_HINT: i64 = 8;

/// One region that was taken out of its function.
#[derive(Debug)]
pub struct PlannedRegion {
    /// Number of the region, unique among all regions.
    pub region_id: i64,
    pub func_idx: usize,
    pub header: BlockId,
    /// Where control goes on after the dispatch.
    pub exit: BlockId,
    pub body_fn_name: String,
    pub body: FuncIr,
    /// Array, data and length in the body.
    pub array_prebind: Vec<(LocalId, ValueId, ValueId)>,
    pub kind: RKind,
    pub layout: CtxLayout,
    /// The value that the loop starts from, or the constant.
    pub start_ssa: Option<u32>,
    pub start_const: Option<i64>,
    /// The value that the loop ends before, or the constant.
    pub end_ssa: Option<u32>,
    pub end_const: Option<i64>,
    /// The value that receives the result of a reduction.
    pub acc_dst: Option<u32>,
    /// Word of the context that holds the first value of the accumulator, its width
    /// and whether it is floating point.
    pub seed: Option<(usize, u64, bool)>,
    /// The blocks of the loop.
    pub covers: Vec<BlockId>,
}

/// What the dispatcher needs to know of a region.
#[derive(Clone, Copy, Debug)]
pub struct SpecMeta {
    /// Size of the context in bytes.
    pub len_bytes: i64,
    /// Width of the accumulator and whether it is floating point, for a reduction.
    pub acc: Option<(u64, bool)>,
    pub seed: Option<(usize, u64, bool)>,
}

/// What the function that holds a region needs to emit the dispatch.
#[derive(Debug)]
pub struct RtHook {
    pub header: BlockId,
    pub exit: BlockId,
    pub region_id: i64,
    pub kind: RKind,
    pub arrays: Vec<(LocalId, i64, i64)>,
    pub scalars: Vec<(u32, u64, bool, i64)>,
    pub start_ssa: Option<u32>,
    pub start_const: i64,
    pub end_ssa: Option<u32>,
    pub end_const: i64,
    pub acc_dst: Option<u32>,
}

/// The accumulator that the kind of a region asks for, if the loop has what it asks
/// for: none and nothing else carried, or one.
pub open spec fn accumulator_for(ir: FuncIr, sk: SkeletonV, kind: RegionKind) -> Option<
    Option<AccInfo>,
> {
    match kind {
        RegionKind::DoAll => if carries_nothing(ir, sk) {
            Some(None)
        } else {
            None
        },
        RegionKind::Reduction(op) => match accumulator_of(ir, sk, op) {
            Some(a) => Some(Some(a)),
            None => None,
        },
    }
}

/// The phi of the accumulator.
pub open spec fn acc_phi(acc: Option<AccInfo>) -> Option<ValueId> {
    match acc {
        Some(a) => Some(a.dst),
        None => None,
    }
}

/// What the body of a region is built from, if the loop can be taken out.
pub open spec fn region_parts(ir: FuncIr, header: BlockId, kind: RegionKind) -> Option<BodyParts> {
    match skeleton_of(ir, header) {
        Some(sk) => match accumulator_for(ir, sk, kind) {
            Some(acc) => match captures_of(ir, sk.blocks, sk.iv_dst, acc_phi(acc)) {
                Some(captures) => {
                    let arrays = arrays_of(ir, sk.blocks, sk.blocks.len());
                    let p = BodyParts {
                        ir,
                        sk,
                        acc,
                        arrays: array_slots(ir, arrays),
                        scalars: scalar_slots(ir, captures, arrays.len()),
                    };
                    if calls_allowed(ir, sk.blocks) && arrays.len() <= MAX_ARRAY_SLOTS
                        && arrays_typed(ir, arrays) && captures_typed(ir, captures)
                        && p.possible() {
                        Some(p)
                    } else {
                        None
                    }
                },
                None => None,
            },
            None => None,
        },
        None => None,
    }
}

/// The entry of the scalar.
pub open spec fn is_scalar(v: ValueId) -> spec_fn((u32, u64, bool, i64)) -> bool {
    |s: (u32, u64, bool, i64)| s.0 == v.0
}

/// Where the first value of the accumulator lies in the context.
pub open spec fn seed_of(scalars: Seq<(u32, u64, bool, i64)>, acc: Option<AccInfo>) -> Option<
    (usize, u64, bool),
> {
    match acc {
        Some(a) => match crate::search::first_where(scalars, is_scalar(a.entry)) {
            Some(k) => Some(
                ((scalars[k].3 / 8) as usize, scalars[k].1, scalars[k].2),
            ),
            None => None,
        },
        None => None,
    }
}

/// How the region is executed.
pub open spec fn kind_of(acc: Option<AccInfo>) -> RKind {
    match acc {
        Some(a) => RKind::Reduction(a.spec),
        None => RKind::DoAll,
    }
}

/// The value, unless it is constant.
pub open spec fn bound_ssa(ir: FuncIr, v: ValueId) -> Option<u32> {
    match ir.literal(v) {
        Some(_) => None,
        None => Some(v.0),
    }
}

/// The region is the one that the parts make.
pub open spec fn is_region(p: BodyParts, r: PlannedRegion) -> bool {
    &&& r.header == p.sk.header
    &&& r.exit == p.sk.exit
    &&& p.is_body(r.body)
    &&& r.array_prebind@ == p.prebind()
    &&& r.kind == kind_of(p.acc)
    &&& r.layout.arrays@ == p.arrays
    &&& r.layout.scalars@ == p.scalars
    &&& r.layout.packed()
    &&& r.start_ssa == bound_ssa(p.ir, p.sk.start)
    &&& r.start_const == p.ir.literal(p.sk.start)
    &&& r.end_ssa == bound_ssa(p.ir, p.sk.end)
    &&& r.end_const == p.ir.literal(p.sk.end)
    &&& r.acc_dst == (match p.acc {
        Some(a) => Some(a.dst.0),
        None => None,
    })
    &&& r.seed == seed_of(p.scalars, p.acc)
    &&& r.covers@ == p.sk.blocks
}

/// Where the first value of the accumulator lies in the context.
fn find_seed(layout: &CtxLayout, acc: &Option<AccInfo>) -> (r: Option<(usize, u64, bool)>)
    requires
        layout.packed(),
    ensures
        r == seed_of(layout.scalars@, *acc),
{
    match acc {
        Some(a) => {
            let ghost p = is_scalar(a.entry);
            let mut k: usize = 0;
            while k < layout.scalars.len()
                invariant
                    layout.packed(),
                    *acc == Some(*a),
                    p == is_scalar(a.entry),
                    k <= layout.scalars@.len(),
                    forall|j: int| 0 <= j < k ==> !p(#[trigger] layout.scalars@[j]),
                decreases layout.scalars@.len() - k,
            {
                let (sid, width, float, off) = layout.scalars[k];
                if sid == a.entry.0 {
                    proof {
                        crate::search::lemma_first_where_is(layout.scalars@, p, k as int);
                        assert(layout.scalars@[k as int].3 == CTX_ARRAY_BASE + 16
                            * layout.arrays@.len() + 8 * k);
                    }
                    let word: i64 = off / 8;
                    return Some((word as usize, width, float));
                }
                k = k + 1;
            }
            proof {
                crate::search::lemma_first_where_none(layout.scalars@, p);
            }
            None
        },
        None => None,
    }
}

/// The value and the constant of a bound.
fn bound_parts(ir: &FuncIr, v: ValueId) -> (r: (Option<u32>, Option<i64>))
    ensures
        r.0 == bound_ssa(*ir, v),
        r.1 == ir.literal(v),
{
    match ir.const_of(v) {
        Some(c) => (None, Some(c)),
        None => (Some(v.0), None),
    }
}

/// Takes the loop of a region out of its function; `None` where the loop has a shape
/// that cannot be taken out.
#[verifier::rlimit(40)]
pub fn extract(ir: &FuncIr, desc: &RegionDesc, region_id: i64) -> (r: Option<PlannedRegion>)
    requires
        ir.wf(),
        ir.blocks@.len() < u32::MAX,
        ir.has_block(desc.header),
    ensures
        r is Some <==> region_parts(*ir, desc.header, desc.kind) is Some,
        r matches Some(p) ==> {
            &&& is_region(region_parts(*ir, desc.header, desc.kind)->0, p)
            &&& p.region_id == region_id
            &&& p.func_idx == desc.func_idx
            &&& p.body_fn_name@ == desc.body_fn_name@
        },
{
    let sk = match find_skeleton(ir, desc.header) {
        Some(sk) => sk,
        None => {
            return None;
        },
    };
    let acc: Option<AccInfo> = match desc.kind {
        RegionKind::DoAll => {
            if !carries_only_iv(ir, &sk) {
                return None;
            }
            None
        },
        RegionKind::Reduction(op) => match find_accumulator(ir, &sk, op) {
            Some(a) => Some(a),
            None => {
                return None;
            },
        },
    };
    let phi: Option<ValueId> = match acc {
        Some(a) => Some(a.dst),
        None => None,
    };
    let captures = match find_captures(ir, &sk.blocks, sk.iv_dst, phi) {
        Some(c) => c,
        None => {
            return None;
        },
    };
    proof {
        let uses = blocks_read(*ir, sk.blocks@, sk.blocks@.len());
        lemma_captured(*ir, sk.blocks@, sk.iv_dst, phi, uses, uses.len());
    }
    let arrays = match find_arrays(ir, &sk.blocks) {
        Some(a) => a,
        None => {
            return None;
        },
    };
    let layout = match lay_out(ir, &arrays, &captures) {
        Some(l) => l,
        None => {
            return None;
        },
    };
    let (body, array_prebind): (FuncIr, Vec<(LocalId, ValueId, ValueId)>) = match build_body_ir(
        ir,
        &sk,
        &acc,
        &layout,
    ) {
        Some(b) => b,
        None => {
            return None;
        },
    };
    let (start_ssa, start_const): (Option<u32>, Option<i64>) = bound_parts(ir, sk.start);
    let (end_ssa, end_const): (Option<u32>, Option<i64>) = bound_parts(ir, sk.end);
    let seed = find_seed(&layout, &acc);
    Some(
        PlannedRegion {
            region_id,
            func_idx: desc.func_idx,
            header: desc.header,
            exit: sk.exit,
            body_fn_name: desc.body_fn_name.clone(),
            body,
            array_prebind,
            kind: match acc {
                Some(a) => RKind::Reduction(a.spec),
                None => RKind::DoAll,
            },
            layout,
            start_ssa,
            start_const,
            end_ssa,
            end_const,
            acc_dst: match acc {
                Some(a) => Some(a.dst.0),
                None => None,
            },
            seed,
            covers: sk.blocks,
        },
    )
}

impl PlannedRegion {
    /// What the dispatcher needs to know of the region.
    pub fn spec_meta(&self) -> (r: SpecMeta)
        requires
            self.layout.packed(),
        ensures
            r.len_bytes == CTX_ARRAY_BASE + 16 * self.layout.arrays@.len() + 8
                * self.layout.scalars@.len(),
            r.acc == (match self.kind {
                RKind::DoAll => None,
                RKind::Reduction(s) => Some((s.width, s.float)),
            }),
            r.seed == self.seed,
    {
        SpecMeta {
            len_bytes: self.layout.len_bytes(),
            acc: match self.kind {
                RKind::DoAll => None,
                RKind::Reduction(s) => Some((s.width, s.float)),
            },
            seed: self.seed,
        }
    }
}

/// What the function that holds a region needs to emit the dispatch, as mathematical
/// values.
#[verifier::ext_equal]
pub struct HookV {
    pub header: BlockId,
    pub exit: BlockId,
    pub region_id: i64,
    pub kind: RKind,
    pub arrays: Seq<(LocalId, i64, i64)>,
    pub scalars: Seq<(u32, u64, bool, i64)>,
    pub start_ssa: Option<u32>,
    pub start_const: i64,
    pub end_ssa: Option<u32>,
    pub end_const: i64,
    pub acc_dst: Option<u32>,
}

impl View for RtHook {
    type V = HookV;

    open spec fn view(&self) -> HookV {
        HookV {
            header: self.header,
            exit: self.exit,
            region_id: self.region_id,
            kind: self.kind,
            arrays: self.arrays@,
            scalars: self.scalars@,
            start_ssa: self.start_ssa,
            start_const: self.start_const,
            end_ssa: self.end_ssa,
            end_const: self.end_const,
            acc_dst: self.acc_dst,
        }
    }
}

/// The constant of a bound; 0 for a bound that is a value.
pub open spec fn const_or_zero(c: Option<i64>) -> i64 {
    match c {
        Some(c) => c,
        None => 0,
    }
}

/// The hook of a region.
pub open spec fn hook_of(r: PlannedRegion) -> HookV {
    HookV {
        header: r.header,
        exit: r.exit,
        region_id: r.region_id,
        kind: r.kind,
        arrays: r.layout.arrays@,
        scalars: r.layout.scalars@,
        start_ssa: r.start_ssa,
        start_const: const_or_zero(r.start_const),
        end_ssa: r.end_ssa,
        end_const: const_or_zero(r.end_const),
        acc_dst: r.acc_dst,
    }
}

impl RtHook {
    /// What the function that holds the region needs to emit the dispatch. A bound
    /// that is a value has the constant 0.
    pub fn of(r: &PlannedRegion) -> (h: RtHook)
        ensures
            h@ == hook_of(*r),
    {
        let mut arrays: Vec<(LocalId, i64, i64)> = Vec::new();
        let mut k: usize = 0;
        while k < r.layout.arrays.len()
            invariant
                k <= r.layout.arrays@.len(),
                arrays@ == r.layout.arrays@.take(k as int),
            decreases r.layout.arrays@.len() - k,
        {
            arrays.push(r.layout.arrays[k]);
            proof {
                assert(arrays@ =~= r.layout.arrays@.take(k + 1));
            }
            k = k + 1;
        }
        let mut scalars: Vec<(u32, u64, bool, i64)> = Vec::new();
        let mut j: usize = 0;
        while j < r.layout.scalars.len()
            invariant
                j <= r.layout.scalars@.len(),
                scalars@ == r.layout.scalars@.take(j as int),
            decreases r.layout.scalars@.len() - j,
        {
            scalars.push(r.layout.scalars[j]);
            proof {
                assert(scalars@ =~= r.layout.scalars@.take(j + 1));
            }
            j = j + 1;
        }
        proof {
            assert(r.layout.arrays@.take(k as int) =~= r.layout.arrays@);
            assert(r.layout.scalars@.take(j as int) =~= r.layout.scalars@);
        }
        RtHook {
            header: r.header,
            exit: r.exit,
            region_id: r.region_id,
            kind: r.kind,
            arrays,
            scalars,
            start_ssa: r.start_ssa,
            start_const: match r.start_const {
                Some(c) => c,
                None => 0,
            },
            end_ssa: r.end_ssa,
            end_const: match r.end_const {
                Some(c) => c,
                None => 0,
            },
            acc_dst: r.acc_dst,
        }
    }
}

/// Mints the numbers of regions, one after another.
#[derive(Debug)]
pub struct RegionIds {
    pub next: i64,
}

impl RegionIds {
    /// The first region has number 1.
    pub fn new() -> (r: Self)
        ensures
            r.next == 1,
    {
        RegionIds { next: 1 }
    }

    /// A number that was not minted before, until all have been.
    pub fn next_region_id(&mut self) -> (r: i64)
        ensures
            r == old(self).next,
            final(self).next == id_after(old(self).next),
    {
        let id: i64 = self.next;
        self.next = id.wrapping_add(1);
        id
    }
}

/// The number behind `id`.
pub open spec fn id_after(id: i64) -> i64 {
    id.wrapping_add(1)
}

/// A planned region that can be taken out: its position in the plan and its number.
pub struct Candidate {
    pub desc: int,
    pub id: i64,
}

/// What a region of the plan is built from, if its loop can be taken out.
pub open spec fn parts_of(program: Seq<FuncIr>, d: RegionDesc) -> Option<BodyParts> {
    region_parts(program[d.func_idx as int], d.header, d.kind)
}

/// The candidates among the first `k` regions of the plan, and the next number. Every
/// region whose function exists uses up a number.
pub open spec fn candidates(
    descs: Seq<RegionDesc>,
    program: Seq<FuncIr>,
    first: i64,
    k: nat,
) -> (Seq<Candidate>, i64)
    decreases k,
{
    if k == 0 {
        (seq![], first)
    } else {
        let (before, id) = candidates(descs, program, first, (k - 1) as nat);
        let d = descs[k - 1];
        if d.func_idx >= program.len() {
            (before, id)
        } else if parts_of(program, d) is Some {
            (before.push(Candidate { desc: k - 1, id }), id_after(id))
        } else {
            (before, id_after(id))
        }
    }
}

/// Region `outer` spans the header of region `inner`.
pub open spec fn spans(program: Seq<FuncIr>, outer: RegionDesc, inner: RegionDesc) -> bool {
    outer.func_idx == inner.func_idx && parts_of(program, outer)->0.sk.blocks.contains(inner.header)
}

/// Another candidate lies inside candidate `i`.
pub open spec fn contains_other(
    descs: Seq<RegionDesc>,
    program: Seq<FuncIr>,
    cands: Seq<Candidate>,
    i: int,
) -> bool {
    exists|j: int|
        0 <= j < cands.len() && j != i && spans(
            program,
            descs[cands[i].desc],
            descs[(#[trigger] cands[j]).desc],
        )
}

/// The candidates among the first `k` that contain no other one.
pub open spec fn survivors(
    descs: Seq<RegionDesc>,
    program: Seq<FuncIr>,
    cands: Seq<Candidate>,
    k: nat,
) -> Seq<Candidate>
    decreases k,
{
    if k == 0 {
        seq![]
    } else {
        let before = survivors(descs, program, cands, (k - 1) as nat);
        if contains_other(descs, program, cands, k - 1) {
            before
        } else {
            before.push(cands[k - 1])
        }
    }
}

/// The regions of a plan that are taken out.
pub open spec fn prepared(descs: Seq<RegionDesc>, program: Seq<FuncIr>, first: i64) -> Seq<
    Candidate,
> {
    let cands = candidates(descs, program, first, descs.len()).0;
    survivors(descs, program, cands, cands.len())
}

/// `r` is the region of the candidate.
#[verifier::opaque]
pub open spec fn is_planned(
    descs: Seq<RegionDesc>,
    program: Seq<FuncIr>,
    c: Candidate,
    r: PlannedRegion,
) -> bool {
    let d = descs[c.desc];
    &&& parts_of(program, d) is Some
    &&& is_region(parts_of(program, d)->0, r)
    &&& r.region_id == c.id
    &&& r.func_idx == d.func_idx
    &&& r.body_fn_name@ == d.body_fn_name@
}

/// The functions that a plan speaks of can be read, and its headers are blocks.
pub open spec fn plan_fits(descs: Seq<RegionDesc>, program: Seq<FuncIr>) -> bool {
    forall|k: int|
        0 <= k < descs.len() && (#[trigger] descs[k]).func_idx < program.len() ==> {
            let f = program[descs[k].func_idx as int];
            f.wf() && f.blocks@.len() < u32::MAX && f.has_block(descs[k].header)
        }
}

/// A candidate is a region of the plan whose function exists.
pub open spec fn is_candidate(descs: Seq<RegionDesc>, program: Seq<FuncIr>, c: Candidate) -> bool {
    0 <= c.desc < descs.len() && descs[c.desc].func_idx < program.len()
}

/// Candidates are regions of the plan.
proof fn lemma_candidates(descs: Seq<RegionDesc>, program: Seq<FuncIr>, first: i64, k: nat)
    requires
        k <= descs.len(),
    ensures
        forall|i: int|
            0 <= i < candidates(descs, program, first, k).0.len() ==> is_candidate(
                descs,
                program,
                #[trigger] candidates(descs, program, first, k).0[i],
            ),
    decreases k,
{
    if k > 0 {
        lemma_candidates(descs, program, first, (k - 1) as nat);
        let before = candidates(descs, program, first, (k - 1) as nat).0;
        let now = candidates(descs, program, first, k).0;
        assert forall|i: int| 0 <= i < now.len() implies is_candidate(
            descs,
            program,
            #[trigger] now[i],
        ) by {
            if i < before.len() {
                assert(now[i] == before[i]);
            }
        }
    }
}

/// Survivors are candidates.
proof fn lemma_survivors_stay(
    descs: Seq<RegionDesc>,
    program: Seq<FuncIr>,
    cands: Seq<Candidate>,
    k: nat,
)
    requires
        k <= cands.len(),
        forall|i: int| 0 <= i < cands.len() ==> is_candidate(descs, program, #[trigger] cands[i]),
    ensures
        forall|i: int|
            0 <= i < survivors(descs, program, cands, k).len() ==> is_candidate(
                descs,
                program,
                #[trigger] survivors(descs, program, cands, k)[i],
            ),
    decreases k,
{
    if k > 0 {
        lemma_survivors_stay(descs, program, cands, (k - 1) as nat);
        let before = survivors(descs, program, cands, (k - 1) as nat);
        let now = survivors(descs, program, cands, k);
        assert forall|i: int| 0 <= i < now.len() implies is_candidate(
            descs,
            program,
            #[trigger] now[i],
        ) by {
            if i < before.len() {
                assert(now[i] == before[i]);
            } else {
                assert(now[i] == cands[k - 1]);
            }
        }
    }
}

/// What is taken out are regions of the plan whose functions exist.
pub proof fn lemma_prepared(descs: Seq<RegionDesc>, program: Seq<FuncIr>, first: i64)
    ensures
        forall|i: int|
            0 <= i < prepared(descs, program, first).len() ==> is_candidate(
                descs,
                program,
                #[trigger] prepared(descs, program, first)[i],
            ),
{
    let cands = candidates(descs, program, first, descs.len()).0;
    lemma_candidates(descs, program, first, descs.len());
    lemma_survivors_stay(descs, program, cands, cands.len());
}

/// What nesting depends on.
proof fn lemma_planned(
    descs: Seq<RegionDesc>,
    program: Seq<FuncIr>,
    c: Candidate,
    r: PlannedRegion,
)
    requires
        is_planned(descs, program, c, r),
    ensures
        parts_of(program, descs[c.desc]) is Some,
        r.func_idx == descs[c.desc].func_idx,
        r.header == descs[c.desc].header,
        r.covers@ == parts_of(program, descs[c.desc])->0.sk.blocks,
{
    reveal(is_planned);
}

/// Whether another region lies inside region `i`.
fn spans_other(
    regions: &Vec<PlannedRegion>,
    i: usize,
    Ghost(descs): Ghost<Seq<RegionDesc>>,
    Ghost(program): Ghost<Seq<FuncIr>>,
    Ghost(cands): Ghost<Seq<Candidate>>,
) -> (r: bool)
    requires
        i < regions@.len(),
        regions@.len() == cands.len(),
        forall|k: int|
            0 <= k < cands.len() ==> is_planned(descs, program, #[trigger] cands[k], regions@[k]),
    ensures
        r == contains_other(descs, program, cands, i as int),
{
    let mut j: usize = 0;
    while j < regions.len()
        invariant
            i < regions@.len(),
            regions@.len() == cands.len(),
            forall|k: int|
                0 <= k < cands.len() ==> is_planned(
                    descs,
                    program,
                    #[trigger] cands[k],
                    regions@[k],
                ),
            j <= regions@.len(),
            forall|k: int|
                0 <= k < j && k != i ==> !spans(
                    program,
                    descs[cands[i as int].desc],
                    descs[(#[trigger] cands[k]).desc],
                ),
        decreases regions@.len() - j,
    {
        proof {
            lemma_planned(descs, program, cands[i as int], regions@[i as int]);
            lemma_planned(descs, program, cands[j as int], regions@[j as int]);
        }
        if i != j && regions[j].func_idx == regions[i].func_idx && has_member(
            &regions[i].covers,
            regions[j].header,
        ) {
            assert(spans(program, descs[cands[i as int].desc], descs[cands[j as int].desc]));
            return true;
        }
        j = j + 1;
    }
    false
}

/// Prepares a plan: takes out every region whose loop can be, and of those keeps the
/// ones that contain no other.
#[verifier::rlimit(40)]
pub fn prepare(plan: &ParallelPlan, program: &Vec<FuncIr>, ids: &mut RegionIds) -> (r: Vec<
    PlannedRegion,
>)
    requires
        plan_fits(plan.regions@, program@),
    ensures
        r@.len() == prepared(plan.regions@, program@, old(ids).next).len(),
        forall|i: int|
            0 <= i < r@.len() ==> is_planned(
                plan.regions@,
                program@,
                prepared(plan.regions@, program@, old(ids).next)[i],
                #[trigger] r@[i],
            ),
        final(ids).next == candidates(
            plan.regions@,
            program@,
            old(ids).next,
            plan.regions@.len(),
        ).1,
{
    let ghost descs = plan.regions@;
    let ghost first = ids.next;
    let mut found: Vec<PlannedRegion> = Vec::new();
    let mut k: usize = 0;
    while k < plan.regions.len()
        invariant
            plan_fits(descs, program@),
            descs == plan.regions@,
            k <= descs.len(),
            ids.next == candidates(descs, program@, first, k as nat).1,
            found@.len() == candidates(descs, program@, first, k as nat).0.len(),
            forall|i: int|
                0 <= i < found@.len() ==> is_planned(
                    descs,
                    program@,
                    candidates(descs, program@, first, k as nat).0[i],
                    #[trigger] found@[i],
                ),
        decreases descs.len() - k,
    {
        let ghost before = candidates(descs, program@, first, k as nat).0;
        let ghost now = candidates(descs, program@, first, (k + 1) as nat).0;
        let d = &plan.regions[k];
        if d.func_idx < program.len() {
            assert(descs[k as int].func_idx < program@.len());
            let id: i64 = ids.next_region_id();
            let got = extract(&program[d.func_idx], d, id);
            if let Some(p) = got {
                proof {
                    assert(now == before.push(Candidate { desc: k as int, id }));
                    assert(is_planned(descs, program@, now[before.len() as int], p)) by {
                        reveal(is_planned);
                    }
                }
                found.push(p);
            }
        }
        proof {
            assert forall|i: int| 0 <= i < found@.len() implies is_planned(
                descs,
                program@,
                now[i],
                #[trigger] found@[i],
            ) by {
                if i < before.len() {
                    assert(now[i] == before[i]);
                }
            }
        }
        k = k + 1;
    }
    let ghost cands = candidates(descs, program@, first, descs.len()).0;
    let mut lost: Vec<bool> = Vec::new();
    let mut i: usize = 0;
    while i < found.len()
        invariant
            found@.len() == cands.len(),
            forall|k: int|
                0 <= k < cands.len() ==> is_planned(
                    descs,
                    program@,
                    #[trigger] cands[k],
                    found@[k],
                ),
            i <= found@.len(),
            lost@.len() == i,
            forall|j: int|
                0 <= j < i ==> #[trigger] lost@[j] == contains_other(descs, program@, cands, j),
        decreases found@.len() - i,
    {
        let inside = spans_other(&found, i, Ghost(descs), Ghost(program@), Ghost(cands));
        lost.push(inside);
        i = i + 1;
    }
    let mut out: Vec<PlannedRegion> = Vec::new();
    let ghost all = found@;
    let ghost mut done: nat = 0;
    while found.len() > 0
        invariant
            done <= all.len(),
            all.len() == cands.len(),
            lost@.len() == all.len(),
            found@ == all.skip(done as int),
            forall|k: int|
                0 <= k < cands.len() ==> is_planned(descs, program@, #[trigger] cands[k], all[k]),
            forall|j: int|
                0 <= j < all.len() ==> #[trigger] lost@[j] == contains_other(
                    descs,
                    program@,
                    cands,
                    j,
                ),
            out@.len() == survivors(descs, program@, cands, done).len(),
            forall|i: int|
                0 <= i < out@.len() ==> is_planned(
                    descs,
                    program@,
                    survivors(descs, program@, cands, done)[i],
                    #[trigger] out@[i],
                ),
        decreases found@.len(),
    {
        let at: usize = lost.len() - found.len();
        assert(at == done);
        assert(found@[0] == all[done as int]);
        let r = found.remove(0);
        let ghost before = survivors(descs, program@, cands, done);
        let ghost now = survivors(descs, program@, cands, (done + 1) as nat);
        if !lost[at] {
            assert(is_planned(descs, program@, cands[done as int], r));
            out.push(r);
        }
        proof {
            assert(found@ =~= all.skip(done as int + 1));
            assert forall|i: int| 0 <= i < out@.len() implies is_planned(
                descs,
                program@,
                now[i],
                #[trigger] out@[i],
            ) by {
                if i < before.len() {
                    assert(now[i] == before[i]);
                }
            }
            done = (done + 1) as nat;
        }
    }
    out
}

/// No two regions that are taken out are nested: the blocks of one never hold the
/// header of another one of the same function.
pub proof fn law_regions_are_not_nested(
    descs: Seq<RegionDesc>,
    program: Seq<FuncIr>,
    first: i64,
    i: int,
    j: int,
)
    requires
        0 <= i < prepared(descs, program, first).len(),
        0 <= j < prepared(descs, program, first).len(),
        i != j,
    ensures
        !spans(
            program,
            descs[prepared(descs, program, first)[i].desc],
            descs[prepared(descs, program, first)[j].desc],
        ),
{
    let cands = candidates(descs, program, first, descs.len()).0;
    let s = survivors(descs, program, cands, cands.len());
    lemma_survivor_places(descs, program, cands, cands.len(), i, j);
    let (a, b) = choose|a: int, b: int|
        0 <= a < cands.len() && 0 <= b < cands.len() && a != b && #[trigger] cands[a] == s[i]
            && #[trigger] cands[b] == s[j] && !contains_other(descs, program, cands, a);
    assert(cands[b] == s[j]);
}

/// Survivors are candidates that contain no other one.
proof fn lemma_survivors(
    descs: Seq<RegionDesc>,
    program: Seq<FuncIr>,
    cands: Seq<Candidate>,
    k: nat,
)
    requires
        k <= cands.len(),
    ensures
        forall|i: int|
            0 <= i < survivors(descs, program, cands, k).len() ==> exists|p: int|
                0 <= p < k && #[trigger] cands[p] == #[trigger] survivors(
                    descs,
                    program,
                    cands,
                    k,
                )[i] && !contains_other(descs, program, cands, p),
    decreases k,
{
    if k > 0 {
        let before = survivors(descs, program, cands, (k - 1) as nat);
        let now = survivors(descs, program, cands, k);
        lemma_survivors(descs, program, cands, (k - 1) as nat);
        assert forall|i: int| 0 <= i < now.len() implies exists|p: int|
            0 <= p < k && #[trigger] cands[p] == #[trigger] now[i] && !contains_other(
                descs,
                program,
                cands,
                p,
            ) by {
            if i < before.len() {
                assert(now[i] == before[i]);
                let p = choose|p: int|
                    0 <= p < k - 1 && #[trigger] cands[p] == before[i] && !contains_other(
                        descs,
                        program,
                        cands,
                        p,
                    );
                assert(cands[p] == now[i]);
            } else {
                assert(cands[k - 1] == now[i]);
            }
        }
    }
}

/// Two different survivors stand for two different candidates.
proof fn lemma_survivor_places(
    descs: Seq<RegionDesc>,
    program: Seq<FuncIr>,
    cands: Seq<Candidate>,
    k: nat,
    i: int,
    j: int,
)
    requires
        k <= cands.len(),
        0 <= i < survivors(descs, program, cands, k).len(),
        0 <= j < survivors(descs, program, cands, k).len(),
        i != j,
    ensures
        exists|a: int, b: int|
            0 <= a < k && 0 <= b < k && a != b && #[trigger] cands[a] == survivors(
                descs,
                program,
                cands,
                k,
            )[i] && #[trigger] cands[b] == survivors(descs, program, cands, k)[j]
                && !contains_other(descs, program, cands, a),
    decreases k,
{
    let before = survivors(descs, program, cands, (k - 1) as nat);
    let now = survivors(descs, program, cands, k);
    lemma_survivors(descs, program, cands, (k - 1) as nat);
    if i < before.len() && j < before.len() {
        lemma_survivor_places(descs, program, cands, (k - 1) as nat, i, j);
        let (a, b) = choose|a: int, b: int|
            0 <= a < k - 1 && 0 <= b < k - 1 && a != b && #[trigger] cands[a] == before[i]
                && #[trigger] cands[b] == before[j] && !contains_other(descs, program, cands, a);
        assert(cands[a] == now[i] && cands[b] == now[j]);
    } else if i < before.len() {
        let a = choose|a: int|
            0 <= a < k - 1 && #[trigger] cands[a] == before[i] && !contains_other(
                descs,
                program,
                cands,
                a,
            );
        assert(cands[a] == now[i] && cands[k - 1] == now[j]);
    } else {
        let b = choose|b: int|
            0 <= b < k - 1 && #[trigger] cands[b] == before[j] && !contains_other(
                descs,
                program,
                cands,
                b,
            );
        assert(cands[k - 1] == now[i] && cands[b] == now[j]);
    }
}

} // verus!
