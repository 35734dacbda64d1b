//! What a campaign measures, and what has to hold before it measures anything.
//!
//! Running and timing programs is done outside. What is decided here: which kernels are
//! measured in which ways and on how many threads, whether the analysis reached the
//! verdict that a kernel is there for, and whether a run printed what it has to print. A
//! campaign that finds something wrong stops; wrong numbers are worse than none.
use vstd::prelude::*;

use crate::ir::BlockId;
use crate::kernels::{
    catalogue, kernel_views, registry, ExpectedVerdict, KernelDef, KernelV, RunOutputLike,
    Tolerance,
};
use crate::loops::{Loop, LoopInfo};
use crate::pipeline::Analysis;
use crate::plan::{reports_on, Judgement, LoopReport, RegionDesc, Verdict};
use crate::search::first_where;
use crate::text::{
    integer_text, join, joined, natural_text, push_integer, push_natural, push_text, texts,
};
use crate::triad::DEFAULT_TRIAD_N;

verus! {

/// What a campaign does.
#[derive(Debug)]
pub struct BenchConfig {
    /// The numbers of threads that are tried.
    pub thread_sweep: Vec<usize>,
    /// The greatest number of threads.
    pub max_threads: usize,
    /// The bandwidth of the memory is not measured.
    pub skip_triad: bool,
    /// The elements that are moved to measure it.
    pub triad_n: usize,
    /// The kernels that are measured; none stands for all.
    pub only_kernels: Vec<String>,
}

impl Default for BenchConfig {
    fn default() -> (r: Self)
        ensures
            r.thread_sweep@ == seq![1usize, 2, 4, 8, 16, 24, 32],
            r.max_threads == 32,
            !r.skip_triad,
            r.triad_n == DEFAULT_TRIAD_N,
            r.only_kernels@.len() == 0,
    {
        let sweep: Vec<usize> = vec![1, 2, 4, 8, 16, 24, 32];
        assert(sweep@ =~= seq![1usize, 2, 4, 8, 16, 24, 32]);
        BenchConfig {
            thread_sweep: sweep,
            max_threads: 32,
            skip_triad: false,
            triad_n: DEFAULT_TRIAD_N,
            only_kernels: Vec::new(),
        }
    }
}

// ---------------------------------------------------------------------------
// Which kernels
// ---------------------------------------------------------------------------

/// The kernel is measured.
pub open spec fn selected(only: Seq<Seq<char>>, k: KernelV) -> bool {
    !k.correctness_only && (only.len() == 0 || only.contains(k.name))
}

/// The kernels that are measured.
pub open spec fn selection(only: Seq<Seq<char>>, all: Seq<KernelV>) -> Seq<KernelV>
    decreases all.len(),
{
    if all.len() == 0 {
        seq![]
    } else {
        let before = selection(only, all.drop_last());
        if selected(only, all.last()) {
            before.push(all.last())
        } else {
            before
        }
    }
}

/// Whether a text is in a list.
fn lists(v: &Vec<String>, s: &String) -> (r: bool)
    ensures
        r == texts(v@).contains(s@),
{
    let mut k: usize = 0;
    while k < v.len()
        invariant
            k <= v@.len(),
            forall|j: int| 0 <= j < k ==> #[trigger] texts(v@)[j] != s@,
        decreases v@.len() - k,
    {
        if v[k] == *s {
            assert(texts(v@)[k as int] == s@);
            return true;
        }
        k = k + 1;
    }
    false
}

/// Whether a kernel is measured.
pub fn is_selected(config: &BenchConfig, k: &KernelDef) -> (r: bool)
    ensures
        r == selected(texts(config.only_kernels@), k@),
{
    !k.correctness_only && (config.only_kernels.len() == 0 || lists(&config.only_kernels, &k.name))
}

/// The kernels that are measured, in order.
pub fn campaign_kernels(config: &BenchConfig) -> (r: Vec<KernelDef>)
    ensures
        kernel_views(r@) == selection(texts(config.only_kernels@), catalogue()),
{
    let ghost only = texts(config.only_kernels@);
    let mut all = registry();
    let ghost views = catalogue();
    let mut out: Vec<KernelDef> = Vec::new();
    let ghost mut done: int = 0;
    assert(views.skip(0) =~= views);
    assert(views.take(0) =~= seq![]);
    assert(kernel_views(out@) =~= seq![]);
    while all.len() > 0
        invariant
            0 <= done <= views.len(),
            only == texts(config.only_kernels@),
            kernel_views(all@) == views.skip(done),
            kernel_views(out@) == selection(only, views.take(done)),
        decreases all@.len(),
    {
        let ghost before = all@;
        let k = all.remove(0);
        proof {
            assert(before.len() == kernel_views(before).len());
            assert(kernel_views(before)[0] == k@);
            assert(k@ == views[done]);
            let now = views.take(done + 1);
            assert(now.drop_last() =~= views.take(done));
            assert(now.last() == k@);
            assert forall|j: int| 0 <= j < all@.len() implies kernel_views(all@)[j]
                == views.skip(done + 1)[j] by {
                assert(all@[j] == before[j + 1]);
                assert(kernel_views(before)[j + 1] == before[j + 1]@);
            }
            assert(kernel_views(all@) =~= views.skip(done + 1));
        }
        if is_selected(config, &k) {
            let ghost o = out@;
            out.push(k);
            proof {
                assert(kernel_views(out@) =~= kernel_views(o).push(k@));
            }
        }
        proof {
            done = done + 1;
        }
    }
    proof {
        assert(kernel_views(all@).len() == 0);
        assert(views.take(done) =~= views);
    }
    out
}

// ---------------------------------------------------------------------------
// On how many threads
// ---------------------------------------------------------------------------

/// The number of threads is worth a measurement on a machine that runs `hw` of them.
pub open spec fn wide(hw: usize) -> spec_fn(usize) -> bool {
    |p: usize| p > 1 && p >= hw / 2
}

/// The number of threads of the parallel measurement: the first of the sweep that keeps at
/// least half of the machine busy.
pub open spec fn middle(sweep: Seq<usize>, max_threads: usize, hw: usize) -> usize {
    match first_where(sweep, wide(hw)) {
        Some(i) => sweep[i],
        None => {
            let m = if hw <= max_threads {
                hw
            } else {
                max_threads
            };
            if m >= 2 {
                m
            } else {
                2
            }
        },
    }
}

/// The greatest number of threads that the machine allows.
pub open spec fn limit(max_threads: usize, hw: usize) -> usize {
    let h = if hw >= 1 {
        hw
    } else {
        1
    };
    if max_threads <= h {
        max_threads
    } else {
        h
    }
}

/// The number of threads of the parallel measurement.
pub fn middle_threads(config: &BenchConfig, hw: usize) -> (r: usize)
    ensures
        r == middle(config.thread_sweep@, config.max_threads, hw),
{
    let ghost p = wide(hw);
    let mut i: usize = 0;
    while i < config.thread_sweep.len()
        invariant
            i <= config.thread_sweep@.len(),
            p == wide(hw),
            forall|j: int| 0 <= j < i ==> !p(#[trigger] config.thread_sweep@[j]),
        decreases config.thread_sweep@.len() - i,
    {
        let x: usize = config.thread_sweep[i];
        if x > 1 && x >= hw / 2 {
            proof {
                crate::search::lemma_first_where_is(config.thread_sweep@, p, i as int);
            }
            return x;
        }
        i = i + 1;
    }
    proof {
        crate::search::lemma_first_where_none(config.thread_sweep@, p);
    }
    let m: usize = if hw <= config.max_threads {
        hw
    } else {
        config.max_threads
    };
    if m >= 2 {
        m
    } else {
        2
    }
}

/// The greatest number of threads that the machine allows.
pub fn thread_limit(config: &BenchConfig, hw: usize) -> (r: usize)
    ensures
        r == limit(config.max_threads, hw),
{
    let h: usize = if hw >= 1 {
        hw
    } else {
        1
    };
    if config.max_threads <= h {
        config.max_threads
    } else {
        h
    }
}

/// The first `k` numbers of the sweep that the machine allows.
pub open spec fn allowed(sweep: Seq<usize>, cap: usize, k: nat) -> Seq<usize>
    decreases k,
{
    if k == 0 {
        seq![]
    } else {
        let before = allowed(sweep, cap, (k - 1) as nat);
        if 1 <= sweep[k - 1] <= cap {
            before.push(sweep[k - 1])
        } else {
            before
        }
    }
}

/// The numbers of threads of the table of efficiencies; it has to start with one thread.
pub open spec fn sweep_of(sweep: Seq<usize>, cap: usize) -> Seq<usize> {
    let ps = allowed(sweep, cap, sweep.len());
    if ps.len() > 0 && ps[0] == 1 {
        ps
    } else {
        seq![]
    }
}

/// The numbers of threads of the table of efficiencies.
pub fn sweep_points(config: &BenchConfig, hw: usize) -> (r: Vec<usize>)
    ensures
        r@ == sweep_of(config.thread_sweep@, limit(config.max_threads, hw)),
{
    let cap: usize = thread_limit(config, hw);
    let mut out: Vec<usize> = Vec::new();
    let mut k: usize = 0;
    while k < config.thread_sweep.len()
        invariant
            k <= config.thread_sweep@.len(),
            out@ == allowed(config.thread_sweep@, cap, k as nat),
        decreases config.thread_sweep@.len() - k,
    {
        let p: usize = config.thread_sweep[k];
        if p >= 1 && p <= cap {
            out.push(p);
        }
        k = k + 1;
    }
    if out.len() > 0 && out[0] == 1 {
        out
    } else {
        Vec::new()
    }
}

/// The first `k` numbers of the sweep that the machine allows, each once, behind others.
pub open spec fn pinned(start: Seq<usize>, sweep: Seq<usize>, cap: usize, k: nat) -> Seq<usize>
    decreases k,
{
    if k == 0 {
        start
    } else {
        let before = pinned(start, sweep, cap, (k - 1) as nat);
        if 1 <= sweep[k - 1] <= cap && !before.contains(sweep[k - 1]) {
            before.push(sweep[k - 1])
        } else {
            before
        }
    }
}

/// The numbers of threads on which a kernel is checked.
pub open spec fn pins_of(sweep: Seq<usize>, max_threads: usize, hw: usize) -> Seq<usize> {
    let start = if sweep.len() > 1 {
        seq![middle(sweep, max_threads, hw)]
    } else {
        seq![]
    };
    pinned(start, sweep, limit(max_threads, hw), sweep.len())
}

/// Whether a number is in a list.
fn holds(v: &Vec<usize>, x: usize) -> (r: bool)
    ensures
        r == v@.contains(x),
{
    let mut k: usize = 0;
    while k < v.len()
        invariant
            k <= v@.len(),
            forall|j: int| 0 <= j < k ==> v@[j] != x,
        decreases v@.len() - k,
    {
        if v[k] == x {
            return true;
        }
        k = k + 1;
    }
    false
}

/// The numbers of threads on which a kernel is checked.
pub fn parity_pins(config: &BenchConfig, hw: usize) -> (r: Vec<usize>)
    ensures
        r@ == pins_of(config.thread_sweep@, config.max_threads, hw),
{
    let cap: usize = thread_limit(config, hw);
    let mut out: Vec<usize> = Vec::new();
    if config.thread_sweep.len() > 1 {
        out.push(middle_threads(config, hw));
    }
    let ghost start = out@;
    proof {
        assert(start =~= if config.thread_sweep@.len() > 1 {
            seq![middle(config.thread_sweep@, config.max_threads, hw)]
        } else {
            seq![]
        });
    }
    let mut k: usize = 0;
    while k < config.thread_sweep.len()
        invariant
            k <= config.thread_sweep@.len(),
            out@ == pinned(start, config.thread_sweep@, cap, k as nat),
        decreases config.thread_sweep@.len() - k,
    {
        let p: usize = config.thread_sweep[k];
        if p >= 1 && p <= cap && !holds(&out, p) {
            out.push(p);
        }
        k = k + 1;
    }
    out
}

// ---------------------------------------------------------------------------
// In which ways
// ---------------------------------------------------------------------------

/// A way of running a kernel.
#[derive(Clone, Copy, Debug, PartialEq, Eq, Structural)]
pub enum Shape {
    Interp,
    NativeSeq,
    /// On at most this many threads.
    NativePar(usize),
}

impl Shape {
    /// The name under which its times are reported.
    pub open spec fn text(self) -> Seq<char> {
        match self {
            Shape::Interp => "interp"@,
            Shape::NativeSeq => "native-seq"@,
            Shape::NativePar(_) => "native-par"@,
        }
    }

    /// The name under which it is checked.
    pub open spec fn full_text(self) -> Seq<char> {
        match self {
            Shape::NativePar(p) => "native-par"@ + natural_text(p as nat),
            _ => self.text(),
        }
    }

    /// The name under which its times are reported.
    pub fn name(self) -> (r: &'static str)
        ensures
            r@ == self.text(),
    {
        match self {
            Shape::Interp => "interp",
            Shape::NativeSeq => "native-seq",
            Shape::NativePar(_) => "native-par",
        }
    }

    /// The name under which it is checked.
    pub fn label(self) -> (r: String)
        ensures
            r@ == self.full_text(),
    {
        let mut s = self.name().to_owned();
        if let Shape::NativePar(p) = self {
            push_natural(&mut s, p as u128);
        }
        s
    }
}

/// The ways in which a kernel is timed at a size.
pub open spec fn timed(
    k: KernelV,
    size: i64,
    sweep: Seq<usize>,
    max_threads: usize,
    hw: usize,
) -> Seq<Shape> {
    let interp = if size <= k.interp_max_size {
        seq![Shape::Interp]
    } else {
        seq![]
    };
    let par = if k.parallel() && sweep.len() > 1 {
        seq![Shape::NativePar(middle(sweep, max_threads, hw))]
    } else {
        seq![]
    };
    interp + seq![Shape::NativeSeq] + par
}

/// The ways in which a kernel is timed at a size.
pub fn timed_shapes(kernel: &KernelDef, size: i64, config: &BenchConfig, hw: usize) -> (r: Vec<
    Shape,
>)
    ensures
        r@ == timed(kernel@, size, config.thread_sweep@, config.max_threads, hw),
{
    let mut out: Vec<Shape> = Vec::new();
    if size <= kernel.interp_max_size {
        out.push(Shape::Interp);
    }
    out.push(Shape::NativeSeq);
    if kernel.is_parallel_candidate() && config.thread_sweep.len() > 1 {
        out.push(Shape::NativePar(middle_threads(config, hw)));
    }
    assert(out@ =~= timed(kernel@, size, config.thread_sweep@, config.max_threads, hw));
    out
}

/// Numbers of threads as ways of running a kernel.
pub open spec fn on_threads(ps: Seq<usize>) -> Seq<Shape> {
    ps.map_values(|p: usize| Shape::NativePar(p))
}

/// The ways in which the efficiency of a kernel is timed.
pub open spec fn swept(k: KernelV, sweep: Seq<usize>, max_threads: usize, hw: usize) -> Seq<Shape> {
    if k.parallel() {
        on_threads(sweep_of(sweep, limit(max_threads, hw)))
    } else {
        seq![]
    }
}

/// The ways in which a kernel is checked.
pub open spec fn checked(
    k: KernelV,
    sweep: Seq<usize>,
    max_threads: usize,
    hw: usize,
) -> Seq<Shape> {
    seq![Shape::Interp, Shape::NativeSeq] + if k.parallel() {
        on_threads(pins_of(sweep, max_threads, hw))
    } else {
        seq![]
    }
}

/// Numbers of threads as ways of running a kernel.
fn shapes_on(ps: &Vec<usize>) -> (r: Vec<Shape>)
    ensures
        r@ == on_threads(ps@),
{
    let mut out: Vec<Shape> = Vec::new();
    let mut k: usize = 0;
    while k < ps.len()
        invariant
            k <= ps@.len(),
            out@ =~= on_threads(ps@).take(k as int),
        decreases ps@.len() - k,
    {
        out.push(Shape::NativePar(ps[k]));
        k = k + 1;
    }
    assert(on_threads(ps@).take(k as int) =~= on_threads(ps@));
    out
}

/// The ways in which the efficiency of a kernel is timed.
pub fn swept_shapes(kernel: &KernelDef, config: &BenchConfig, hw: usize) -> (r: Vec<Shape>)
    ensures
        r@ == swept(kernel@, config.thread_sweep@, config.max_threads, hw),
{
    if kernel.is_parallel_candidate() {
        let ps = sweep_points(config, hw);
        shapes_on(&ps)
    } else {
        Vec::new()
    }
}

/// The ways in which a kernel is checked.
pub fn checked_shapes(kernel: &KernelDef, config: &BenchConfig, hw: usize) -> (r: Vec<Shape>)
    ensures
        r@ == checked(kernel@, config.thread_sweep@, config.max_threads, hw),
{
    let mut out: Vec<Shape> = vec![Shape::Interp, Shape::NativeSeq];
    if kernel.is_parallel_candidate() {
        let ps = parity_pins(config, hw);
        let mut more = shapes_on(&ps);
        out.append(&mut more);
    }
    assert(out@ =~= checked(kernel@, config.thread_sweep@, config.max_threads, hw));
    out
}

/// Numbers of threads stay pinned, and every number that the machine allows is.
proof fn lemma_pinned(start: Seq<usize>, sweep: Seq<usize>, cap: usize, k: nat)
    requires
        k <= sweep.len(),
    ensures
        forall|x: usize| start.contains(x) ==> #[trigger] pinned(start, sweep, cap, k).contains(x),
        forall|x: usize|
            allowed(sweep, cap, k).contains(x) ==> #[trigger] pinned(
                start,
                sweep,
                cap,
                k,
            ).contains(x),
    decreases k,
{
    if k > 0 {
        lemma_pinned(start, sweep, cap, (k - 1) as nat);
        let before = pinned(start, sweep, cap, (k - 1) as nat);
        let now = pinned(start, sweep, cap, k);
        let y = sweep[k - 1];
        assert forall|x: usize| before.contains(x) implies #[trigger] now.contains(x) by {
            let i = choose|i: int| 0 <= i < before.len() && before[i] == x;
            assert(now[i] == x);
        }
        assert forall|x: usize| allowed(sweep, cap, k).contains(x) implies #[trigger] now.contains(
            x,
        ) by {
            let a = allowed(sweep, cap, k);
            let b = allowed(sweep, cap, (k - 1) as nat);
            let i = choose|i: int| 0 <= i < a.len() && a[i] == x;
            if i < b.len() {
                assert(b[i] == x);
                assert(before.contains(x));
            } else {
                assert(x == y);
                if !before.contains(x) {
                    assert(now[now.len() - 1] == x);
                }
            }
        }
    }
}

/// Whatever is timed, at any size or for the table of efficiencies, is checked first.
pub proof fn law_what_is_timed_is_checked(
    k: KernelV,
    size: i64,
    sweep: Seq<usize>,
    max_threads: usize,
    hw: usize,
    s: Shape,
)
    requires
        timed(k, size, sweep, max_threads, hw).contains(s) || swept(
            k,
            sweep,
            max_threads,
            hw,
        ).contains(s),
    ensures
        checked(k, sweep, max_threads, hw).contains(s),
{
    let c = checked(k, sweep, max_threads, hw);
    let cap = limit(max_threads, hw);
    match s {
        Shape::Interp => {
            assert(c[0] == s);
        },
        Shape::NativeSeq => {
            assert(c[1] == s);
        },
        Shape::NativePar(p) => {
            let pins = pins_of(sweep, max_threads, hw);
            let start = if sweep.len() > 1 {
                seq![middle(sweep, max_threads, hw)]
            } else {
                seq![]
            };
            lemma_pinned(start, sweep, cap, sweep.len());
            let t = timed(k, size, sweep, max_threads, hw);
            if t.contains(s) {
                let i = choose|i: int| 0 <= i < t.len() && t[i] == s;
                assert(k.parallel() && sweep.len() > 1 && p == middle(sweep, max_threads, hw));
                assert(start[0] == p);
                assert(start.contains(p));
            } else {
                let w = swept(k, sweep, max_threads, hw);
                let i = choose|i: int| 0 <= i < w.len() && w[i] == s;
                let ps = sweep_of(sweep, cap);
                assert(ps[i] == p);
                assert(allowed(sweep, cap, sweep.len())[i] == p);
                assert(allowed(sweep, cap, sweep.len()).contains(p));
            }
            assert(pins.contains(p));
            let i = choose|i: int| 0 <= i < pins.len() && pins[i] == p;
            assert(c[i + 2] == s);
        },
    }
}

/// No number of threads is checked twice.
pub proof fn law_checks_are_not_repeated(
    sweep: Seq<usize>,
    max_threads: usize,
    hw: usize,
    k: nat,
    i: int,
    j: int,
)
    requires
        k <= sweep.len(),
        ({
            let start = if sweep.len() > 1 {
                seq![middle(sweep, max_threads, hw)]
            } else {
                seq![]
            };
            0 <= i < j < pinned(start, sweep, limit(max_threads, hw), k).len()
        }),
    ensures
        ({
            let start = if sweep.len() > 1 {
                seq![middle(sweep, max_threads, hw)]
            } else {
                seq![]
            };
            let p = pinned(start, sweep, limit(max_threads, hw), k);
            p[i] != p[j]
        }),
    decreases k,
{
    let start = if sweep.len() > 1 {
        seq![middle(sweep, max_threads, hw)]
    } else {
        seq![]
    };
    if k > 0 {
        let before = pinned(start, sweep, limit(max_threads, hw), (k - 1) as nat);
        if j < before.len() {
            law_checks_are_not_repeated(sweep, max_threads, hw, (k - 1) as nat, i, j);
        } else {
            assert(before.contains(before[i]));
        }
    }
}

// ---------------------------------------------------------------------------
// What the analysis has to find
// ---------------------------------------------------------------------------

/// The loop starts at a block.
pub open spec fn headed(h: BlockId) -> spec_fn(Loop) -> bool {
    |l: Loop| l.header == h
}

/// The verdict on the loop of a region, if there is a report on it.
pub open spec fn region_verdict(
    loops: Seq<LoopInfo>,
    reports: Seq<Vec<LoopReport>>,
    r: RegionDesc,
) -> Option<Judgement> {
    let fi = r.func_idx as int;
    if fi >= loops.len() || fi >= reports.len() {
        None
    } else {
        match first_where(loops[fi].loops@, headed(r.header)) {
            Some(i) => match first_where(reports[fi]@, reports_on(loops[fi].loops@[i].id)) {
                Some(m) => Some(reports[fi]@[m].verdict@),
                None => None,
            },
            None => None,
        }
    }
}

/// The verdicts on the loops of the first `k` regions.
pub open spec fn approved_verdicts(
    loops: Seq<LoopInfo>,
    reports: Seq<Vec<LoopReport>>,
    rs: Seq<RegionDesc>,
    k: nat,
) -> Seq<Judgement>
    decreases k,
{
    if k == 0 {
        seq![]
    } else {
        let before = approved_verdicts(loops, reports, rs, (k - 1) as nat);
        match region_verdict(loops, reports, rs[k - 1]) {
            Some(v) => before.push(v),
            None => before,
        }
    }
}

/// How many loops the first `k` functions have.
pub open spec fn loop_count(loops: Seq<LoopInfo>, k: nat) -> nat
    decreases k,
{
    if k == 0 {
        0
    } else {
        loop_count(loops, (k - 1) as nat) + loops[k - 1].loops@.len()
    }
}

/// A short name of a verdict.
pub open spec fn verdict_text(v: Option<Judgement>) -> Seq<char> {
    match v {
        Some(Judgement::Safe) => "SafeParallel"@,
        Some(Judgement::Reduces { op, .. }) => "ReductionParallel("@ + op.spelling() + ")"@,
        Some(Judgement::Stays { .. }) => "Sequential"@,
        None => "(no analyzable loop)"@,
    }
}

/// A short name of a verdict.
pub fn verdict_label(v: Option<&Verdict>) -> (r: String)
    ensures
        r@ == verdict_text(
            match v {
                Some(x) => Some(x@),
                None => None,
            },
        ),
{
    match v {
        Some(Verdict::SafeParallel) => "SafeParallel".to_owned(),
        Some(Verdict::ReductionParallel(red)) => {
            let mut s = "ReductionParallel(".to_owned();
            push_text(&mut s, red.op.symbol());
            push_text(&mut s, ")");
            s
        },
        Some(Verdict::Sequential(_)) => "Sequential".to_owned(),
        None => "(no analyzable loop)".to_owned(),
    }
}

/// Short names of verdicts.
pub open spec fn verdict_texts(v: Seq<Judgement>) -> Seq<char> {
    if v.len() == 0 {
        "(nothing approved)"@
    } else {
        joined(v.map_values(|j: Judgement| verdict_text(Some(j))), ", "@)
    }
}

/// What the analysis of a program says about the loops that run in parallel.
#[derive(Debug)]
pub struct PlanView {
    /// Short names of the verdicts on the planned loops.
    pub labels: Vec<String>,
    /// Some planned loop has independent iterations.
    pub any_safe: bool,
    /// Some planned loop is a reduction.
    pub any_reduction: bool,
    /// The program has loops.
    pub any_loops: bool,
}

/// The view is that of verdicts, in a program with or without loops.
pub open spec fn is_view(p: PlanView, v: Seq<Judgement>, any_loops: bool) -> bool {
    &&& texts(p.labels@) == v.map_values(|j: Judgement| verdict_text(Some(j)))
    &&& p.any_safe == exists|i: int| 0 <= i < v.len() && #[trigger] v[i] is Safe
    &&& p.any_reduction == exists|i: int| 0 <= i < v.len() && #[trigger] v[i] is Reduces
    &&& p.any_loops == any_loops
}

/// The report on the loop of a region, by its function and position.
fn find_report(a: &Analysis, r: &RegionDesc) -> (out: Option<usize>)
    ensures
        match out {
            Some(m) => r.func_idx < a.reports@.len() && m < a.reports@[r.func_idx as int]@.len()
                && region_verdict(a.loops@, a.reports@, *r) == Some(
                a.reports@[r.func_idx as int]@[m as int].verdict@,
            ),
            None => region_verdict(a.loops@, a.reports@, *r) is None,
        },
{
    let fi: usize = r.func_idx;
    if fi >= a.loops.len() || fi >= a.reports.len() {
        return None;
    }
    let info = &a.loops[fi];
    let ghost p = headed(r.header);
    let mut i: usize = 0;
    while i < info.loops.len()
        invariant
            i <= info.loops@.len(),
            p == headed(r.header),
            fi == r.func_idx,
            fi < a.loops@.len(),
            fi < a.reports@.len(),
            *info == a.loops@[fi as int],
            forall|j: int| 0 <= j < i ==> !p(#[trigger] info.loops@[j]),
        decreases info.loops@.len() - i,
    {
        if info.loops[i].header == r.header {
            proof {
                crate::search::lemma_first_where_is(info.loops@, p, i as int);
            }
            let id: usize = info.loops[i].id;
            let reports = &a.reports[fi];
            let ghost q = reports_on(id);
            let mut m: usize = 0;
            while m < reports.len()
                invariant
                    m <= reports@.len(),
                    q == reports_on(id),
                    fi == r.func_idx,
                    fi < a.reports@.len(),
                    fi < a.loops@.len(),
                    *reports == a.reports@[fi as int],
                    i < a.loops@[fi as int].loops@.len(),
                    id == a.loops@[fi as int].loops@[i as int].id,
                    first_where(a.loops@[fi as int].loops@, headed(r.header)) == Some(i as int),
                    forall|j: int| 0 <= j < m ==> !q(#[trigger] reports@[j]),
                decreases reports@.len() - m,
            {
                if reports[m].loop_id == id {
                    proof {
                        crate::search::lemma_first_where_is(reports@, q, m as int);
                    }
                    return Some(m);
                }
                m = m + 1;
            }
            proof {
                crate::search::lemma_first_where_none(reports@, q);
            }
            return None;
        }
        i = i + 1;
    }
    proof {
        crate::search::lemma_first_where_none(info.loops@, p);
    }
    None
}

/// What the analysis says about the loops that run in parallel.
pub fn analyze_plan(a: &Analysis) -> (r: PlanView)
    ensures
        is_view(
            r,
            approved_verdicts(a.loops@, a.reports@, a.plan.regions@, a.plan.regions@.len()),
            loop_count(a.loops@, a.loops@.len()) > 0,
        ),
{
    let mut any_loops = false;
    let mut i: usize = 0;
    while i < a.loops.len()
        invariant
            i <= a.loops@.len(),
            any_loops == (loop_count(a.loops@, i as nat) > 0),
        decreases a.loops@.len() - i,
    {
        if a.loops[i].loops.len() > 0 {
            any_loops = true;
        }
        i = i + 1;
    }
    let mut labels: Vec<String> = Vec::new();
    let mut any_safe = false;
    let mut any_reduction = false;
    let ghost mut v: Seq<Judgement> = seq![];
    assert(texts(labels@) =~= v.map_values(|j: Judgement| verdict_text(Some(j))));
    let mut k: usize = 0;
    while k < a.plan.regions.len()
        invariant
            k <= a.plan.regions@.len(),
            v == approved_verdicts(a.loops@, a.reports@, a.plan.regions@, k as nat),
            texts(labels@) == v.map_values(|j: Judgement| verdict_text(Some(j))),
            any_safe == exists|i: int| 0 <= i < v.len() && #[trigger] v[i] is Safe,
            any_reduction == exists|i: int| 0 <= i < v.len() && #[trigger] v[i] is Reduces,
        decreases a.plan.regions@.len() - k,
    {
        let region = &a.plan.regions[k];
        if let Some(m) = find_report(a, region) {
            let verdict = &a.reports[region.func_idx][m].verdict;
            let label = verdict_label(Some(verdict));
            let ghost before = v;
            proof {
                v = v.push(verdict@);
                crate::text::lemma_texts_push(labels@, label);
                assert(texts(labels@).push(label@) =~= v.map_values(
                    |j: Judgement| verdict_text(Some(j)),
                ));
                assert(v[before.len() as int] == verdict@);
                assert forall|i: int| 0 <= i < before.len() implies v[i] == before[i] by {}
                if any_safe {
                    let i = choose|i: int| 0 <= i < before.len() && #[trigger] before[i] is Safe;
                    assert(v[i] is Safe);
                }
                if any_reduction {
                    let i = choose|i: int|
                        0 <= i < before.len() && #[trigger] before[i] is Reduces;
                    assert(v[i] is Reduces);
                }
            }
            labels.push(label);
            match verdict {
                Verdict::SafeParallel => {
                    any_safe = true;
                },
                Verdict::ReductionParallel(_) => {
                    any_reduction = true;
                },
                Verdict::Sequential(_) => {},
            }
        }
        k = k + 1;
    }
    PlanView { labels, any_safe, any_reduction, any_loops }
}

/// The verdicts are what the kernel is there for.
pub open spec fn meets(e: ExpectedVerdict, v: Seq<Judgement>) -> bool {
    match e {
        ExpectedVerdict::SafeParallel => exists|i: int|
            0 <= i < v.len() && #[trigger] v[i] is Safe,
        ExpectedVerdict::ReductionParallel => exists|i: int|
            0 <= i < v.len() && #[trigger] v[i] is Reduces,
        _ => v.len() == 0,
    }
}

/// What is said of the verdicts: nothing for a kernel without a loop, else the verdicts; or why the
/// campaign stops.
pub open spec fn gate(k: KernelV, v: Seq<Judgement>, any_loops: bool) -> Result<
    Option<Seq<char>>,
    Seq<char>,
> {
    if k.expected_verdict == ExpectedVerdict::NotApplicable {
        Ok(None)
    } else if !any_loops {
        Err(
            k.name
                + ": analyzer saw no loops at all — pipeline regressed or the kernel source drifted"@,
        )
    } else if !meets(k.expected_verdict, v) {
        Err(
            k.name + ": approved-region verdicts "@ + verdict_texts(v) + " do not match expected "@
                + k.expected_verdict.text()
                + " — analysis regressed or the kernel source drifted"@,
        )
    } else {
        Ok(Some(verdict_texts(v)))
    }
}

/// The result is what is said.
pub open spec fn says(
    r: Result<Option<String>, String>,
    g: Result<Option<Seq<char>>, Seq<char>>,
) -> bool {
    match g {
        Ok(None) => r matches Ok(None),
        Ok(Some(t)) => r matches Ok(Some(s)) && s@ == t,
        Err(t) => r matches Err(s) && s@ == t,
    }
}

/// Holds what the analysis found against what a kernel is there for.
pub fn verdict_gate(kernel: &KernelDef, view: &PlanView) -> (r: Result<Option<String>, String>)
    ensures
        forall|v: Seq<Judgement>, any_loops: bool|
            is_view(*view, v, any_loops) ==> #[trigger] says(r, gate(kernel@, v, any_loops)),
{
    if let ExpectedVerdict::NotApplicable = kernel.expected_verdict {
        return Ok(None);
    }
    if !view.any_loops {
        let mut s = kernel.name.as_str().to_owned();
        push_text(
            &mut s,
            ": analyzer saw no loops at all — pipeline regressed or the kernel source drifted",
        );
        return Err(s);
    }
    let ok = match kernel.expected_verdict {
        ExpectedVerdict::SafeParallel => view.any_safe,
        ExpectedVerdict::ReductionParallel => view.any_reduction,
        _ => view.labels.len() == 0,
    };
    let names = if view.labels.len() == 0 {
        "(nothing approved)".to_owned()
    } else {
        join(&view.labels, ", ")
    };
    proof {
        assert forall|v: Seq<Judgement>, any_loops: bool|
            is_view(*view, v, any_loops) implies ok == meets(kernel@.expected_verdict, v)
            && names@ == verdict_texts(v) by {
            assert(texts(view.labels@).len() == view.labels@.len());
            assert(v.map_values(|j: Judgement| verdict_text(Some(j))).len() == v.len());
        }
    }
    if !ok {
        let mut s = kernel.name.as_str().to_owned();
        push_text(&mut s, ": approved-region verdicts ");
        push_text(&mut s, names.as_str());
        push_text(&mut s, " do not match expected ");
        let e = kernel.expected_verdict.label();
        push_text(&mut s, e.as_str());
        push_text(&mut s, " — analysis regressed or the kernel source drifted");
        return Err(s);
    }
    Ok(Some(names))
}

// ---------------------------------------------------------------------------
// What stops a campaign
// ---------------------------------------------------------------------------

/// Why a campaign stops where a kernel cannot be built in a way in which it is timed;
/// where the kernel is not meant to run in parallel, it can do without native code.
pub open spec fn build_failure(k: KernelV, s: Shape, size: i64, e: Seq<char>) -> Option<
    Seq<char>,
> {
    match s {
        Shape::Interp => Some(
            k.name + ": interpreter compile failed at N="@ + integer_text(size as int) + ": "@ + e,
        ),
        Shape::NativeSeq => if k.parallel() {
            Some(
                k.name + ": native-seq compile failed at N="@ + integer_text(size as int)
                    + " (kernel expects a parallel-capable verdict, so this aborts the campaign): "@
                    + e,
            )
        } else {
            None
        },
        Shape::NativePar(p) => Some(
            k.name + ": native-par"@ + natural_text(p as nat) + " compile failed at N="@
                + integer_text(size as int) + ": "@ + e,
        ),
    }
}

/// Why a campaign stops where a kernel cannot be built in a way in which it is checked.
pub open spec fn check_failure(k: KernelV, s: Shape, e: Seq<char>) -> Option<Seq<char>> {
    if s == Shape::NativeSeq && !k.parallel() {
        None
    } else {
        Some(k.name + ": "@ + s.full_text() + " parity variant failed to compile: "@ + e)
    }
}

/// The result is the text, if there is one.
pub open spec fn is_opt(r: Option<String>, t: Option<Seq<char>>) -> bool {
    match t {
        Some(x) => r is Some && r->0@ == x,
        None => r is None,
    }
}

/// What to do where a kernel cannot be built to be timed: stop for a reason, or go on
/// without.
pub fn on_build_failure(kernel: &KernelDef, shape: Shape, size: i64, e: &str) -> (r: Option<String>)
    ensures
        is_opt(r, build_failure(kernel@, shape, size, e@)),
{
    let mut s = kernel.name.as_str().to_owned();
    match shape {
        Shape::Interp => {
            push_text(&mut s, ": interpreter compile failed at N=");
            push_integer(&mut s, size as i128);
            push_text(&mut s, ": ");
        },
        Shape::NativeSeq => {
            if !kernel.is_parallel_candidate() {
                return None;
            }
            push_text(&mut s, ": native-seq compile failed at N=");
            push_integer(&mut s, size as i128);
            push_text(
                &mut s,
                " (kernel expects a parallel-capable verdict, so this aborts the campaign): ",
            );
        },
        Shape::NativePar(p) => {
            push_text(&mut s, ": native-par");
            push_natural(&mut s, p as u128);
            push_text(&mut s, " compile failed at N=");
            push_integer(&mut s, size as i128);
            push_text(&mut s, ": ");
        },
    }
    push_text(&mut s, e);
    Some(s)
}

/// What to do where a kernel cannot be built to be checked: stop for a reason, or go on
/// without.
pub fn on_check_failure(kernel: &KernelDef, shape: Shape, e: &str) -> (r: Option<String>)
    ensures
        is_opt(r, check_failure(kernel@, shape, e@)),
{
    if shape == Shape::NativeSeq && !kernel.is_parallel_candidate() {
        return None;
    }
    let mut s = kernel.name.as_str().to_owned();
    push_text(&mut s, ": ");
    let l = shape.label();
    push_text(&mut s, l.as_str());
    push_text(&mut s, " parity variant failed to compile: ");
    push_text(&mut s, e);
    Some(s)
}

/// The run printed what it has to print.
pub open spec fn may_agree<F: Fn(u64, &String, &String) -> bool>(
    kernel: KernelDef,
    printed: Seq<String>,
    close: F,
) -> bool {
    printed.len() == kernel.expected_printed@.len() && forall|i: int|
        0 <= i < printed.len() ==> kernel.tolerance.accepts(
            close,
            #[trigger] printed[i],
            kernel.expected_printed@[i],
        )
}

/// The run did not print what it has to print.
pub open spec fn may_disagree<F: Fn(u64, &String, &String) -> bool>(
    kernel: KernelDef,
    printed: Seq<String>,
    close: F,
) -> bool {
    printed.len() != kernel.expected_printed@.len() || exists|i: int|
        0 <= i < printed.len() && kernel.tolerance.refuses(
            close,
            #[trigger] printed[i],
            kernel.expected_printed@[i],
        )
}

/// Checks a run of a kernel at its small size: the error says why the campaign stops.
/// `shown` writes lists of lines, and `written` is the bound of the tolerance.
pub fn check_parity<F: Fn(u64, &String, &String) -> bool>(
    kernel: &KernelDef,
    shape: Shape,
    out: &Result<RunOutputLike, String>,
    close: &F,
    shown: &str,
    expected: &str,
    written: &str,
) -> (r: Result<(), String>)
    requires
        crate::kernels::total(*close),
    ensures
        match *out {
            Err(e) => r matches Err(s) && s@ == kernel.name@ + ": parity ABORT — variant ["@
                + shape.full_text() + "] failed at correctness size: "@ + e@,
            Ok(o) => match r {
                Ok(_) => may_agree(*kernel, o.printed@, *close),
                Err(s) => may_disagree(*kernel, o.printed@, *close) && s@ == kernel.name@
                    + ": parity ABORT — variant ["@ + shape.full_text() + "] printed "@ + shown@
                    + ", expected "@ + expected@ + " (tolerance "@ + (match kernel.tolerance {
                    Tolerance::Exact => "exact"@,
                    Tolerance::RelEps(_) => "rel_eps="@ + written@,
                }) + ")"@,
            },
        },
{
    let mut s = kernel.name.as_str().to_owned();
    push_text(&mut s, ": parity ABORT — variant [");
    let l = shape.label();
    push_text(&mut s, l.as_str());
    match out {
        Err(e) => {
            push_text(&mut s, "] failed at correctness size: ");
            push_text(&mut s, e.as_str());
            Err(s)
        },
        Ok(o) => {
            if kernel.tolerance.matches(&o.printed, &kernel.expected_printed, close) {
                return Ok(());
            }
            push_text(&mut s, "] printed ");
            push_text(&mut s, shown);
            push_text(&mut s, ", expected ");
            push_text(&mut s, expected);
            push_text(&mut s, " (tolerance ");
            let t = kernel.tolerance.name(written);
            push_text(&mut s, t.as_str());
            push_text(&mut s, ")");
            Err(s)
        },
    }
}

/// Whether a run of a kernel at its small size printed what it has to print.
pub fn parity_holds<F: Fn(u64, &String, &String) -> bool>(
    kernel: &KernelDef,
    out: &Result<RunOutputLike, String>,
    close: &F,
) -> (r: bool)
    requires
        crate::kernels::total(*close),
    ensures
        match *out {
            Err(_) => !r,
            Ok(o) => if r {
                may_agree(*kernel, o.printed@, *close)
            } else {
                may_disagree(*kernel, o.printed@, *close)
            },
        },
{
    match out {
        Err(_) => false,
        Ok(o) => kernel.tolerance.matches(&o.printed, &kernel.expected_printed, close),
    }
}

/// The widths at which the bandwidth of the memory is measured: one thread, and as many
/// as the machine runs.
pub fn triad_widths(config: &BenchConfig, hw: usize) -> (r: Vec<usize>)
    ensures
        r@ == if config.skip_triad {
            seq![]
        } else if hw > 1 {
            seq![1usize, hw]
        } else {
            seq![1usize]
        },
{
    let mut out: Vec<usize> = Vec::new();
    if !config.skip_triad {
        out.push(1);
        if hw > 1 {
            out.push(hw);
        }
    }
    assert(out@ =~= if config.skip_triad {
        seq![]
    } else if hw > 1 {
        seq![1usize, hw]
    } else {
        seq![1usize]
    });
    out
}

} // verus!
