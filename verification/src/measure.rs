//! Measures one kernel: the verdict on its loops, what it prints, and the times of every
//! way in which it runs.
//!
//! Nothing is timed that was not checked before. How a program is built in a way of
//! running it, and what is made of floating-point numbers, is supplied from outside.
use vstd::prelude::*;

use crate::campaign::{
    build_failure, check_failure, check_parity, checked, checked_shapes, gate, is_opt, is_view,
    may_agree, may_disagree, on_build_failure, on_check_failure, says, swept, swept_shapes, timed,
    timed_shapes, verdict_gate, BenchConfig, PlanView, Shape,
};
use crate::kernels::{total, KernelDef, KernelV, RunOutputLike, Tolerance};
use crate::plan::Judgement;
use crate::text::{integer_text, natural_text, push_integer, push_natural, push_text};
use crate::timing::{
    fails, judges, keeps, measure_with_reps, measured, of_fn, of_variant, picked, picks,
    pilot_error, pilot_failed, run_interleaved, sample_failed, sampled, went_on, Batch, Duration,
    Outcomes, K_SAMPLES,
};
use crate::variants::ExecVariant;

verus! {

// ---------------------------------------------------------------------------
// Building
// ---------------------------------------------------------------------------

/// What building a source in a way of running it can give.
pub open spec fn gives<V, B: Fn(&String, Shape) -> Result<V, String>>(
    build: B,
    src: Seq<char>,
    shape: Shape,
    r: Result<V, String>,
) -> bool {
    exists|s: String| s@ == src && #[trigger] build.ensures((&s, shape), r)
}

/// Building can be asked for anything.
pub open spec fn builds<V, B: Fn(&String, Shape) -> Result<V, String>>(build: B) -> bool {
    forall|s: &String, shape: Shape| #[trigger] build.requires((s, shape))
}

/// Why a kernel that cannot be built stops everything: to be timed at a size, or to be
/// checked.
pub open spec fn fault(k: KernelV, size: Option<i64>, s: Shape, e: Seq<char>) -> Option<Seq<char>> {
    match size {
        Some(n) => build_failure(k, s, n, e),
        None => check_failure(k, s, e),
    }
}

/// The kernel can do without being built in this way.
pub open spec fn spared<V, B: Fn(&String, Shape) -> Result<V, String>>(
    build: B,
    k: KernelV,
    size: Option<i64>,
    src: Seq<char>,
    s: Shape,
) -> bool {
    exists|e: String| #[trigger]
        gives(build, src, s, Err::<V, String>(e)) && fault(k, size, s, e@) is None
}

/// What is built of the first `n` ways: all of them, but for those that can be spared.
pub open spec fn is_built<V, B: Fn(&String, Shape) -> Result<V, String>>(
    build: B,
    k: KernelV,
    size: Option<i64>,
    src: Seq<char>,
    shapes: Seq<Shape>,
    kept: Seq<Shape>,
    vs: Seq<V>,
    n: nat,
) -> bool
    decreases n,
{
    if n == 0 {
        kept.len() == 0 && vs.len() == 0
    } else {
        let s = shapes[n - 1];
        ||| {
            &&& kept.len() > 0
            &&& kept.len() == vs.len()
            &&& kept.last() == s
            &&& gives(build, src, s, Ok::<V, String>(vs.last()))
            &&& is_built(
                build,
                k,
                size,
                src,
                shapes,
                kept.drop_last(),
                vs.drop_last(),
                (n - 1) as nat,
            )
        }
        ||| {
            &&& spared::<V, B>(build, k, size, src, s)
            &&& is_built(build, k, size, src, shapes, kept, vs, (n - 1) as nat)
        }
    }
}

/// A way that cannot be spared could not be built, and the text says so.
pub open spec fn unbuilt<V, B: Fn(&String, Shape) -> Result<V, String>>(
    build: B,
    k: KernelV,
    size: Option<i64>,
    src: Seq<char>,
    s: Shape,
    e: String,
    text: Seq<char>,
) -> bool {
    gives(build, src, s, Err::<V, String>(e)) && fault(k, size, s, e@) == Some(text)
}

/// One of the ways could not be built, and the text says so.
pub open spec fn not_built<V, B: Fn(&String, Shape) -> Result<V, String>>(
    build: B,
    k: KernelV,
    size: Option<i64>,
    src: Seq<char>,
    shapes: Seq<Shape>,
    text: Seq<char>,
) -> bool {
    exists|i: int, e: String|
        0 <= i < shapes.len() && #[trigger] unbuilt::<V, B>(
            build,
            k,
            size,
            src,
            shapes[i],
            e,
            text,
        )
}

/// Why the kernel stops everything.
fn on_failure(kernel: &KernelDef, size: Option<i64>, shape: Shape, e: &str) -> (r: Option<String>)
    ensures
        is_opt(r, fault(kernel@, size, shape, e@)),
{
    match size {
        Some(n) => on_build_failure(kernel, shape, n, e),
        None => on_check_failure(kernel, shape, e),
    }
}

/// Builds a source in several ways.
fn build_all<V, B: Fn(&String, Shape) -> Result<V, String>>(
    kernel: &KernelDef,
    size: Option<i64>,
    src: &String,
    shapes: &Vec<Shape>,
    build: &B,
) -> (r: Result<(Vec<Shape>, Vec<V>), String>)
    requires
        builds(*build),
    ensures
        match r {
            Ok(b) => is_built(
                *build,
                kernel@,
                size,
                src@,
                shapes@,
                b.0@,
                b.1@,
                shapes@.len(),
            ) && b.0@.len() == b.1@.len(),
            Err(e) => not_built::<V, B>(*build, kernel@, size, src@, shapes@, e@),
        },
{
    let mut kept: Vec<Shape> = Vec::new();
    let mut vs: Vec<V> = Vec::new();
    let mut k: usize = 0;
    while k < shapes.len()
        invariant
            builds(*build),
            k <= shapes@.len(),
            kept@.len() == vs@.len(),
            is_built(*build, kernel@, size, src@, shapes@, kept@, vs@, k as nat),
        decreases shapes@.len() - k,
    {
        let s = shapes[k];
        let ghost kept0 = kept@;
        let ghost vs0 = vs@;
        match build(src, s) {
            Ok(v) => {
                proof {
                    assert(build.ensures((src, s), Ok::<V, String>(v)));
                    assert(gives(*build, src@, s, Ok::<V, String>(v)));
                }
                kept.push(s);
                vs.push(v);
                proof {
                    assert(kept@.drop_last() =~= kept0);
                    assert(vs@.drop_last() =~= vs0);
                }
            },
            Err(e) => {
                proof {
                    assert(build.ensures((src, s), Err::<V, String>(e)));
                    assert(gives(*build, src@, s, Err::<V, String>(e)));
                }
                if let Some(text) = on_failure(kernel, size, s, e.as_str()) {
                    proof {
                        assert(unbuilt::<V, B>(
                            *build,
                            kernel@,
                            size,
                            src@,
                            shapes@[k as int],
                            e,
                            text@,
                        ));
                    }
                    return Err(text);
                }
                assert(spared::<V, B>(*build, kernel@, size, src@, s));
            },
        }
        k = k + 1;
    }
    Ok((kept, vs))
}

// ---------------------------------------------------------------------------
// Checking
// ---------------------------------------------------------------------------

/// A program printed what its kernel has to print.
pub open spec fn ran_right<V: ExecVariant, F: Fn(u64, &String, &String) -> bool>(
    kernel: KernelDef,
    v: V,
    close: F,
) -> bool {
    exists|out: RunOutputLike| #[trigger]
        call_ensures(V::run_once, (&v,), Ok::<RunOutputLike, String>(out)) && may_agree(
            kernel,
            out.printed@,
            close,
        )
}

/// Every way in which the kernel is checked prints what it has to print.
pub open spec fn parity<
    V: ExecVariant,
    B: Fn(&String, Shape) -> Result<V, String>,
    F: Fn(u64, &String, &String) -> bool,
>(kernel: KernelDef, shapes: Seq<Shape>, build: B, close: F) -> bool {
    exists|kept: Seq<Shape>, vs: Seq<V>| #[trigger]
        is_built(
            build,
            kernel@,
            None,
            kernel.correctness_source@,
            shapes,
            kept,
            vs,
            shapes.len(),
        ) && forall|i: int| 0 <= i < vs.len() ==> ran_right(kernel, #[trigger] vs[i], close)
}

/// What is said where a way of running a kernel does not print what it has to print.
/// `shown` is how a list of lines is written.
pub open spec fn wrong_lines(
    kernel: KernelDef,
    shape: Shape,
    shown: Seq<char>,
    expected: Seq<char>,
    written: Seq<char>,
) -> Seq<char> {
    kernel.name@ + ": parity ABORT — variant ["@ + shape.full_text() + "] printed "@ + shown
        + ", expected "@ + expected + " (tolerance "@ + (match kernel.tolerance {
        Tolerance::Exact => "exact"@,
        Tolerance::RelEps(_) => "rel_eps="@ + written,
    }) + ")"@
}

/// What is said where a way of running a kernel fails.
pub open spec fn failed_run(kernel: KernelDef, shape: Shape, e: Seq<char>) -> Seq<char> {
    kernel.name@ + ": parity ABORT — variant ["@ + shape.full_text()
        + "] failed at correctness size: "@ + e
}

/// A run that does not do what it has to do, and the text says so.
pub open spec fn bad_run<F: Fn(u64, &String, &String) -> bool, S: Fn(&Vec<String>) -> String>(
    kernel: KernelDef,
    shape: Shape,
    out: Result<RunOutputLike, String>,
    close: F,
    show: S,
    written: Seq<char>,
    text: Seq<char>,
) -> bool {
    match out {
        Err(e) => text == failed_run(kernel, shape, e@),
        Ok(o) => may_disagree(kernel, o.printed@, close) && exists|shown: String, expected: String|
            #[trigger] show.ensures((&o.printed,), shown) && #[trigger] show.ensures(
                (&kernel.expected_printed,),
                expected,
            ) && text == wrong_lines(kernel, shape, shown@, expected@, written),
    }
}

/// A program came out of building the kernel in this way, and its run was bad.
pub open spec fn bad_variant<
    V: ExecVariant,
    B: Fn(&String, Shape) -> Result<V, String>,
    F: Fn(u64, &String, &String) -> bool,
    S: Fn(&Vec<String>) -> String,
>(
    kernel: KernelDef,
    shape: Shape,
    v: V,
    out: Result<RunOutputLike, String>,
    build: B,
    close: F,
    show: S,
    written: Seq<char>,
    text: Seq<char>,
) -> bool {
    &&& gives(build, kernel.correctness_source@, shape, Ok::<V, String>(v))
    &&& call_ensures(V::run_once, (&v,), out)
    &&& bad_run(kernel, shape, out, close, show, written, text)
}

/// Why checking stops everything.
pub open spec fn no_parity<
    V: ExecVariant,
    B: Fn(&String, Shape) -> Result<V, String>,
    F: Fn(u64, &String, &String) -> bool,
    S: Fn(&Vec<String>) -> String,
>(
    kernel: KernelDef,
    shapes: Seq<Shape>,
    build: B,
    close: F,
    show: S,
    written: Seq<char>,
    text: Seq<char>,
) -> bool {
    ||| not_built::<V, B>(build, kernel@, None, kernel.correctness_source@, shapes, text)
    ||| exists|shape: Shape, v: V, out: Result<RunOutputLike, String>|
        shapes.contains(shape) && #[trigger] bad_variant::<V, B, F, S>(
            kernel,
            shape,
            v,
            out,
            build,
            close,
            show,
            written,
            text,
        )
}

/// What was built is one of the ways, and came out of building it.
proof fn lemma_built<V, B: Fn(&String, Shape) -> Result<V, String>>(
    build: B,
    k: KernelV,
    size: Option<i64>,
    src: Seq<char>,
    shapes: Seq<Shape>,
    kept: Seq<Shape>,
    vs: Seq<V>,
    n: nat,
    i: int,
)
    requires
        is_built(build, k, size, src, shapes, kept, vs, n),
        n <= shapes.len(),
        0 <= i < kept.len(),
    ensures
        kept.len() == vs.len(),
        shapes.contains(kept[i]),
        gives(build, src, kept[i], Ok::<V, String>(vs[i])),
    decreases n,
{
    let s = shapes[n - 1];
    if kept.len() > 0 && kept.len() == vs.len() && kept.last() == s && gives(
        build,
        src,
        s,
        Ok::<V, String>(vs.last()),
    ) && is_built(
        build,
        k,
        size,
        src,
        shapes,
        kept.drop_last(),
        vs.drop_last(),
        (n - 1) as nat,
    ) {
        if i < kept.len() - 1 {
            lemma_built(
                build,
                k,
                size,
                src,
                shapes,
                kept.drop_last(),
                vs.drop_last(),
                (n - 1) as nat,
                i,
            );
            assert(kept.drop_last()[i] == kept[i]);
            assert(vs.drop_last()[i] == vs[i]);
        } else {
            assert(shapes[n - 1] == kept[i]);
        }
    } else {
        lemma_built(build, k, size, src, shapes, kept, vs, (n - 1) as nat, i);
    }
}

/// Checks a kernel: builds and runs it at its small size in every way in which it will be
/// timed. The first way that cannot be built, fails or prints something else stops it.
#[verifier::rlimit(40)]
pub fn assert_parity_all_variants<
    V: ExecVariant,
    B: Fn(&String, Shape) -> Result<V, String>,
    F: Fn(u64, &String, &String) -> bool,
    S: Fn(&Vec<String>) -> String,
>(
    kernel: &KernelDef,
    config: &BenchConfig,
    hw: usize,
    build: &B,
    close: &F,
    show: &S,
    written: &str,
) -> (r: Result<(), String>)
    requires
        builds(*build),
        total(*close),
        forall|v: &Vec<String>| #[trigger] show.requires((v,)),
    ensures
        match r {
            Ok(_) => parity::<V, B, F>(
                *kernel,
                checked(kernel@, config.thread_sweep@, config.max_threads, hw),
                *build,
                *close,
            ),
            Err(text) => no_parity::<V, B, F, S>(
                *kernel,
                checked(kernel@, config.thread_sweep@, config.max_threads, hw),
                *build,
                *close,
                *show,
                written@,
                text@,
            ),
        },
{
    let shapes = checked_shapes(kernel, config, hw);
    let (kept, vs) = match build_all(kernel, None, &kernel.correctness_source, &shapes, build) {
        Ok(b) => b,
        Err(e) => {
            return Err(e);
        },
    };
    let mut k: usize = 0;
    while k < vs.len()
        invariant
            total(*close),
            forall|v: &Vec<String>| #[trigger] show.requires((v,)),
            shapes@ == checked(kernel@, config.thread_sweep@, config.max_threads, hw),
            is_built(
                *build,
                kernel@,
                None,
                kernel.correctness_source@,
                shapes@,
                kept@,
                vs@,
                shapes@.len(),
            ),
            kept@.len() == vs@.len(),
            k <= vs@.len(),
            forall|i: int| 0 <= i < k ==> ran_right(*kernel, #[trigger] vs@[i], *close),
        decreases vs@.len() - k,
    {
        let out = vs[k].run_once();
        let shape = kept[k];
        proof {
            lemma_built(
                *build,
                kernel@,
                None,
                kernel.correctness_source@,
                shapes@,
                kept@,
                vs@,
                shapes@.len(),
                k as int,
            );
        }
        let expected = show(&kernel.expected_printed);
        let shown = match &out {
            Ok(o) => show(&o.printed),
            Err(_) => String::new(),
        };
        match check_parity(
            kernel,
            shape,
            &out,
            close,
            shown.as_str(),
            expected.as_str(),
            written,
        ) {
            Ok(_) => {
                assert(ran_right(*kernel, vs@[k as int], *close));
            },
            Err(text) => {
                proof {
                    if let Ok(o) = out {
                        assert(show.ensures((&o.printed,), shown));
                        assert(show.ensures((&kernel.expected_printed,), expected));
                    }
                    assert(bad_run(*kernel, shape, out, *close, *show, written@, text@));
                    assert(bad_variant::<V, B, F, S>(
                        *kernel,
                        shape,
                        vs@[k as int],
                        out,
                        *build,
                        *close,
                        *show,
                        written@,
                        text@,
                    ));
                }
                return Err(text);
            },
        }
        k = k + 1;
    }
    Ok(())
}

// ---------------------------------------------------------------------------
// Timing
// ---------------------------------------------------------------------------

/// What can come out of timing a batch of a program.
pub open spec fn of_program<V: ExecVariant>(v: V) -> Outcomes {
    |reps: u32, r: Result<Duration, String>| call_ensures(V::time_batch, (&v, reps), r)
}

/// Everything that `a` allows, `b` allows.
pub open spec fn within(a: Outcomes, b: Outcomes) -> bool {
    forall|reps: u32, r: Result<Duration, String>| #[trigger] a(reps, r) ==> b(reps, r)
}

/// A pilot that `a` allows, `b` allows.
proof fn lemma_picks(a: Outcomes, b: Outcomes, r: Result<u32, String>)
    requires
        within(a, b),
        picks(a, r),
    ensures
        picks(b, r),
{
    let ts = choose|ts: Seq<Duration>| #[trigger] picked(a, ts, r);
    assert(went_on(b, ts));
    assert(picked(b, ts, r));
}

/// Samples that `a` allows, `b` allows.
proof fn lemma_measured<
    N: Fn(&Vec<Duration>, u32) -> bool,
    T: Fn(&Vec<Duration>, &Vec<Duration>, u32) -> bool,
>(a: Outcomes, b: Outcomes, noisy: N, tighter: T, m: Batch)
    requires
        within(a, b),
        measured(a, noisy, tighter, m),
    ensures
        measured(b, noisy, tighter, m),
{
    let reps = m.reps_per_sample;
    if m.reran_for_cv {
        let (first, second) = choose|first: Vec<Duration>, second: Vec<Duration>| #[trigger]
            keeps(tighter, first, second, m) && sampled(a, reps, first@) && sampled(
                a,
                reps,
                second@,
            ) && noisy.ensures((&first, reps), true);
        assert(sampled(b, reps, first@));
        assert(sampled(b, reps, second@));
    } else {
        assert(sampled(b, reps, m.samples@));
    }
}

/// Samples of a program.
pub open spec fn timed_right<
    V: ExecVariant,
    N: Fn(&Vec<Duration>, u32) -> bool,
    T: Fn(&Vec<Duration>, &Vec<Duration>, u32) -> bool,
>(v: V, noisy: N, tighter: T, m: Batch) -> bool {
    picks(of_program(v), Ok(m.reps_per_sample)) && measured(of_program(v), noisy, tighter, m)
}

/// The pilot of one of several programs failed; the error names it.
pub open spec fn pilot_lost<V: ExecVariant>(
    kept: Seq<Shape>,
    vs: Seq<V>,
    vi: int,
    e0: String,
    text: Seq<char>,
) -> bool {
    0 <= vi < vs.len() && picks(of_program(vs[vi]), Err(e0)) && text == kept[vi].text() + ": "@
        + e0@
}

/// One of several programs failed after its pilot.
pub open spec fn sample_lost<V: ExecVariant>(
    vs: Seq<V>,
    vi: int,
    reps: u32,
    e: String,
    text: Seq<char>,
) -> bool {
    0 <= vi < vs.len() && picks(of_program(vs[vi]), Ok(reps)) && fails(
        of_program(vs[vi]),
        reps,
        e,
    ) && text == e@
}

/// What timing several programs in turn stops with.
pub open spec fn not_timed<V: ExecVariant>(
    kept: Seq<Shape>,
    vs: Seq<V>,
    text: Seq<char>,
) -> bool {
    ||| exists|vi: int, e0: String| #[trigger] pilot_lost(kept, vs, vi, e0, text)
    ||| exists|vi: int, reps: u32, e: String| #[trigger] sample_lost(vs, vi, reps, e, text)
}

/// The names of ways of running a program.
fn names_of(kept: &Vec<Shape>) -> (r: Vec<&'static str>)
    ensures
        r@.len() == kept@.len(),
        forall|i: int| 0 <= i < kept@.len() ==> (#[trigger] r@[i])@ == kept@[i].text(),
{
    let mut out: Vec<&'static str> = Vec::new();
    while out.len() < kept.len()
        invariant
            out@.len() <= kept@.len(),
            forall|i: int| 0 <= i < out@.len() ==> (#[trigger] out@[i])@ == kept@[i].text(),
        decreases kept@.len() - out@.len(),
    {
        let s = kept[out.len()];
        out.push(s.name());
    }
    out
}

/// Times several programs in turn.
fn time_all<
    V: ExecVariant,
    N: Fn(&Vec<Duration>, u32) -> bool,
    T: Fn(&Vec<Duration>, &Vec<Duration>, u32) -> bool,
>(kept: &Vec<Shape>, vs: &Vec<V>, noisy: &N, tighter: &T) -> (r: Result<Vec<Batch>, String>)
    requires
        kept@.len() == vs@.len(),
        K_SAMPLES * kept@.len() <= usize::MAX,
        judges(*noisy, *tighter),
    ensures
        match r {
            Ok(out) => out@.len() == vs@.len() && forall|i: int|
                0 <= i < vs@.len() ==> timed_right(vs@[i], *noisy, *tighter, #[trigger] out@[i]),
            Err(text) => not_timed(kept@, vs@, text@),
        },
{
    let names = names_of(kept);
    let once = |vi: usize, reps: u32| -> (r: Result<Duration, String>)
        ensures
            vi < vs@.len() ==> call_ensures(V::time_batch, (&vs@[vi as int], reps), r),
        {
            if vi < vs.len() {
                vs[vi].time_batch(reps)
            } else {
                Err(String::new())
            }
        };
    assert forall|vi: int| 0 <= vi < vs@.len() implies #[trigger] within(
        of_variant(once, vi as usize),
        of_program(vs@[vi]),
    ) by {}
    let r = run_interleaved(names.as_slice(), once, noisy, tighter);
    let ghost got = r;
    proof {
        match got {
            Ok(out) => {
                assert forall|i: int| 0 <= i < vs@.len() implies timed_right(
                    vs@[i],
                    *noisy,
                    *tighter,
                    #[trigger] out@[i],
                ) by {
                    assert(within(of_variant(once, i as usize), of_program(vs@[i])));
                    lemma_picks(
                        of_variant(once, i as usize),
                        of_program(vs@[i]),
                        Ok(out@[i].reps_per_sample),
                    );
                    lemma_measured(
                        of_variant(once, i as usize),
                        of_program(vs@[i]),
                        *noisy,
                        *tighter,
                        out@[i],
                    );
                }
            },
            Err(text) => {
                if pilot_error(once, names@, text) {
                    let (vi, e0) = choose|vi: int, e0: String| #[trigger]
                        pilot_failed(once, names@, vi, e0, text);
                    assert(within(of_variant(once, vi as usize), of_program(vs@[vi])));
                    lemma_picks(of_variant(once, vi as usize), of_program(vs@[vi]), Err(e0));
                    assert(pilot_lost(kept@, vs@, vi, e0, text@));
                } else {
                    let (vi, reps) = choose|vi: int, reps: u32| #[trigger]
                        sample_failed(once, names@.len(), vi, reps, text);
                    assert(within(of_variant(once, vi as usize), of_program(vs@[vi])));
                    lemma_picks(of_variant(once, vi as usize), of_program(vs@[vi]), Ok(reps));
                    assert(sample_lost(vs@, vi, reps, text, text@));
                }
            },
        }
    }
    r
}

/// Samples on so many threads.
#[derive(Debug)]
pub struct SweepRow {
    pub threads: usize,
    pub batch: Batch,
}

/// The number of threads of a way of running a program.
pub open spec fn threads_of(s: Shape) -> usize {
    match s {
        Shape::NativePar(p) => p,
        _ => 1,
    }
}

/// A row of the sweep: the samples of what came out of building the source in this way.
pub open spec fn is_row<
    V: ExecVariant,
    B: Fn(&String, Shape) -> Result<V, String>,
    N: Fn(&Vec<Duration>, u32) -> bool,
    T: Fn(&Vec<Duration>, &Vec<Duration>, u32) -> bool,
>(build: B, src: Seq<char>, shape: Shape, noisy: N, tighter: T, row: SweepRow) -> bool {
    row.threads == threads_of(shape) && exists|v: V| #[trigger]
        timed_right(v, noisy, tighter, row.batch) && gives(build, src, shape, Ok::<V, String>(v))
}

/// What is said where a row cannot be built.
pub open spec fn row_unbuilt(k: KernelV, size: i64, shape: Shape, e: Seq<char>) -> Seq<char> {
    k.name + ": efficiency-sweep native-par"@ + natural_text(threads_of(shape) as nat)
        + " failed to compile at N="@ + integer_text(size as int) + ": "@ + e
}

/// What is said where a row cannot be timed.
pub open spec fn row_untimed(k: KernelV, size: i64, shape: Shape, e: Seq<char>) -> Seq<char> {
    "kernel "@ + k.name + " size "@ + integer_text(size as int)
        + " failed during timing (efficiency sweep p="@ + natural_text(threads_of(shape) as nat)
        + "): "@ + e
}

/// A row that cannot be built, and the text says so.
pub open spec fn row_not_built<V, B: Fn(&String, Shape) -> Result<V, String>>(
    build: B,
    k: KernelV,
    size: i64,
    src: Seq<char>,
    shape: Shape,
    e: String,
    text: Seq<char>,
) -> bool {
    gives(build, src, shape, Err::<V, String>(e)) && text == row_unbuilt(k, size, shape, e@)
}

/// Timing a program can end with this error.
pub open spec fn timing_fails<V: ExecVariant>(v: V, e: String) -> bool {
    picks(of_program(v), Err(e)) || exists|reps: u32| #[trigger]
        fails(of_program(v), reps, e) && picks(of_program(v), Ok(reps))
}

/// A row that cannot be timed, and the text says so.
pub open spec fn row_not_timed<V: ExecVariant, B: Fn(&String, Shape) -> Result<V, String>>(
    build: B,
    k: KernelV,
    size: i64,
    src: Seq<char>,
    shape: Shape,
    v: V,
    e: String,
    text: Seq<char>,
) -> bool {
    gives(build, src, shape, Ok::<V, String>(v)) && timing_fails(v, e) && text == row_untimed(
        k,
        size,
        shape,
        e@,
    )
}

/// What the sweep stops with.
pub open spec fn not_swept<V: ExecVariant, B: Fn(&String, Shape) -> Result<V, String>>(
    build: B,
    k: KernelV,
    size: i64,
    src: Seq<char>,
    shapes: Seq<Shape>,
    text: Seq<char>,
) -> bool {
    ||| exists|i: int, e: String|
        0 <= i < shapes.len() && #[trigger] row_not_built::<V, B>(
            build,
            k,
            size,
            src,
            shapes[i],
            e,
            text,
        )
    ||| exists|i: int, v: V, e: String|
        0 <= i < shapes.len() && #[trigger] row_not_timed(
            build,
            k,
            size,
            src,
            shapes[i],
            v,
            e,
            text,
        )
}

/// Times one program.
fn time_one<
    V: ExecVariant,
    N: Fn(&Vec<Duration>, u32) -> bool,
    T: Fn(&Vec<Duration>, &Vec<Duration>, u32) -> bool,
>(v: &V, noisy: &N, tighter: &T) -> (r: Result<Batch, String>)
    requires
        judges(*noisy, *tighter),
    ensures
        match r {
            Ok(m) => timed_right(*v, *noisy, *tighter, m),
            Err(e) => timing_fails(*v, e),
        },
{
    let once = |reps: u32| -> (r: Result<Duration, String>)
        ensures
            call_ensures(V::time_batch, (v, reps), r),
        { v.time_batch(reps) };
    assert(within(of_fn(once), of_program(*v)));
    let r = measure_with_reps(once, noisy, tighter);
    let ghost got = r;
    proof {
        match got {
            Ok(m) => {
                lemma_picks(of_fn(once), of_program(*v), Ok(m.reps_per_sample));
                lemma_measured(of_fn(once), of_program(*v), *noisy, *tighter, m);
            },
            Err(e) => {
                if picks(of_fn(once), Err(e)) {
                    lemma_picks(of_fn(once), of_program(*v), Err(e));
                } else {
                    let reps = choose|reps: u32| #[trigger]
                        fails(of_fn(once), reps, e) && picks(of_fn(once), Ok(reps));
                    lemma_picks(of_fn(once), of_program(*v), Ok(reps));
                    assert(fails(of_program(*v), reps, e));
                }
            },
        }
    }
    r
}

/// Times a source on every number of threads of the sweep.
#[verifier::rlimit(40)]
pub fn sweep_efficiency<
    V: ExecVariant,
    B: Fn(&String, Shape) -> Result<V, String>,
    N: Fn(&Vec<Duration>, u32) -> bool,
    T: Fn(&Vec<Duration>, &Vec<Duration>, u32) -> bool,
>(
    kernel: &KernelDef,
    src: &String,
    size: i64,
    config: &BenchConfig,
    hw: usize,
    build: &B,
    noisy: &N,
    tighter: &T,
) -> (r: Result<Vec<SweepRow>, String>)
    requires
        builds(*build),
        judges(*noisy, *tighter),
    ensures
        ({
            let shapes = swept(kernel@, config.thread_sweep@, config.max_threads, hw);
            match r {
                Ok(rows) => rows@.len() == shapes.len() && forall|i: int|
                    0 <= i < rows@.len() ==> is_row::<V, B, N, T>(
                        *build,
                        src@,
                        shapes[i],
                        *noisy,
                        *tighter,
                        #[trigger] rows@[i],
                    ),
                Err(text) => not_swept::<V, B>(*build, kernel@, size, src@, shapes, text@),
            }
        }),
{
    let shapes = swept_shapes(kernel, config, hw);
    let mut rows: Vec<SweepRow> = Vec::new();
    while rows.len() < shapes.len()
        invariant
            builds(*build),
            judges(*noisy, *tighter),
            shapes@ == swept(kernel@, config.thread_sweep@, config.max_threads, hw),
            rows@.len() <= shapes@.len(),
            forall|i: int|
                0 <= i < rows@.len() ==> is_row::<V, B, N, T>(
                    *build,
                    src@,
                    shapes@[i],
                    *noisy,
                    *tighter,
                    #[trigger] rows@[i],
                ),
        decreases shapes@.len() - rows@.len(),
    {
        let ghost k = rows@.len() as int;
        let s = shapes[rows.len()];
        let p: usize = match s {
            Shape::NativePar(p) => p,
            _ => 1,
        };
        let v = match build(src, s) {
            Ok(v) => v,
            Err(e) => {
                let mut text = kernel.name.as_str().to_owned();
                push_text(&mut text, ": efficiency-sweep native-par");
                push_natural(&mut text, p as u128);
                push_text(&mut text, " failed to compile at N=");
                push_integer(&mut text, size as i128);
                push_text(&mut text, ": ");
                push_text(&mut text, e.as_str());
                proof {
                    assert(build.ensures((src, s), Err::<V, String>(e)));
                    assert(row_not_built::<V, B>(
                        *build,
                        kernel@,
                        size,
                        src@,
                        shapes@[k],
                        e,
                        text@,
                    ));
                }
                return Err(text);
            },
        };
        proof {
            assert(build.ensures((src, s), Ok::<V, String>(v)));
            assert(gives(*build, src@, s, Ok::<V, String>(v)));
        }
        match time_one(&v, noisy, tighter) {
            Ok(batch) => {
                rows.push(SweepRow { threads: p, batch });
                assert(timed_right(v, *noisy, *tighter, rows@[k].batch));
            },
            Err(e) => {
                let mut text = "kernel ".to_owned();
                push_text(&mut text, kernel.name.as_str());
                push_text(&mut text, " size ");
                push_integer(&mut text, size as i128);
                push_text(&mut text, " failed during timing (efficiency sweep p=");
                push_natural(&mut text, p as u128);
                push_text(&mut text, "): ");
                push_text(&mut text, e.as_str());
                proof {
                    assert(row_not_timed(*build, kernel@, size, src@, shapes@[k], v, e, text@));
                }
                return Err(text);
            },
        }
    }
    Ok(rows)
}

// ---------------------------------------------------------------------------
// One kernel
// ---------------------------------------------------------------------------

/// What was measured of a kernel at one size.
#[derive(Debug)]
pub struct KernelSamples {
    pub kernel: String,
    pub n: i64,
    /// The ways in which it was timed.
    pub shapes: Vec<Shape>,
    /// Their samples, in the same order.
    pub batches: Vec<Batch>,
    pub sweep: Vec<SweepRow>,
    pub observed_verdict: Option<String>,
    pub expected_verdict: String,
}

/// The text of an optional label.
pub open spec fn label_text(l: Option<String>) -> Option<Seq<char>> {
    match l {
        Some(s) => Some(s@),
        None => None,
    }
}

/// What was measured comes from programs that were built at this size.
pub open spec fn is_timed<
    V: ExecVariant,
    B: Fn(&String, Shape) -> Result<V, String>,
    N: Fn(&Vec<Duration>, u32) -> bool,
    T: Fn(&Vec<Duration>, &Vec<Duration>, u32) -> bool,
>(
    k: KernelV,
    size: i64,
    shapes: Seq<Shape>,
    build: B,
    noisy: N,
    tighter: T,
    kept: Seq<Shape>,
    batches: Seq<Batch>,
) -> bool {
    exists|vs: Seq<V>| #[trigger]
        is_built(build, k, Some(size), k.at_size(size), shapes, kept, vs, shapes.len())
            && batches.len() == vs.len() && forall|i: int|
            0 <= i < vs.len() ==> timed_right(vs[i], noisy, tighter, #[trigger] batches[i])
}

/// What was measured of a kernel at a size.
pub open spec fn is_point<
    V: ExecVariant,
    B: Fn(&String, Shape) -> Result<V, String>,
    N: Fn(&Vec<Duration>, u32) -> bool,
    T: Fn(&Vec<Duration>, &Vec<Duration>, u32) -> bool,
>(
    k: KernelV,
    size: i64,
    config: BenchConfig,
    hw: usize,
    build: B,
    noisy: N,
    tighter: T,
    label: Option<Seq<char>>,
    p: KernelSamples,
) -> bool {
    let rows = swept(k, config.thread_sweep@, config.max_threads, hw);
    &&& p.kernel@ == k.name
    &&& p.n == size
    &&& p.shapes@.len() > 0
    &&& is_timed::<V, B, N, T>(
        k,
        size,
        timed(k, size, config.thread_sweep@, config.max_threads, hw),
        build,
        noisy,
        tighter,
        p.shapes@,
        p.batches@,
    )
    &&& p.sweep@.len() == rows.len()
    &&& forall|i: int|
        0 <= i < rows.len() ==> is_row::<V, B, N, T>(
            build,
            k.at_size(size),
            rows[i],
            noisy,
            tighter,
            #[trigger] p.sweep@[i],
        )
    &&& label_text(p.observed_verdict) == label
    &&& p.expected_verdict@ == k.expected_verdict.text()
}

/// Timing the programs that were built at a size failed, and the text says so.
pub open spec fn point_untimed<V: ExecVariant, B: Fn(&String, Shape) -> Result<V, String>>(
    k: KernelV,
    size: i64,
    shapes: Seq<Shape>,
    build: B,
    kept: Seq<Shape>,
    vs: Seq<V>,
    e: Seq<char>,
    text: Seq<char>,
) -> bool {
    &&& is_built(build, k, Some(size), k.at_size(size), shapes, kept, vs, shapes.len())
    &&& not_timed(kept, vs, e)
    &&& text == "kernel "@ + k.name + " size "@ + integer_text(size as int)
        + " failed during timing: "@ + e
}

/// Nothing could be built at a size, and the text says so.
pub open spec fn point_empty<V: ExecVariant, B: Fn(&String, Shape) -> Result<V, String>>(
    k: KernelV,
    size: i64,
    shapes: Seq<Shape>,
    build: B,
    kept: Seq<Shape>,
    vs: Seq<V>,
    text: Seq<char>,
) -> bool {
    &&& is_built(build, k, Some(size), k.at_size(size), shapes, kept, vs, shapes.len())
    &&& vs.len() == 0
    &&& text == k.name + ": no executable variant could be built at N="@ + integer_text(
        size as int,
    )
}

/// Why measuring a kernel at a size stops everything.
pub open spec fn no_point<V: ExecVariant, B: Fn(&String, Shape) -> Result<V, String>>(
    k: KernelV,
    size: i64,
    config: BenchConfig,
    hw: usize,
    build: B,
    text: Seq<char>,
) -> bool {
    let shapes = timed(k, size, config.thread_sweep@, config.max_threads, hw);
    ||| not_built::<V, B>(build, k, Some(size), k.at_size(size), shapes, text)
    ||| exists|kept: Seq<Shape>, vs: Seq<V>| #[trigger]
        point_empty(k, size, shapes, build, kept, vs, text)
    ||| exists|kept: Seq<Shape>, vs: Seq<V>, e: Seq<char>| #[trigger]
        point_untimed(k, size, shapes, build, kept, vs, e, text)
    ||| not_swept::<V, B>(
        build,
        k,
        size,
        k.at_size(size),
        swept(k, config.thread_sweep@, config.max_threads, hw),
        text,
    )
}

/// No more is built than asked for.
proof fn lemma_built_len<V, B: Fn(&String, Shape) -> Result<V, String>>(
    build: B,
    k: KernelV,
    size: Option<i64>,
    src: Seq<char>,
    shapes: Seq<Shape>,
    kept: Seq<Shape>,
    vs: Seq<V>,
    n: nat,
)
    requires
        is_built(build, k, size, src, shapes, kept, vs, n),
    ensures
        kept.len() == vs.len() <= n,
    decreases n,
{
    if n > 0 {
        if kept.len() > 0 && is_built(
            build,
            k,
            size,
            src,
            shapes,
            kept.drop_last(),
            vs.drop_last(),
            (n - 1) as nat,
        ) {
            lemma_built_len(
                build,
                k,
                size,
                src,
                shapes,
                kept.drop_last(),
                vs.drop_last(),
                (n - 1) as nat,
            );
        }
        if is_built(build, k, size, src, shapes, kept, vs, (n - 1) as nat) {
            lemma_built_len(build, k, size, src, shapes, kept, vs, (n - 1) as nat);
        }
    }
}

/// A copy of an optional label.
fn copy_label(l: &Option<String>) -> (r: Option<String>)
    ensures
        label_text(r) == label_text(*l),
{
    match l {
        Some(s) => Some(s.as_str().to_owned()),
        None => None,
    }
}

/// Measures a kernel at one size.
#[verifier::rlimit(40)]
fn measure_size<
    V: ExecVariant,
    B: Fn(&String, Shape) -> Result<V, String>,
    N: Fn(&Vec<Duration>, u32) -> bool,
    T: Fn(&Vec<Duration>, &Vec<Duration>, u32) -> bool,
>(
    kernel: &KernelDef,
    size: i64,
    config: &BenchConfig,
    hw: usize,
    label: &Option<String>,
    build: &B,
    noisy: &N,
    tighter: &T,
) -> (r: Result<KernelSamples, String>)
    requires
        builds(*build),
        judges(*noisy, *tighter),
    ensures
        match r {
            Ok(p) => is_point::<V, B, N, T>(
                kernel@,
                size,
                *config,
                hw,
                *build,
                *noisy,
                *tighter,
                label_text(*label),
                p,
            ),
            Err(text) => no_point::<V, B>(kernel@, size, *config, hw, *build, text@),
        },
{
    let src = kernel.source_at_size(size);
    let shapes = timed_shapes(kernel, size, config, hw);
    let (kept, vs) = match build_all(kernel, Some(size), &src, &shapes, build) {
        Ok(b) => b,
        Err(e) => {
            return Err(e);
        },
    };
    if vs.len() == 0 {
        let mut text = kernel.name.as_str().to_owned();
        push_text(&mut text, ": no executable variant could be built at N=");
        push_integer(&mut text, size as i128);
        proof {
            assert(point_empty(kernel@, size, shapes@, *build, kept@, vs@, text@));
        }
        return Err(text);
    }
    proof {
        lemma_built_len(
            *build,
            kernel@,
            Some(size),
            src@,
            shapes@,
            kept@,
            vs@,
            shapes@.len(),
        );
    }
    let batches = match time_all(&kept, &vs, noisy, tighter) {
        Ok(b) => b,
        Err(e) => {
            let mut text = "kernel ".to_owned();
            push_text(&mut text, kernel.name.as_str());
            push_text(&mut text, " size ");
            push_integer(&mut text, size as i128);
            push_text(&mut text, " failed during timing: ");
            push_text(&mut text, e.as_str());
            proof {
                assert(point_untimed(
                    kernel@,
                    size,
                    shapes@,
                    *build,
                    kept@,
                    vs@,
                    e@,
                    text@,
                ));
            }
            return Err(text);
        },
    };
    let sweep = match sweep_efficiency::<V, B, N, T>(
        kernel,
        &src,
        size,
        config,
        hw,
        build,
        noisy,
        tighter,
    ) {
        Ok(rows) => rows,
        Err(e) => {
            return Err(e);
        },
    };
    Ok(
        KernelSamples {
            kernel: kernel.name.as_str().to_owned(),
            n: size,
            shapes: kept,
            batches,
            sweep,
            observed_verdict: copy_label(label),
            expected_verdict: kernel.expected_verdict.label(),
        },
    )
}

/// What the verdict on the loops of the kernel is.
pub open spec fn judged(
    kernel: KernelDef,
    view: PlanView,
    g: Result<Option<String>, String>,
) -> bool {
    forall|v: Seq<Judgement>, any_loops: bool|
        is_view(view, v, any_loops) ==> #[trigger] says(g, gate(kernel@, v, any_loops))
}

/// What measuring a kernel gives, once its verdict is right.
pub open spec fn is_campaign<
    V: ExecVariant,
    B: Fn(&String, Shape) -> Result<V, String>,
    F: Fn(u64, &String, &String) -> bool,
    S: Fn(&Vec<String>) -> String,
    N: Fn(&Vec<Duration>, u32) -> bool,
    T: Fn(&Vec<Duration>, &Vec<Duration>, u32) -> bool,
>(
    kernel: KernelDef,
    config: BenchConfig,
    hw: usize,
    label: Option<Seq<char>>,
    build: B,
    close: F,
    show: S,
    noisy: N,
    tighter: T,
    written: Seq<char>,
    r: Result<Vec<KernelSamples>, String>,
) -> bool {
    let shapes = checked(kernel@, config.thread_sweep@, config.max_threads, hw);
    match r {
        Ok(points) => {
            &&& parity::<V, B, F>(kernel, shapes, build, close)
            &&& points@.len() == kernel.sizes@.len()
            &&& forall|i: int|
                0 <= i < points@.len() ==> is_point::<V, B, N, T>(
                    kernel@,
                    kernel.sizes@[i],
                    config,
                    hw,
                    build,
                    noisy,
                    tighter,
                    label,
                    #[trigger] points@[i],
                )
        },
        Err(text) => {
            ||| no_parity::<V, B, F, S>(kernel, shapes, build, close, show, written, text@)
            ||| parity::<V, B, F>(kernel, shapes, build, close) && exists|i: int|
                0 <= i < kernel.sizes@.len() && no_point::<V, B>(
                    kernel@,
                    #[trigger] kernel.sizes@[i],
                    config,
                    hw,
                    build,
                    text@,
                )
        },
    }
}

/// Measures a kernel over its sizes. The loops must have the verdict that is expected of
/// them, and every way of running it must print what it has to print; otherwise nothing
/// is timed, and the error says why.
#[verifier::rlimit(40)]
pub fn measure_kernel<
    V: ExecVariant,
    B: Fn(&String, Shape) -> Result<V, String>,
    F: Fn(u64, &String, &String) -> bool,
    S: Fn(&Vec<String>) -> String,
    N: Fn(&Vec<Duration>, u32) -> bool,
    T: Fn(&Vec<Duration>, &Vec<Duration>, u32) -> bool,
>(
    kernel: &KernelDef,
    config: &BenchConfig,
    hw: usize,
    view: &PlanView,
    build: &B,
    close: &F,
    show: &S,
    noisy: &N,
    tighter: &T,
    written: &str,
) -> (r: Result<Vec<KernelSamples>, String>)
    requires
        builds(*build),
        total(*close),
        forall|v: &Vec<String>| #[trigger] show.requires((v,)),
        judges(*noisy, *tighter),
    ensures
        exists|g: Result<Option<String>, String>| #[trigger]
            judged(*kernel, *view, g) && match g {
                Err(e) => r matches Err(text) && text@ == e@,
                Ok(label) => is_campaign::<V, B, F, S, N, T>(
                    *kernel,
                    *config,
                    hw,
                    label_text(label),
                    *build,
                    *close,
                    *show,
                    *noisy,
                    *tighter,
                    written@,
                    r,
                ),
            },
{
    let label = match verdict_gate(kernel, view) {
        Ok(l) => l,
        Err(e) => {
            assert(judged(*kernel, *view, Err(e)));
            return Err(e);
        },
    };
    assert(judged(*kernel, *view, Ok(label)));
    if let Err(text) = assert_parity_all_variants::<V, B, F, S>(
        kernel,
        config,
        hw,
        build,
        close,
        show,
        written,
    ) {
        return Err(text);
    }
    let mut points: Vec<KernelSamples> = Vec::new();
    while points.len() < kernel.sizes.len()
        invariant
            builds(*build),
            judges(*noisy, *tighter),
            judged(*kernel, *view, Ok(label)),
            parity::<V, B, F>(
                *kernel,
                checked(kernel@, config.thread_sweep@, config.max_threads, hw),
                *build,
                *close,
            ),
            points@.len() <= kernel.sizes@.len(),
            forall|i: int|
                0 <= i < points@.len() ==> is_point::<V, B, N, T>(
                    kernel@,
                    kernel.sizes@[i],
                    *config,
                    hw,
                    *build,
                    *noisy,
                    *tighter,
                    label_text(label),
                    #[trigger] points@[i],
                ),
        decreases kernel.sizes@.len() - points@.len(),
    {
        let k: usize = points.len();
        let size: i64 = kernel.sizes[k];
        match measure_size::<V, B, N, T>(
            kernel,
            size,
            config,
            hw,
            &label,
            build,
            noisy,
            tighter,
        ) {
            Ok(p) => {
                points.push(p);
            },
            Err(text) => {
                assert(no_point::<V, B>(kernel@, kernel.sizes@[k as int], *config, hw, *build, text@));
                return Err(text);
            },
        }
    }
    Ok(points)
}

} // verus!
