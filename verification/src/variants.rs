//! The ways in which a program can be run and timed.
use vstd::prelude::*;

use crate::adapter::program_fits;
use crate::ast::{Program, TypedProgram};
use crate::clock::{clock, nanos_since};
use crate::error::RunError;
use crate::floats::{FloatOp, FloatWorld, Floats, Precision};
use crate::interp::{RunOutput, St};
use crate::ir::FuncIr;
use crate::jit::JitEngine;
use crate::kernels::RunOutputLike;
use crate::parallel::{PlannedRegion, RegionIds};
use crate::pipeline::{compilable, compile_program, is_built, Analysis};
use crate::run::{is_run, run_with_source};
use crate::text::{integer_text, push_integer, push_text, texts};
use crate::timing::Duration;
use crate::value::{fnv, hash_byte, hash_text, FNV_OFFSET};

verus! {

/// One way of running a program.
pub trait ExecVariant {
    /// The name under which it is reported.
    fn name(&self) -> (r: &str);

    /// Runs the program once.
    fn run_once(&self) -> (r: Result<RunOutputLike, String>);

    /// Times `reps` runs as one batch. The first run that fails ends it, and its error is
    /// the error of the batch.
    fn time_batch(&self, reps: u32) -> (r: Result<Duration, String>)
        default_ensures
            r matches Err(e) ==> reps > 0 && call_ensures(Self::run_once, (self,), Err(e)),
            r is Ok && reps > 0 ==> exists|out: RunOutputLike|
                call_ensures(Self::run_once, (self,), Ok(out)),
    {
        let start = clock();
        let mut k: u32 = 0;
        while k < reps
            invariant
                k <= reps,
                k > 0 ==> exists|out: RunOutputLike|
                    call_ensures(Self::run_once, (self,), Ok(out)),
            decreases reps - k,
        {
            match self.run_once() {
                Ok(_) => {},
                Err(e) => {
                    return Err(e);
                },
            }
            k = k + 1;
        }
        Ok(Duration::from_nanos(nanos_since(&start)))
    }
}

// ---------------------------------------------------------------------------
// Checksums of printed lines
// ---------------------------------------------------------------------------

/// The checksum of the first `k` lines, each with a line end.
pub open spec fn lines_checksum(h: u64, lines: Seq<Seq<char>>, k: nat) -> u64
    decreases k,
{
    if k == 0 {
        h
    } else {
        fnv(
            fnv(
                lines_checksum(h, lines, (k - 1) as nat),
                vstd::utf8::encode_utf8(lines[k - 1]),
            ),
            seq![10u8],
        )
    }
}

/// The checksum of printed lines.
pub fn printed_checksum(lines: &Vec<String>) -> (r: u64)
    ensures
        r == lines_checksum(FNV_OFFSET, texts(lines@), lines@.len()),
{
    let mut h: u64 = FNV_OFFSET;
    let mut k: usize = 0;
    while k < lines.len()
        invariant
            k <= lines@.len(),
            h == lines_checksum(FNV_OFFSET, texts(lines@), k as nat),
        decreases lines@.len() - k,
    {
        proof {
            assert(texts(lines@)[k as int] == lines@[k as int]@);
            reveal_with_fuel(fnv, 2);
        }
        h = hash_text(h, lines[k].as_str());
        h = hash_byte(h, 10);
        k = k + 1;
    }
    h
}

/// A run that has printed lines.
pub open spec fn after_lines(s: St, lines: Seq<Seq<char>>, k: nat) -> St
    decreases k,
{
    if k == 0 {
        s
    } else {
        after_lines(s, lines, (k - 1) as nat).print(lines[k - 1])
    }
}

/// The checksum of printed lines is what the interpreter computes while it prints them.
pub proof fn law_checksums_agree(s: St, lines: Seq<Seq<char>>, k: nat)
    requires
        k <= lines.len(),
    ensures
        after_lines(s, lines, k).checksum == lines_checksum(s.checksum, lines, k),
    decreases k,
{
    if k > 0 {
        law_checksums_agree(s, lines, (k - 1) as nat);
    }
}

// ---------------------------------------------------------------------------
// The interpreter
// ---------------------------------------------------------------------------

/// What a run of the interpreter is reported as.
pub open spec fn reported_as(
    src: Seq<char>,
    r: Result<RunOutput, RunError>,
    out: Result<RunOutputLike, String>,
) -> bool {
    match r {
        Ok(o) => out matches Ok(p) && texts(p.printed@) == texts(o.printed@) && p.checksum
            == o.checksum,
        Err(e) => out matches Err(t) && t@ == e.rendered(src),
    }
}

/// A program that the interpreter runs.
#[derive(Debug)]
pub struct InterpVariant<F, P> where
    F: Fn(FloatOp, Precision, u64, u64) -> u64,
    P: Fn(Precision, u64) -> String,
 {
    src: String,
    parsed: Result<Program, String>,
    typed: TypedProgram,
    floats: Floats<F, P>,
}

impl<F, P> InterpVariant<F, P> where
    F: Fn(FloatOp, Precision, u64, u64) -> u64,
    P: Fn(Precision, u64) -> String,
 {
    /// What holds of every one of them.
    #[verifier::type_invariant]
    closed spec fn inv(self) -> bool {
        &&& self.floats.functional()
        &&& program_fits(self.typed)
        &&& vstd::utf8::encode_utf8(self.src@).len() < u32::MAX
        &&& self.parsed is Ok
    }

    /// Its source.
    pub closed spec fn source(self) -> Seq<char> {
        self.src@
    }

    /// The program as it is written.
    pub closed spec fn written(self) -> Result<Program, String> {
        self.parsed
    }

    /// What the checker found out about it.
    pub closed spec fn checked(self) -> TypedProgram {
        self.typed
    }

    /// Its floating-point arithmetic.
    pub closed spec fn world(self) -> FloatWorld {
        self.floats.world()
    }

    /// Takes what the parser and the checker say of a source.
    pub fn new(
        src: &str,
        parsed: Result<Program, String>,
        checked: Result<TypedProgram, String>,
        floats: Floats<F, P>,
    ) -> (r: Result<Self, String>)
        requires
            floats.functional(),
            checked matches Ok(t) ==> program_fits(t),
            vstd::utf8::encode_utf8(src@).len() < u32::MAX,
        ensures
            match (parsed, checked) {
                (Err(e), _) => r matches Err(t) && t@ == "syntax error: "@ + e@,
                (Ok(_), Err(e)) => r == Err::<Self, String>(e),
                (Ok(_), Ok(t)) => r matches Ok(v) && v.source() == src@ && v.written() == parsed
                    && v.checked() == t && v.world() == floats.world(),
            },
    {
        match parsed {
            Err(e) => {
                let mut t = "syntax error: ".to_owned();
                push_text(&mut t, e.as_str());
                Err(t)
            },
            Ok(p) => match checked {
                Err(e) => Err(e),
                Ok(t) => Ok(
                    InterpVariant { src: src.to_owned(), parsed: Ok(p), typed: t, floats },
                ),
            },
        }
    }

    /// Runs the program.
    pub fn execute(&self) -> (out: Result<RunOutputLike, String>)
        ensures
            exists|r: Result<RunOutput, RunError>| #[trigger]
                is_run(self.written(), self.checked(), self.world(), r) && reported_as(
                    self.source(),
                    r,
                    out,
                ),
    {
        proof {
            use_type_invariant(self);
        }
        let r = run_with_source(&self.parsed, &self.typed, &self.floats);
        assert(is_run(self.written(), self.checked(), self.world(), r));
        match r {
            Ok(o) => Ok(RunOutputLike::from_engine(&o)),
            Err(e) => Err(e.render(self.src.as_str())),
        }
    }
}

impl<F, P> ExecVariant for InterpVariant<F, P> where
    F: Fn(FloatOp, Precision, u64, u64) -> u64,
    P: Fn(Precision, u64) -> String,
 {
    fn name(&self) -> (r: &str)
        ensures
            r@ == "interp"@,
    {
        "interp"
    }

    fn run_once(&self) -> (out: Result<RunOutputLike, String>)
        ensures
            exists|r: Result<RunOutput, RunError>| #[trigger]
                is_run(self.written(), self.checked(), self.world(), r) && reported_as(
                    self.source(),
                    r,
                    out,
                ),
    {
        self.execute()
    }
}

/// A program that the interpreter runs.
pub fn interp_variant<
    F: Fn(FloatOp, Precision, u64, u64) -> u64,
    P: Fn(Precision, u64) -> String,
>(
    src: &str,
    parsed: Result<Program, String>,
    checked: Result<TypedProgram, String>,
    floats: Floats<F, P>,
) -> (r: Result<InterpVariant<F, P>, String>)
    requires
        floats.functional(),
        checked matches Ok(t) ==> program_fits(t),
        vstd::utf8::encode_utf8(src@).len() < u32::MAX,
    ensures
        match (parsed, checked) {
            (Err(e), _) => r matches Err(t) && t@ == "syntax error: "@ + e@,
            (Ok(_), Err(e)) => r == Err::<InterpVariant<F, P>, String>(e),
            (Ok(_), Ok(t)) => r matches Ok(v) && v.source() == src@ && v.written() == parsed
                && v.checked() == t && v.world() == floats.world(),
        },
{
    InterpVariant::new(src, parsed, checked, floats)
}

// ---------------------------------------------------------------------------
// Native code
// ---------------------------------------------------------------------------

/// Whether native code can be run.
#[derive(Clone, Copy, Debug, PartialEq, Eq)]
pub enum NativeAvailability {
    Ready,
    /// It cannot, for this reason.
    Unavailable(&'static str),
}

/// Native code can always be run; where a program cannot be compiled, compiling says so.
pub fn native_availability() -> (r: NativeAvailability)
    ensures
        r is Ready,
{
    NativeAvailability::Ready
}

/// What a run of machine code gives.
#[derive(Debug)]
pub struct NativeRun {
    pub printed: Vec<String>,
    pub result: Result<(), String>,
    /// The trap that ended it, with its code and its two numbers.
    pub trap: Option<(i64, i64, i64)>,
}

/// What a run of machine code is reported as: its error, else its trap, else what it
/// printed.
pub open spec fn native_outcome(run: NativeRun, out: Result<RunOutputLike, String>) -> bool {
    match (run.result, run.trap) {
        (Err(e), _) => out == Err::<RunOutputLike, String>(e),
        (Ok(_), Some((code, a, b))) => out matches Err(t) && t@ == "runtime trap code="@
            + integer_text(code as int) + " at ("@ + integer_text(a as int) + ","@ + integer_text(
            b as int,
        ) + ")"@,
        (Ok(_), None) => out matches Ok(o) && o.printed == run.printed && o.checksum
            == lines_checksum(FNV_OFFSET, texts(run.printed@), run.printed@.len()),
    }
}

/// Reports a run of machine code.
pub fn report_native(run: NativeRun) -> (out: Result<RunOutputLike, String>)
    ensures
        native_outcome(run, out),
{
    match run.result {
        Err(e) => Err(e),
        Ok(_) => match run.trap {
            Some((code, a, b)) => {
                let mut t = "runtime trap code=".to_owned();
                push_integer(&mut t, code as i128);
                push_text(&mut t, " at (");
                push_integer(&mut t, a as i128);
                push_text(&mut t, ",");
                push_integer(&mut t, b as i128);
                push_text(&mut t, ")");
                Err(t)
            },
            None => {
                let checksum = printed_checksum(&run.printed);
                Ok(RunOutputLike::new(run.printed, checksum))
            },
        },
    }
}

/// A program that is compiled to machine code. `runner` runs the code, on at most as many
/// threads as it is told.
#[derive(Debug)]
pub struct NativeVariant<R> where R: Fn(&JitEngine, Option<usize>) -> NativeRun {
    engine: JitEngine,
    label: &'static str,
    threads: Option<usize>,
    runner: R,
}

impl<R> NativeVariant<R> where R: Fn(&JitEngine, Option<usize>) -> NativeRun {
    /// What holds of every one of them.
    #[verifier::type_invariant]
    closed spec fn inv(self) -> bool {
        forall|e: &JitEngine, t: Option<usize>| #[trigger] self.runner.requires((e, t))
    }

    /// The compiled program.
    pub closed spec fn code(self) -> JitEngine {
        self.engine
    }

    /// The name under which it is reported.
    pub closed spec fn title(self) -> Seq<char> {
        self.label@
    }

    /// The greatest number of threads.
    pub closed spec fn pinned(self) -> Option<usize> {
        self.threads
    }

    /// What runs it.
    pub closed spec fn machine(self) -> R {
        self.runner
    }

    /// Compiles a program.
    pub fn new(funcs: &Vec<FuncIr>, unchecked: bool, ids: &mut RegionIds, runner: R) -> (r: Result<
        Self,
        String,
    >)
        requires
            forall|i: int| 0 <= i < funcs@.len() ==> compilable(#[trigger] funcs@[i]),
            forall|e: &JitEngine, t: Option<usize>| #[trigger] runner.requires((e, t)),
        ensures
            exists|a: Analysis, planned: Seq<PlannedRegion>, built: Result<JitEngine, String>|
                #[trigger] is_built(funcs@, unchecked, old(ids).next, a, planned, built)
                    && is_variant(built, "native-seq"@, None, runner, r),
    {
        let built = compile_program(funcs, unchecked, ids);
        let ghost b = built;
        let r = match built {
            Ok(engine) => Ok(NativeVariant { engine, label: "native-seq", threads: None, runner }),
            Err(e) => Err(e),
        };
        proof {
            assert(is_variant(b, "native-seq"@, None, runner, r));
        }
        r
    }

    /// Compiles a program that runs on at most `p` threads.
    pub fn new_parallel(funcs: &Vec<FuncIr>, p: usize, ids: &mut RegionIds, runner: R) -> (r: Result<
        Self,
        String,
    >)
        requires
            forall|i: int| 0 <= i < funcs@.len() ==> compilable(#[trigger] funcs@[i]),
            forall|e: &JitEngine, t: Option<usize>| #[trigger] runner.requires((e, t)),
        ensures
            exists|a: Analysis, planned: Seq<PlannedRegion>, built: Result<JitEngine, String>|
                #[trigger] is_built(funcs@, false, old(ids).next, a, planned, built)
                    && is_variant(built, "native-par"@, Some(p), runner, r),
    {
        let built = compile_program(funcs, false, ids);
        let ghost b = built;
        let r = match built {
            Ok(engine) => Ok(
                NativeVariant { engine, label: "native-par", threads: Some(p), runner },
            ),
            Err(e) => Err(e),
        };
        proof {
            assert(is_variant(b, "native-par"@, Some(p), runner, r));
        }
        r
    }

    /// Runs the program.
    pub fn execute(&self) -> (out: Result<RunOutputLike, String>)
        ensures
            exists|run: NativeRun| #[trigger]
                native_outcome(run, out) && self.machine().ensures(
                    (&self.code(), self.pinned()),
                    run,
                ),
    {
        proof {
            use_type_invariant(self);
        }
        let run = (self.runner)(&self.engine, self.threads);
        let ghost g = run;
        let out = report_native(run);
        assert(native_outcome(g, out));
        out
    }
}

/// What compiling gives as a way of running the program.
pub open spec fn is_variant<R: Fn(&JitEngine, Option<usize>) -> NativeRun>(
    built: Result<JitEngine, String>,
    label: Seq<char>,
    threads: Option<usize>,
    runner: R,
    r: Result<NativeVariant<R>, String>,
) -> bool {
    match built {
        Ok(engine) => r matches Ok(v) && v.code() == engine && v.title() == label && v.pinned()
            == threads && v.machine() == runner,
        Err(e) => r == Err::<NativeVariant<R>, String>(e),
    }
}

impl<R> ExecVariant for NativeVariant<R> where R: Fn(&JitEngine, Option<usize>) -> NativeRun {
    fn name(&self) -> (r: &str)
        ensures
            r@ == self.title(),
    {
        self.label
    }

    fn run_once(&self) -> (out: Result<RunOutputLike, String>)
        ensures
            exists|run: NativeRun| #[trigger]
                native_outcome(run, out) && self.machine().ensures(
                    (&self.code(), self.pinned()),
                    run,
                ),
    {
        self.execute()
    }
}

/// A program that is compiled to machine code, if that can be run.
pub fn native_variant<R: Fn(&JitEngine, Option<usize>) -> NativeRun>(
    funcs: &Vec<FuncIr>,
    ids: &mut RegionIds,
    runner: R,
) -> (r: Result<NativeVariant<R>, String>)
    requires
        forall|i: int| 0 <= i < funcs@.len() ==> compilable(#[trigger] funcs@[i]),
        forall|e: &JitEngine, t: Option<usize>| #[trigger] runner.requires((e, t)),
    ensures
        exists|a: Analysis, planned: Seq<PlannedRegion>, built: Result<JitEngine, String>|
            #[trigger] is_built(funcs@, false, old(ids).next, a, planned, built) && is_variant(
                built,
                "native-seq"@,
                None,
                runner,
                r,
            ),
{
    match native_availability() {
        NativeAvailability::Ready => NativeVariant::new(funcs, false, ids, runner),
        NativeAvailability::Unavailable(why) => Err(why.to_owned()),
    }
}

} // verus!
