//! How often and in which order programs are timed.
//!
//! A pilot finds out how many repetitions make one sample long enough. Some batches warm
//! up and are thrown away, then samples are taken. Where they vary too much, they are
//! taken once more, and the tighter ones are kept. Several programs are sampled in turn,
//! so that a drift of the machine meets all of them alike.
//!
//! What a batch takes, and how much samples vary, is found out by functions that come
//! from outside.
use vstd::arithmetic::div_mod::{
    lemma_fundamental_div_mod, lemma_fundamental_div_mod_converse, lemma_mod_bound,
};
use vstd::arithmetic::mul::{lemma_mul_is_commutative, lemma_mul_is_distributive_add_other_way};
use vstd::prelude::*;

use crate::clock::{clock, nanos_since};
use crate::text::push_text;

verus! {

/// How many samples are taken.
pub const K_SAMPLES: usize = 15;

/// How many batches warm up.
pub const WARMUPS: usize = 3;

/// A sample takes at least this many nanoseconds.
pub const SAMPLE_MIN_NANOS: u128 = 100_000_000;

/// A sample takes at most this many nanoseconds.
pub const SAMPLE_MAX_NANOS: u128 = 250_000_000;

/// A pilot stops at this many repetitions.
pub const MAX_REPS: u32 = 0x100_0000;

/// A span of time.
#[derive(Clone, Copy, Debug, PartialEq, Eq, Structural)]
pub struct Duration {
    nanos: u128,
}

impl Duration {
    /// Its nanoseconds.
    pub closed spec fn nanos(self) -> nat {
        self.nanos as nat
    }

    /// So many nanoseconds.
    pub fn from_nanos(n: u128) -> (r: Duration)
        ensures
            r.nanos() == n,
    {
        Duration { nanos: n }
    }

    /// So many milliseconds.
    pub fn from_millis(n: u64) -> (r: Duration)
        ensures
            r.nanos() == n * 1_000_000,
    {
        Duration { nanos: n as u128 * 1_000_000 }
    }

    /// Its nanoseconds.
    pub fn as_nanos(self) -> (r: u128)
        ensures
            r == self.nanos(),
    {
        self.nanos
    }
}

/// A batch of repetitions that was timed as a whole.
#[derive(Clone, Copy, Debug, PartialEq, Eq, Structural)]
pub struct Sample {
    pub elapsed: Duration,
    pub reps: u32,
}

impl Sample {
    /// What one repetition took, rounded down.
    pub fn per_rep(&self) -> (r: Duration)
        ensures
            r.nanos() == self.elapsed.nanos() / (if self.reps == 0 {
                1nat
            } else {
                self.reps as nat
            }),
    {
        let n: u128 = if self.reps == 0 {
            1
        } else {
            self.reps as u128
        };
        Duration::from_nanos(self.elapsed.as_nanos() / n)
    }
}

// ---------------------------------------------------------------------------
// The pilot
// ---------------------------------------------------------------------------

/// What a pilot does after a batch.
#[derive(Clone, Copy, Debug, PartialEq, Eq, Structural)]
pub enum Pilot {
    /// This many repetitions make a sample.
    Done(u32),
    /// This many are tried next.
    Again(u32),
}

/// What a pilot does after `reps` repetitions took that many nanoseconds: it doubles until
/// the least time is reached, and halves once where that overshoots the greatest.
pub open spec fn piloted(reps: u32, nanos: nat) -> Pilot {
    if nanos >= SAMPLE_MIN_NANOS {
        if nanos > SAMPLE_MAX_NANOS && reps >= 2 {
            Pilot::Done((reps / 2) as u32)
        } else {
            Pilot::Done(reps)
        }
    } else if reps >= MAX_REPS {
        Pilot::Done(reps)
    } else {
        Pilot::Again((2 * reps) as u32)
    }
}

/// What a pilot does after a batch.
pub fn pilot_step(reps: u32, elapsed: Duration) -> (r: Pilot)
    ensures
        r == piloted(reps, elapsed.nanos()),
{
    let nanos: u128 = elapsed.as_nanos();
    if nanos >= SAMPLE_MIN_NANOS {
        if nanos > SAMPLE_MAX_NANOS && reps >= 2 {
            Pilot::Done(reps / 2)
        } else {
            Pilot::Done(reps)
        }
    } else if reps >= MAX_REPS {
        Pilot::Done(reps)
    } else {
        Pilot::Again(2 * reps)
    }
}

/// What can come out of a batch of so many repetitions.
pub type Outcomes = spec_fn(u32, Result<Duration, String>) -> bool;

/// How many repetitions batch `k` of a pilot has.
pub open spec fn reps_at(k: nat) -> nat
    decreases k,
{
    if k == 0 {
        1
    } else {
        2 * reps_at((k - 1) as nat)
    }
}

/// The batches of a pilot took these times, and after each of them it went on.
pub open spec fn went_on(out: Outcomes, ts: Seq<Duration>) -> bool {
    forall|i: int|
        #![trigger ts[i]]
        0 <= i < ts.len() ==> {
            &&& out(reps_at(i as nat) as u32, Ok(ts[i]))
            &&& piloted(reps_at(i as nat) as u32, ts[i].nanos()) is Again
        }
}

/// A pilot ended with this: with a number of repetitions, or with the error of the first
/// batch that failed.
pub open spec fn picked(out: Outcomes, ts: Seq<Duration>, r: Result<u32, String>) -> bool {
    &&& went_on(out, ts)
    &&& match r {
        Ok(n) => exists|t: Duration| #[trigger]
            out(reps_at(ts.len()) as u32, Ok(t)) && piloted(reps_at(ts.len()) as u32, t.nanos())
                == Pilot::Done(n),
        Err(e) => out(reps_at(ts.len()) as u32, Err(e)),
    }
}

/// A pilot can end with this.
pub open spec fn picks(out: Outcomes, r: Result<u32, String>) -> bool {
    exists|ts: Seq<Duration>| #[trigger] picked(out, ts, r)
}

/// What can come out of a function.
pub open spec fn of_fn<F: Fn(u32) -> Result<Duration, String>>(f: F) -> Outcomes {
    |reps: u32, r: Result<Duration, String>| f.ensures((reps,), r)
}

/// Doubles the repetitions until a sample is long enough.
fn pilot<F: Fn(u32) -> Result<Duration, String>>(run_batch: &F) -> (r: Result<u32, String>)
    requires
        forall|reps: u32| #[trigger] run_batch.requires((reps,)),
    ensures
        picks(of_fn(*run_batch), r),
        r matches Ok(n) ==> n >= 1,
{
    let mut reps: u32 = 1;
    let ghost mut ts: Seq<Duration> = seq![];
    let ghost out = of_fn(*run_batch);
    loop
        invariant
            forall|reps: u32| #[trigger] run_batch.requires((reps,)),
            out == of_fn(*run_batch),
            1 <= reps < 2 * MAX_REPS,
            reps == reps_at(ts.len()),
            went_on(out, ts),
        decreases 2 * MAX_REPS - reps,
    {
        match run_batch(reps) {
            Err(e) => {
                proof {
                    assert(out(reps, Err(e)));
                    assert(picked(out, ts, Err(e)));
                }
                return Err(e);
            },
            Ok(t) => {
                assert(out(reps, Ok(t)));
                match pilot_step(reps, t) {
                    Pilot::Done(n) => {
                        proof {
                            assert(picked(out, ts, Ok(n)));
                        }
                        return Ok(n);
                    },
                    Pilot::Again(more) => {
                        proof {
                            ts = ts.push(t);
                        }
                        reps = more;
                    },
                }
            },
        }
    }
}

/// Finds the number of repetitions that makes a sample long enough.
pub fn pick_reps<F: Fn(u32) -> Result<Duration, String>>(run_batch: F) -> (r: Result<u32, String>)
    requires
        forall|reps: u32| #[trigger] run_batch.requires((reps,)),
    ensures
        picks(of_fn(run_batch), r),
        r matches Ok(n) ==> n >= 1,
{
    pilot(&run_batch)
}

/// Where a pilot ends that has come to `reps`, if every repetition takes `cost`.
pub open spec fn settled(cost: nat, reps: u32) -> u32
    decreases 2 * MAX_REPS - reps,
{
    match piloted(reps, reps as nat * cost) {
        Pilot::Done(n) => n,
        Pilot::Again(m) => if 0 < reps {
            settled(cost, m)
        } else {
            reps
        },
    }
}

/// Every repetition takes `cost`, and none fails.
pub open spec fn always_takes(out: Outcomes, cost: nat) -> bool {
    forall|reps: u32, r: Result<Duration, String>| #[trigger]
        out(reps, r) ==> (r matches Ok(t) && t.nanos() == reps as nat * cost)
}

/// Where every repetition takes the same time, the samples of every pilot land in the
/// window: unless one repetition alone takes longer, or all that a pilot tries take less.
pub proof fn law_samples_land_in_the_window(out: Outcomes, cost: nat, n: u32)
    requires
        always_takes(out, cost),
        picks(out, Ok(n)),
        cost * MAX_REPS >= SAMPLE_MIN_NANOS,
        cost <= SAMPLE_MAX_NANOS,
    ensures
        SAMPLE_MIN_NANOS <= n * cost <= SAMPLE_MAX_NANOS,
{
    let ts = choose|ts: Seq<Duration>| #[trigger] picked(out, ts, Ok(n));
    lemma_picked(out, cost, ts, n, 0);
    lemma_settles(cost, 1, 0);
}

/// A repetition that takes longer than a sample may is taken alone.
pub proof fn law_slow_repetitions_stand_alone(out: Outcomes, cost: nat, n: u32)
    requires
        always_takes(out, cost),
        picks(out, Ok(n)),
        cost > SAMPLE_MAX_NANOS,
    ensures
        n == 1,
{
    let ts = choose|ts: Seq<Duration>| #[trigger] picked(out, ts, Ok(n));
    lemma_picked(out, cost, ts, n, 0);
}

/// A pilot that goes on stays below the greatest number of repetitions.
proof fn lemma_pilot_room(out: Outcomes, ts: Seq<Duration>, k: nat)
    requires
        went_on(out, ts),
        k <= ts.len(),
    ensures
        1 <= reps_at(k) < 2 * MAX_REPS,
    decreases k,
{
    if k > 0 {
        lemma_pilot_room(out, ts, (k - 1) as nat);
        let t = ts[k - 1];
    }
}

/// A pilot over even repetitions ends where it settles.
proof fn lemma_picked(out: Outcomes, cost: nat, ts: Seq<Duration>, n: u32, k: nat)
    requires
        always_takes(out, cost),
        picked(out, ts, Ok(n)),
        k <= ts.len(),
    ensures
        n == settled(cost, reps_at(k) as u32),
    decreases ts.len() - k,
{
    lemma_pilot_room(out, ts, k);
    let reps = reps_at(k) as u32;
    if k < ts.len() {
        let t = ts[k as int];
        assert(out(reps, Ok(t)));
        lemma_picked(out, cost, ts, n, k + 1);
        lemma_pilot_room(out, ts, k + 1);
    } else {
        let t = choose|t: Duration| #[trigger]
            out(reps_at(ts.len()) as u32, Ok(t)) && piloted(
                reps_at(ts.len()) as u32,
                t.nanos(),
            ) == Pilot::Done(n);
        assert(out(reps, Ok(t)));
    }
}

/// Every pilot starts with a batch of one.
proof fn lemma_first_batch(out: Outcomes, ts: Seq<Duration>, n: u32)
    requires
        picked(out, ts, Ok(n)),
    ensures
        exists|t: Duration| #[trigger] out(1, Ok(t)),
{
    if ts.len() > 0 {
        let t = ts[0];
        assert(out(1, Ok(t)));
    }
}

/// The greatest number of repetitions is a power of two.
proof fn lemma_most_reps()
    ensures
        reps_at(24) == MAX_REPS,
{
    reveal_with_fuel(reps_at, 25);
}

/// A pilot that has come to a power of two ends in the window.
#[verifier::spinoff_prover]
#[verifier::rlimit(40)]
proof fn lemma_settles(cost: nat, reps: u32, k: nat)
    requires
        cost * MAX_REPS >= SAMPLE_MIN_NANOS,
        cost <= SAMPLE_MAX_NANOS,
        k <= 24,
        reps == reps_at(k),
        reps == 1 || (reps / 2) * cost < SAMPLE_MIN_NANOS,
    ensures
        SAMPLE_MIN_NANOS <= settled(cost, reps) * cost <= SAMPLE_MAX_NANOS,
    decreases 24 - k,
{
    lemma_most_reps();
    lemma_reps_grow(k, 24);
    if k > 0 {
        let half = reps_at((k - 1) as nat);
        assert(reps == 2 * half);
        assert(reps * cost == 2 * (half * cost)) by (nonlinear_arith)
            requires
                reps == 2 * half,
        ;
    }
    if reps * cost < SAMPLE_MIN_NANOS {
        if k == 24 {
            assert(reps * cost == cost * MAX_REPS) by (nonlinear_arith)
                requires
                    reps == MAX_REPS,
            ;
        }
        assert(k < 24);
        lemma_reps_grow((k + 1) as nat, 24);
        lemma_settles(cost, (2 * reps) as u32, (k + 1) as nat);
    }
}

/// Later batches have more repetitions.
proof fn lemma_reps_grow(a: nat, b: nat)
    requires
        a <= b,
    ensures
        1 <= reps_at(a) <= reps_at(b),
        a < b ==> reps_at(a) < reps_at(b),
    decreases b,
{
    if a < b {
        lemma_reps_grow(a, (b - 1) as nat);
    } else if a > 0 {
        lemma_reps_grow((a - 1) as nat, (b - 1) as nat);
    }
}

// ---------------------------------------------------------------------------
// Samples of one program
// ---------------------------------------------------------------------------

/// Samples of one program.
#[derive(Debug)]
pub struct Batch {
    pub reps_per_sample: u32,
    /// What each sample took, all of its repetitions together.
    pub samples: Vec<Duration>,
    /// The samples were taken twice because they varied too much.
    pub reran_for_cv: bool,
}

/// The samples are what can come out of batches.
pub open spec fn sampled(out: Outcomes, reps: u32, v: Seq<Duration>) -> bool {
    v.len() == K_SAMPLES && forall|i: int| 0 <= i < v.len() ==> out(reps, Ok(#[trigger] v[i]))
}

/// The functions can be asked about any samples.
pub open spec fn judges<
    N: Fn(&Vec<Duration>, u32) -> bool,
    T: Fn(&Vec<Duration>, &Vec<Duration>, u32) -> bool,
>(noisy: N, tighter: T) -> bool {
    &&& forall|v: &Vec<Duration>, reps: u32| #[trigger] noisy.requires((v, reps))
    &&& forall|a: &Vec<Duration>, b: &Vec<Duration>, reps: u32| #[trigger]
        tighter.requires((a, b, reps))
}

/// Of two takes of samples, `b` is what is kept: the second one only where it is tighter.
pub open spec fn keeps<T: Fn(&Vec<Duration>, &Vec<Duration>, u32) -> bool>(
    tighter: T,
    first: Vec<Duration>,
    second: Vec<Duration>,
    b: Batch,
) -> bool {
    &&& b.reran_for_cv
    &&& {
        ||| b.samples == second && tighter.ensures((&second, &first, b.reps_per_sample), true)
        ||| b.samples == first && tighter.ensures((&second, &first, b.reps_per_sample), false)
    }
}

/// Keeps one of two takes of samples.
pub fn keep_tighter<T: Fn(&Vec<Duration>, &Vec<Duration>, u32) -> bool>(
    first: Vec<Duration>,
    second: Vec<Duration>,
    reps: u32,
    tighter: &T,
) -> (r: Batch)
    requires
        tighter.requires((&second, &first, reps)),
    ensures
        r.reps_per_sample == reps,
        keeps(*tighter, first, second, r),
{
    if tighter(&second, &first, reps) {
        Batch { reps_per_sample: reps, samples: second, reran_for_cv: true }
    } else {
        Batch { reps_per_sample: reps, samples: first, reran_for_cv: true }
    }
}

/// `b` can come out of measuring: one take that does not vary too much, or what is kept of
/// two.
pub open spec fn measured<
    N: Fn(&Vec<Duration>, u32) -> bool,
    T: Fn(&Vec<Duration>, &Vec<Duration>, u32) -> bool,
>(out: Outcomes, noisy: N, tighter: T, b: Batch) -> bool {
    let reps = b.reps_per_sample;
    if b.reran_for_cv {
        exists|first: Vec<Duration>, second: Vec<Duration>| #[trigger]
            keeps(tighter, first, second, b) && sampled(out, reps, first@) && sampled(
                out,
                reps,
                second@,
            ) && noisy.ensures((&first, reps), true)
    } else {
        sampled(out, reps, b.samples@) && noisy.ensures((&b.samples, reps), false)
    }
}

/// An error can come out of a batch of so many repetitions.
pub open spec fn fails(out: Outcomes, reps: u32, e: String) -> bool {
    out(reps, Err(e))
}

/// Takes samples.
fn take_samples<F: Fn(u32) -> Result<Duration, String>>(run: &F, reps: u32) -> (r: Result<
    Vec<Duration>,
    String,
>)
    requires
        forall|reps: u32| #[trigger] run.requires((reps,)),
    ensures
        match r {
            Ok(v) => sampled(of_fn(*run), reps, v@),
            Err(e) => fails(of_fn(*run), reps, e),
        },
{
    let ghost out = of_fn(*run);
    let mut v: Vec<Duration> = Vec::new();
    while v.len() < K_SAMPLES
        invariant
            forall|reps: u32| #[trigger] run.requires((reps,)),
            out == of_fn(*run),
            v@.len() <= K_SAMPLES,
            forall|i: int| 0 <= i < v@.len() ==> out(reps, Ok(#[trigger] v@[i])),
        decreases K_SAMPLES - v@.len(),
    {
        match run(reps) {
            Ok(t) => {
                assert(out(reps, Ok(t)));
                v.push(t);
            },
            Err(e) => {
                assert(out(reps, Err(e)));
                return Err(e);
            },
        }
    }
    Ok(v)
}

/// Warms up.
fn warm_up<F: Fn(u32) -> Result<Duration, String>>(run: &F, reps: u32) -> (r: Result<(), String>)
    requires
        forall|reps: u32| #[trigger] run.requires((reps,)),
    ensures
        r matches Err(e) ==> fails(of_fn(*run), reps, e),
{
    let ghost out = of_fn(*run);
    let mut k: usize = 0;
    while k < WARMUPS
        invariant
            forall|reps: u32| #[trigger] run.requires((reps,)),
            out == of_fn(*run),
        decreases WARMUPS - k,
    {
        if let Err(e) = run(reps) {
            assert(out(reps, Err(e)));
            return Err(e);
        }
        k = k + 1;
    }
    Ok(())
}

/// Measures one program: a pilot, batches to warm up, and samples, which are taken twice
/// where they vary too much.
pub fn measure_with_reps<
    F: Fn(u32) -> Result<Duration, String>,
    N: Fn(&Vec<Duration>, u32) -> bool,
    T: Fn(&Vec<Duration>, &Vec<Duration>, u32) -> bool,
>(run: F, noisy: &N, tighter: &T) -> (r: Result<Batch, String>)
    requires
        forall|reps: u32| #[trigger] run.requires((reps,)),
        judges(*noisy, *tighter),
    ensures
        match r {
            Ok(b) => picks(of_fn(run), Ok(b.reps_per_sample)) && measured(
                of_fn(run),
                *noisy,
                *tighter,
                b,
            ),
            Err(e) => picks(of_fn(run), Err(e)) || exists|reps: u32| #[trigger]
                fails(of_fn(run), reps, e) && picks(of_fn(run), Ok(reps)),
        },
{
    let reps = match pilot(&run) {
        Ok(n) => n,
        Err(e) => {
            return Err(e);
        },
    };
    if let Err(e) = warm_up(&run, reps) {
        return Err(e);
    }
    let first = match take_samples(&run, reps) {
        Ok(v) => v,
        Err(e) => {
            return Err(e);
        },
    };
    if !noisy(&first, reps) {
        return Ok(Batch { reps_per_sample: reps, samples: first, reran_for_cv: false });
    }
    let second = match take_samples(&run, reps) {
        Ok(v) => v,
        Err(e) => {
            return Err(e);
        },
    };
    let ghost one = first;
    let ghost two = second;
    let b = keep_tighter(first, second, reps, tighter);
    proof {
        assert(keeps(*tighter, one, two, b));
    }
    Ok(b)
}

/// Times so many calls of a function as one batch.
fn time_batch<F: Fn()>(f: &F, reps: u32) -> (r: Duration)
    requires
        f.requires(()),
    ensures
        reps > 0 ==> f.ensures((), ()),
{
    let start = clock();
    let mut k: u32 = 0;
    while k < reps
        invariant
            f.requires(()),
            k <= reps,
            k > 0 ==> f.ensures((), ()),
        decreases reps - k,
    {
        f();
        k = k + 1;
    }
    Duration::from_nanos(nanos_since(&start))
}

/// No batch fails.
pub open spec fn never_fails(out: Outcomes) -> bool {
    forall|reps: u32, r: Result<Duration, String>| #[trigger] out(reps, r) ==> r is Ok
}

/// Samples that came from batches none of which failed.
pub open spec fn measured_without_failure<
    N: Fn(&Vec<Duration>, u32) -> bool,
    T: Fn(&Vec<Duration>, &Vec<Duration>, u32) -> bool,
>(out: Outcomes, noisy: N, tighter: T, b: Batch) -> bool {
    never_fails(out) && picks(out, Ok(b.reps_per_sample)) && measured(out, noisy, tighter, b)
}

/// Measures a function that cannot fail. It is called, and its batches are what is
/// measured.
pub fn measure<
    F: Fn(),
    N: Fn(&Vec<Duration>, u32) -> bool,
    T: Fn(&Vec<Duration>, &Vec<Duration>, u32) -> bool,
>(f: F, noisy: &N, tighter: &T) -> (r: Batch)
    requires
        f.requires(()),
        judges(*noisy, *tighter),
    ensures
        exists|out: Outcomes| #[trigger] measured_without_failure(out, *noisy, *tighter, r),
        f.ensures((), ()),
{
    let g = &f;
    let run = |reps: u32| -> (r: Result<Duration, String>)
        ensures
            r is Ok,
            reps > 0 ==> call_ensures(*g, (), ()),
        { Ok(time_batch(g, reps)) };
    let ghost out = of_fn(run);
    assert(never_fails(out));
    match measure_with_reps(run, noisy, tighter) {
        Ok(b) => {
            proof {
                assert(picks(out, Ok(b.reps_per_sample)));
                let ts = choose|ts: Seq<Duration>| #[trigger]
                    picked(out, ts, Ok(b.reps_per_sample));
                lemma_first_batch(out, ts, b.reps_per_sample);
                let t = choose|t: Duration| #[trigger] out(1, Ok(t));
                assert(out(1, Ok(t)));
            }
            assert(measured_without_failure(out, *noisy, *tighter, b));
            b
        },
        Err(e) => {
            proof {
                if picks(out, Err(e)) {
                    let ts = choose|ts: Seq<Duration>| #[trigger] picked(out, ts, Err(e));
                    assert(out(reps_at(ts.len()) as u32, Err(e)));
                } else {
                    let reps = choose|reps: u32| #[trigger]
                        fails(out, reps, e) && picks(out, Ok(reps));
                    assert(out(reps, Err(e)));
                }
                assert(false);
            }
            Batch { reps_per_sample: 1, samples: Vec::new(), reran_for_cv: false }
        },
    }
}

// ---------------------------------------------------------------------------
// Samples of several programs, in turn
// ---------------------------------------------------------------------------

/// What can come out of a batch of one of several programs.
pub open spec fn of_variant<F: Fn(usize, u32) -> Result<Duration, String>>(
    f: F,
    vi: usize,
) -> Outcomes {
    |reps: u32, r: Result<Duration, String>| f.ensures((vi, reps), r)
}

/// Whose turn it is, visit by visit: round after round, every program once a round.
pub open spec fn turns(n: nat) -> Seq<usize> {
    Seq::new(K_SAMPLES as nat * n, |k: int| (k % (n as int)) as usize)
}

/// How often a program has had its turn in the first `k` visits.
pub open spec fn visits(n: nat, vi: int, k: nat) -> nat
    decreases k,
{
    if k == 0 {
        0
    } else {
        visits(n, vi, (k - 1) as nat) + if (k - 1) % (n as int) == vi {
            1nat
        } else {
            0
        }
    }
}

/// How often a program has had its turn.
proof fn lemma_visits(n: nat, vi: int, k: nat)
    requires
        0 <= vi < n,
    ensures
        visits(n, vi, k) == k / n + if vi < k % n {
            1nat
        } else {
            0
        },
    decreases k,
{
    if k > 0 {
        lemma_visits(n, vi, (k - 1) as nat);
        let j = k - 1;
        let m = n as int;
        let q = j / m;
        let r = j % m;
        lemma_fundamental_div_mod(j, m);
        lemma_mod_bound(j, m);
        lemma_mul_is_commutative(m, q);
        if r == m - 1 {
            lemma_mul_is_distributive_add_other_way(m, q, 1);
            lemma_fundamental_div_mod_converse(j + 1, m, q + 1, 0);
        } else {
            lemma_fundamental_div_mod_converse(j + 1, m, q, r + 1);
        }
    } else {
        lemma_fundamental_div_mod_converse(0, n as int, 0, 0);
    }
}

/// At no time has one program had more than one turn more than another: a drift of the
/// machine meets all of them alike.
pub proof fn law_turns_are_fair(n: nat, a: int, b: int, k: nat)
    requires
        0 <= a < n,
        0 <= b < n,
    ensures
        visits(n, a, k) <= visits(n, b, k) + 1,
{
    lemma_visits(n, a, k);
    lemma_visits(n, b, k);
}

/// In the end every program has had all of its turns.
pub proof fn law_turns_are_complete(n: nat, vi: int)
    requires
        0 <= vi < n,
    ensures
        visits(n, vi, turns(n).len()) == K_SAMPLES,
{
    let k = K_SAMPLES as nat * n;
    lemma_visits(n, vi, k);
    lemma_fundamental_div_mod_converse(k as int, n as int, K_SAMPLES as int, 0);
}

/// Whose turn it is, visit by visit.
pub fn sampling_order(n: usize) -> (r: Vec<usize>)
    requires
        K_SAMPLES * n <= usize::MAX,
    ensures
        r@ == turns(n as nat),
{
    let mut out: Vec<usize> = Vec::new();
    let total: usize = K_SAMPLES * n;
    let mut k: usize = 0;
    while k < total
        invariant
            total == K_SAMPLES * n,
            k <= total,
            total > 0 ==> n > 0,
            out@ =~= turns(n as nat).take(k as int),
        decreases total - k,
    {
        out.push(k % n);
        k = k + 1;
    }
    assert(turns(n as nat).take(k as int) =~= turns(n as nat));
    out
}

/// Doubles the repetitions of one program until a sample is long enough.
fn pilot_of<F: Fn(usize, u32) -> Result<Duration, String>>(run: &F, vi: usize) -> (r: Result<u32, String>)
    requires
        forall|v: usize, reps: u32| #[trigger] run.requires((v, reps)),
    ensures
        picks(of_variant(*run, vi), r),
        r matches Ok(n) ==> n >= 1,
{
    let mut reps: u32 = 1;
    let ghost mut ts: Seq<Duration> = seq![];
    let ghost out = of_variant(*run, vi);
    loop
        invariant
            forall|v: usize, reps: u32| #[trigger] run.requires((v, reps)),
            out == of_variant(*run, vi),
            1 <= reps < 2 * MAX_REPS,
            reps == reps_at(ts.len()),
            went_on(out, ts),
        decreases 2 * MAX_REPS - reps,
    {
        match run(vi, reps) {
            Err(e) => {
                proof {
                    assert(out(reps, Err(e)));
                    assert(picked(out, ts, Err(e)));
                }
                return Err(e);
            },
            Ok(t) => {
                assert(out(reps, Ok(t)));
                match pilot_step(reps, t) {
                    Pilot::Done(n) => {
                        proof {
                            assert(picked(out, ts, Ok(n)));
                        }
                        return Ok(n);
                    },
                    Pilot::Again(more) => {
                        proof {
                            ts = ts.push(t);
                        }
                        reps = more;
                    },
                }
            },
        }
    }
}

/// Takes samples of one program.
fn take_samples_of<F: Fn(usize, u32) -> Result<Duration, String>>(run: &F, vi: usize, reps: u32) -> (r: Result<
    Vec<Duration>,
    String,
>)
    requires
        forall|v: usize, reps: u32| #[trigger] run.requires((v, reps)),
    ensures
        match r {
            Ok(v) => sampled(of_variant(*run, vi), reps, v@),
            Err(e) => fails(of_variant(*run, vi), reps, e),
        },
{
    let ghost out = of_variant(*run, vi);
    let mut v: Vec<Duration> = Vec::new();
    while v.len() < K_SAMPLES
        invariant
            forall|v: usize, reps: u32| #[trigger] run.requires((v, reps)),
            out == of_variant(*run, vi),
            v@.len() <= K_SAMPLES,
            forall|i: int| 0 <= i < v@.len() ==> out(reps, Ok(#[trigger] v@[i])),
        decreases K_SAMPLES - v@.len(),
    {
        match run(vi, reps) {
            Ok(t) => {
                assert(out(reps, Ok(t)));
                v.push(t);
            },
            Err(e) => {
                assert(out(reps, Err(e)));
                return Err(e);
            },
        }
    }
    Ok(v)
}

/// Warms up one program.
fn warm_up_of<F: Fn(usize, u32) -> Result<Duration, String>>(run: &F, vi: usize, reps: u32) -> (r: Result<(), String>)
    requires
        forall|v: usize, reps: u32| #[trigger] run.requires((v, reps)),
    ensures
        r matches Err(e) ==> fails(of_variant(*run, vi), reps, e),
{
    let ghost out = of_variant(*run, vi);
    let mut k: usize = 0;
    while k < WARMUPS
        invariant
            forall|v: usize, reps: u32| #[trigger] run.requires((v, reps)),
            out == of_variant(*run, vi),
        decreases WARMUPS - k,
    {
        if let Err(e) = run(vi, reps) {
            assert(out(reps, Err(e)));
            return Err(e);
        }
        k = k + 1;
    }
    Ok(())
}


/// The pilot of a program failed, and the error says which one it was.
pub open spec fn pilot_failed<F: Fn(usize, u32) -> Result<Duration, String>>(
    f: F,
    names: Seq<&str>,
    vi: int,
    e0: String,
    e: String,
) -> bool {
    0 <= vi < names.len() && picks(of_variant(f, vi as usize), Err(e0)) && e@ == names[vi]@ + ": "@
        + e0@
}

/// A program whose pilot had succeeded failed later.
pub open spec fn sample_failed<F: Fn(usize, u32) -> Result<Duration, String>>(
    f: F,
    n: nat,
    vi: int,
    reps: u32,
    e: String,
) -> bool {
    0 <= vi < n && picks(of_variant(f, vi as usize), Ok(reps)) && fails(
        of_variant(f, vi as usize),
        reps,
        e,
    )
}

/// The pilot of some program failed.
pub open spec fn pilot_error<F: Fn(usize, u32) -> Result<Duration, String>>(
    f: F,
    names: Seq<&str>,
    e: String,
) -> bool {
    exists|vi: int, e0: String| #[trigger] pilot_failed(f, names, vi, e0, e)
}

/// Some program whose pilot had succeeded failed later.
pub open spec fn sample_error<F: Fn(usize, u32) -> Result<Duration, String>>(
    f: F,
    n: nat,
    e: String,
) -> bool {
    exists|vi: int, reps: u32| #[trigger] sample_failed(f, n, vi, reps, e)
}

/// Measures several programs in turn. All pilots and warming up come first; where the
/// samples of a program vary too much, they are taken once more at the end.
#[verifier::rlimit(40)]
pub fn run_interleaved<
    F: Fn(usize, u32) -> Result<Duration, String>,
    N: Fn(&Vec<Duration>, u32) -> bool,
    T: Fn(&Vec<Duration>, &Vec<Duration>, u32) -> bool,
>(variants: &[&str], sample_once: F, noisy: &N, tighter: &T) -> (r: Result<Vec<Batch>, String>)
    requires
        K_SAMPLES * variants@.len() <= usize::MAX,
        forall|v: usize, reps: u32| #[trigger] sample_once.requires((v, reps)),
        judges(*noisy, *tighter),
    ensures
        match r {
            Ok(out) => out@.len() == variants@.len() && forall|vi: int|
                #![trigger out@[vi]]
                0 <= vi < out@.len() ==> picks(
                    of_variant(sample_once, vi as usize),
                    Ok(out@[vi].reps_per_sample),
                ) && measured(of_variant(sample_once, vi as usize), *noisy, *tighter, out@[vi]),
            Err(e) => pilot_error(sample_once, variants@, e) || sample_error(
                sample_once,
                variants@.len(),
                e,
            ),
        },
{
    let n: usize = variants.len();
    let mut reps: Vec<u32> = Vec::new();
    let mut failed: Option<String> = None;
    while reps.len() < n
        invariant
            n == variants@.len(),
            forall|v: usize, reps: u32| #[trigger] sample_once.requires((v, reps)),
            reps@.len() <= n,
            failed is None ==> forall|vi: int|
                #![trigger reps@[vi]]
                0 <= vi < reps@.len() ==> picks(
                    of_variant(sample_once, vi as usize),
                    Ok(reps@[vi]),
                ),
            failed matches Some(e) ==> pilot_error(sample_once, variants@, e),
        decreases n - reps@.len(),
    {
        let vi: usize = reps.len();
        match pilot_of(&sample_once, vi) {
            Ok(k) => {
                reps.push(k);
            },
            Err(e0) => {
                if failed.is_none() {
                    let mut text = variants[vi].to_owned();
                    push_text(&mut text, ": ");
                    push_text(&mut text, e0.as_str());
                    proof {
                        assert(pilot_failed(sample_once, variants@, vi as int, e0, text));
                    }
                    failed = Some(text);
                }
                reps.push(0);
            },
        }
    }
    if let Some(e) = failed {
        return Err(e);
    }
    let mut vi: usize = 0;
    while vi < n
        invariant
            n == variants@.len(),
            n == reps@.len(),
            forall|v: usize, reps: u32| #[trigger] sample_once.requires((v, reps)),
            forall|vi: int|
                #![trigger reps@[vi]]
                0 <= vi < n ==> picks(of_variant(sample_once, vi as usize), Ok(reps@[vi])),
        decreases n - vi,
    {
        if let Err(e) = warm_up_of(&sample_once, vi, reps[vi]) {
            proof {
                assert(sample_failed(
                    sample_once,
                    variants@.len(),
                    vi as int,
                    reps@[vi as int],
                    e,
                ));
            }
            return Err(e);
        }
        vi = vi + 1;
    }
    let mut buckets: Vec<Vec<Duration>> = Vec::new();
    while buckets.len() < n
        invariant
            buckets@.len() <= n,
            forall|j: int| 0 <= j < buckets@.len() ==> (#[trigger] buckets@[j])@.len() == 0,
        decreases n - buckets@.len(),
    {
        buckets.push(Vec::new());
    }
    let order = sampling_order(n);
    let mut k: usize = 0;
    while k < order.len()
        invariant
            n == variants@.len(),
            n == reps@.len(),
            forall|v: usize, reps: u32| #[trigger] sample_once.requires((v, reps)),
            forall|vi: int|
                #![trigger reps@[vi]]
                0 <= vi < n ==> picks(of_variant(sample_once, vi as usize), Ok(reps@[vi])),
            order@ == turns(n as nat),
            k <= order@.len(),
            buckets@.len() == n,
            forall|j: int|
                0 <= j < n ==> (#[trigger] buckets@[j])@.len() == visits(n as nat, j, k as nat),
            forall|j: int, i: int|
                0 <= j < n && 0 <= i < buckets@[j]@.len() ==> of_variant(sample_once, j as usize)(
                    reps@[j],
                    Ok(#[trigger] buckets@[j]@[i]),
                ),
        decreases order@.len() - k,
    {
        let ghost m = n as int;
        assert(n > 0 && 0 <= k % n < n) by {
            assert(order@.len() == K_SAMPLES * n);
            assert(n > 0);
        }
        let vi: usize = order[k];
        assert(vi == (k as int) % m);
        match sample_once(vi, reps[vi]) {
            Ok(t) => {
                assert(of_variant(sample_once, vi)(reps@[vi as int], Ok(t)));
                let ghost before = buckets@;
                let mut one: Vec<Duration> = Vec::new();
                buckets.set_and_swap(vi, &mut one);
                one.push(t);
                buckets.set(vi, one);
                proof {
                    assert forall|j: int| 0 <= j < n implies (#[trigger] buckets@[j])@.len()
                        == visits(n as nat, j, (k + 1) as nat) by {
                        assert(before[j]@.len() == visits(n as nat, j, k as nat));
                    }
                    assert forall|j: int, i: int|
                        0 <= j < n && 0 <= i < buckets@[j]@.len() implies of_variant(
                        sample_once,
                        j as usize,
                    )(reps@[j], Ok(#[trigger] buckets@[j]@[i])) by {
                        if j == vi && i == before[j]@.len() {
                            assert(buckets@[j]@[i] == t);
                        } else {
                            assert(buckets@[j]@[i] == before[j]@[i]);
                        }
                    }
                }
            },
            Err(e) => {
                proof {
                    assert(of_variant(sample_once, vi)(reps@[vi as int], Err(e)));
                    assert(sample_failed(
                        sample_once,
                        variants@.len(),
                        vi as int,
                        reps@[vi as int],
                        e,
                    ));
                }
                return Err(e);
            },
        }
        k = k + 1;
    }
    let mut out: Vec<Batch> = Vec::new();
    let ghost all = buckets@;
    proof {
        assert forall|j: int| 0 <= j < n implies sampled(
            of_variant(sample_once, j as usize),
            reps@[j],
            (#[trigger] all[j])@,
        ) by {
            law_turns_are_complete(n as nat, j);
        }
    }
    while out.len() < n
        invariant
            n == variants@.len(),
            n == reps@.len(),
            forall|v: usize, reps: u32| #[trigger] sample_once.requires((v, reps)),
            judges(*noisy, *tighter),
            forall|vi: int|
                #![trigger reps@[vi]]
                0 <= vi < n ==> picks(of_variant(sample_once, vi as usize), Ok(reps@[vi])),
            out@.len() <= n,
            buckets@.len() == n,
            all.len() == n,
            forall|j: int| out@.len() <= j < n ==> buckets@[j] == #[trigger] all[j],
            forall|j: int|
                0 <= j < n ==> sampled(
                    of_variant(sample_once, j as usize),
                    reps@[j],
                    (#[trigger] all[j])@,
                ),
            forall|vi: int|
                #![trigger out@[vi]]
                0 <= vi < out@.len() ==> out@[vi].reps_per_sample == reps@[vi] && measured(
                    of_variant(sample_once, vi as usize),
                    *noisy,
                    *tighter,
                    out@[vi],
                ),
        decreases n - out@.len(),
    {
        let vi: usize = out.len();
        let mut first: Vec<Duration> = Vec::new();
        buckets.set_and_swap(vi, &mut first);
        proof {
            assert(first == all[vi as int]);
        }
        if !noisy(&first, reps[vi]) {
            let b = Batch { reps_per_sample: reps[vi], samples: first, reran_for_cv: false };
            out.push(b);
        } else {
            match take_samples_of(&sample_once, vi, reps[vi]) {
                Ok(second) => {
                    let ghost one = first;
                    let ghost two = second;
                    let b = keep_tighter(first, second, reps[vi], tighter);
                    proof {
                        assert(keeps(*tighter, one, two, b));
                    }
                    out.push(b);
                },
                Err(e) => {
                    proof {
                        assert(sample_failed(
                            sample_once,
                            variants@.len(),
                            vi as int,
                            reps@[vi as int],
                            e,
                        ));
                    }
                    return Err(e);
                },
            }
        }
    }
    Ok(out)
}

} // verus!
