//! Pilots, samples and turns.

use std::cell::Cell;

use helix::timing::{
    measure, measure_with_reps, pick_reps, pilot_step, run_interleaved, sampling_order, Duration, Pilot,
    Sample, K_SAMPLES,
};

/// Milliseconds of one repetition.
fn per_rep_ms(v: &[Duration], reps: u32) -> Vec<f64> {
    v.iter().map(|d| d.as_nanos() as f64 / 1e9 / f64::from(reps) * 1_000.0).collect()
}

/// The coefficient of variation.
fn cv(v: &[Duration], reps: u32) -> f64 {
    let xs = per_rep_ms(v, reps);
    let mean = xs.iter().sum::<f64>() / xs.len() as f64;
    let ss = xs.iter().map(|x| (x - mean) * (x - mean)).sum::<f64>();
    let sd = (ss / xs.len() as f64).sqrt();
    if mean == 0.0 { 0.0 } else { sd / mean.abs() }
}

const CV_RERUN_THRESHOLD: f64 = 0.05;

fn noisy(v: &Vec<Duration>, reps: u32) -> bool {
    cv(v, reps) > CV_RERUN_THRESHOLD
}

fn tighter(a: &Vec<Duration>, b: &Vec<Duration>, reps: u32) -> bool {
    cv(a, reps) < cv(b, reps)
}

/// The median per repetition.
fn median_ms(v: &[Duration], reps: u32) -> f64 {
    let mut xs = per_rep_ms(v, reps);
    xs.sort_by(|a, b| a.partial_cmp(b).unwrap());
    xs[xs.len() / 2]
}

#[test]
fn pick_reps_scales_with_closure_cost() {
    // A closure costing ~10 ms per rep should settle near 100-250 ms /
    // 10 ms = 10-25 reps.
    let cost = |reps: u32| Ok(Duration::from_nanos(u128::from(reps) * 10_000_000));
    let r = pick_reps(cost).unwrap();
    assert!((10..=25).contains(&r), "picked {r}");
    // An instant closure hits the growth cap instead of spinning forever.
    let fast = pick_reps(|_: u32| Ok(Duration::from_nanos(0))).unwrap();
    assert!(fast >= 1 << 20, "instant closure picked {fast}");
}

#[test]
fn pick_reps_propagates_batch_errors() {
    let err = pick_reps(|_: u32| Err("boom".to_string())).unwrap_err();
    assert_eq!(err, "boom");
}

#[test]
fn failing_variant_aborts_the_round_with_its_name() {
    // Variant 1 fails during its PILOT: the driver must surface the error
    // (tagged with the variant's name), never fabricate measurements for
    // it or silently drop it from the round.
    let runs_before_err = std::cell::Cell::new(0u32);
    let err = run_interleaved(
        &["good", "broken"],
        |vi: usize, _: u32| {
            if vi == 1 {
                Err("segv in jitted code".to_string())
            } else {
                runs_before_err.set(runs_before_err.get() + 1);
                Ok(Duration::from_millis(1))
            }
        },
        &noisy,
        &tighter,
    )
    .unwrap_err();
    assert!(
        err.contains("broken") && err.contains("segv"),
        "error must name the failing variant and cause: {err}"
    );
}

#[test]
fn mid_sampling_failure_propagates_too() {
    // A variant that survives its pilot but fails once sampling starts:
    // the whole round aborts rather than emitting a short bucket.
    let calls = std::cell::Cell::new(0u32);
    let err = run_interleaved(
        &["flaky"],
        |_: usize, _: u32| {
            calls.set(calls.get() + 1);
            if calls.get() > 10 {
                Err("late crash".to_string())
            } else {
                Ok(Duration::from_millis(150))
            }
        },
        &noisy,
        &tighter,
    )
    .unwrap_err();
    assert_eq!(err, "late crash");
}

/// Batch alternating 80/120 ms: population stddev 20 over mean ~98.67,
/// CV ~0.20 — comfortably above the threshold.
fn noisy_80_120(n: usize) -> f64 {
    if (n - 4) % 2 == 0 { 80.0 } else { 120.0 }
}

#[test]
fn cv_rerun_replaces_originals_when_strictly_tighter() {
    let calls = std::cell::Cell::new(0usize);
    let m = measure_with_reps(
        |_: u32| {
            let n = calls.get();
            calls.set(n + 1);
            let ms = match n {
                0 => 150.0,
                1..=3 => 100.0,
                4..=18 => noisy_80_120(n),
                _ => 90.0, // rerun: perfectly flat, CV 0
            };
            Ok(Duration::from_millis(ms as u64))
        },
        &noisy,
        &tighter,
    )
    .unwrap();
    assert!(m.reran_for_cv, "gate tripped; the rerun must be recorded");
    assert_eq!(m.reps_per_sample, 1);
    assert!(cv(&m.samples, 1) <= CV_RERUN_THRESHOLD, "tight rerun must win");
    assert_eq!(median_ms(&m.samples, 1), 90.0, "stats must come from the rerun batch");
    assert!(per_rep_ms(&m.samples, 1).iter().all(|&x| x == 90.0));
}

#[test]
fn cv_rerun_never_keeps_a_statistically_worse_batch() {
    // Inverse script: the rerun comes back noisier (60/140 -> CV ~0.41)
    // than the originals (CV ~0.20). The ORIGINAL batch must survive
    // untouched; only the honesty flag flips.
    let calls = std::cell::Cell::new(0usize);
    let m = measure_with_reps(
        |_: u32| {
            let n = calls.get();
            calls.set(n + 1);
            let ms = match n {
                0 => 150.0,
                1..=3 => 100.0,
                4..=18 => noisy_80_120(n),
                _ => {
                    if n % 2 == 0 {
                        60.0
                    } else {
                        140.0
                    }
                }
            };
            Ok(Duration::from_millis(ms as u64))
        },
        &noisy,
        &tighter,
    )
    .unwrap();
    assert!(m.reran_for_cv, "a rerun ran and must be recorded");
    assert!(cv(&m.samples, 1) > CV_RERUN_THRESHOLD, "kept-batch honesty");
    assert_eq!(
        median_ms(&m.samples, 1),
        80.0,
        "original batch must survive a noisier rerun (its median is 80)"
    );
    assert!(
        per_rep_ms(&m.samples, 1).iter().all(|&x| x == 80.0 || x == 120.0),
        "no rerun sample may leak into the kept set"
    );
}

#[test]
fn interleaved_cv_gate_replaces_bucket_when_retry_is_tighter() {
    let flaky_calls = std::cell::Cell::new(0usize);
    let out = run_interleaved(
        &["stable", "flaky"],
        |vi: usize, _: u32| {
            if vi == 0 {
                return Ok(Duration::from_millis(50)); // flat: never trips
            }
            let n = flaky_calls.get();
            flaky_calls.set(n + 1);
            let ms = match n {
                0 => 150.0,
                1..=3 => 100.0,
                4..=18 => noisy_80_120(n),
                _ => 90.0,
            };
            Ok(Duration::from_millis(ms as u64))
        },
        &noisy,
        &tighter,
    )
    .unwrap();
    assert_eq!(out.len(), 2);
    assert!(!out[0].reran_for_cv);
    assert!(cv(&out[0].samples, out[0].reps_per_sample) <= CV_RERUN_THRESHOLD);
    assert!(out[1].reran_for_cv);
    assert!(cv(&out[1].samples, out[1].reps_per_sample) <= CV_RERUN_THRESHOLD);
    assert_eq!(
        median_ms(&out[1].samples, out[1].reps_per_sample),
        90.0,
        "tight retry must replace"
    );
}

#[test]
fn interleaved_cv_gate_keeps_bucket_when_retry_is_worse() {
    let calls = std::cell::Cell::new(0usize);
    let out = run_interleaved(
        &["lucky-noise"],
        |_: usize, _: u32| {
            let n = calls.get();
            calls.set(n + 1);
            let ms = match n {
                0 => 150.0,
                1..=3 => 100.0,
                4..=18 => noisy_80_120(n),
                _ => {
                    if n % 2 == 0 {
                        60.0
                    } else {
                        140.0
                    }
                }
            };
            Ok(Duration::from_millis(ms as u64))
        },
        &noisy,
        &tighter,
    )
    .unwrap();
    let m = &out[0];
    assert!(m.reran_for_cv, "samples varied; flag must say so");
    assert_eq!(
        median_ms(&m.samples, m.reps_per_sample),
        80.0,
        "original bucket must survive a noisier retry (its median is 80)"
    );
    assert!(
        per_rep_ms(&m.samples, m.reps_per_sample).iter().all(|&x| x == 80.0 || x == 120.0),
        "retry samples must be discarded"
    );
}

#[test]
fn run_interleaved_returns_one_measurement_per_variant() {
    // Variant 0 "costs" 5 ms/rep, variant 1 costs 1 ms/rep.
    let out = run_interleaved(
        &["slow", "fast"],
        |vi: usize, reps: u32| {
            let per: u64 = if vi == 0 { 5 } else { 1 };
            Ok::<Duration, String>(Duration::from_millis(per * u64::from(reps)))
        },
        &noisy,
        &tighter,
    )
    .unwrap();
    assert_eq!(out.len(), 2);
    let a = median_ms(&out[0].samples, out[0].reps_per_sample);
    let b = median_ms(&out[1].samples, out[1].reps_per_sample);
    assert!(a > b * 3.0, "{a} vs {b}");
}

#[test]
fn interleaved_driver_only_indexes_valid_variants() {
    let seen = std::cell::RefCell::new(Vec::new());
    let out = run_interleaved(
        &["only"],
        |vi: usize, reps: u32| {
            seen.borrow_mut().push(vi);
            Ok(Duration::from_millis(u64::from(reps.max(1))))
        },
        &noisy,
        &tighter,
    )
    .unwrap();
    assert_eq!(out.len(), 1);
    assert!(seen.borrow().iter().all(|&vi| vi == 0), "bad index seen");
}

#[test]
fn pilots_double_and_halve_once() {
    let ms = Duration::from_millis;
    assert_eq!(pilot_step(1, ms(99)), Pilot::Again(2));
    assert_eq!(pilot_step(16, ms(160)), Pilot::Done(16));
    assert_eq!(pilot_step(16, ms(250)), Pilot::Done(16));
    assert_eq!(pilot_step(16, ms(251)), Pilot::Done(8));
    assert_eq!(pilot_step(1, ms(1000)), Pilot::Done(1));
    assert_eq!(pilot_step(1 << 24, ms(0)), Pilot::Done(1 << 24));
    assert_eq!(
        pick_reps(|r: u32| Ok(Duration::from_nanos(u128::from(r) * 10_000_000))),
        Ok(16)
    );
}

#[test]
fn repetitions_share_the_time_of_a_sample() {
    let s = Sample { elapsed: Duration::from_nanos(1001), reps: 10 };
    assert_eq!(s.per_rep().as_nanos(), 100);
    let none = Sample { elapsed: Duration::from_nanos(7), reps: 0 };
    assert_eq!(none.per_rep().as_nanos(), 7);
}

#[test]
fn turns_go_round() {
    let order = sampling_order(3);
    assert_eq!(order.len(), 3 * K_SAMPLES);
    assert_eq!(&order[0..7], &[0, 1, 2, 0, 1, 2, 0]);
    let seen = std::cell::RefCell::new(Vec::new());
    let out = run_interleaved(
        &["a", "b", "c"],
        |vi: usize, _: u32| {
            seen.borrow_mut().push(vi);
            Ok(Duration::from_millis(150))
        },
        &noisy,
        &tighter,
    )
    .unwrap();
    assert_eq!(out.len(), 3);
    // three pilots, three batches each to warm up, then in turn
    let seen = seen.borrow();
    assert_eq!(&seen[0..3], &[0, 1, 2]);
    assert_eq!(&seen[3..12], &[0, 0, 0, 1, 1, 1, 2, 2, 2]);
    assert_eq!(&seen[12..], &order[..]);
}

#[test]
fn measuring_calls_the_function_as_often_as_it_says() {
    let calls = Cell::new(0u64);
    let busy = || {
        let mut x = 0u64;
        for k in 0..2_000_000u64 {
            x = x.wrapping_mul(31).wrapping_add(std::hint::black_box(k));
        }
        std::hint::black_box(x);
        calls.set(calls.get() + 1);
    };
    let m = measure(busy, &noisy, &tighter);
    assert!(m.reps_per_sample >= 1);
    assert_eq!(m.samples.len(), K_SAMPLES);
    assert!(m.samples.iter().all(|d| d.as_nanos() > 0));
    // The pilot, the warm-up and the samples all call it.
    assert!(calls.get() > u64::from(m.reps_per_sample) * K_SAMPLES as u64);
}
