//! What a campaign measures and what stops it.

use helix::campaign::{
    campaign_kernels, check_parity, checked_shapes, middle_threads, on_build_failure,
    on_check_failure, parity_holds, parity_pins, sweep_points, swept_shapes, timed_shapes,
    triad_widths, verdict_gate, BenchConfig, PlanView, Shape,
};
use helix::kernels::{registry, KernelDef, RunOutputLike};
use helix::triad::{chunks, participants, sweep_threads};

fn kernel(name: &str) -> KernelDef {
    registry().into_iter().find(|k| k.name == name).unwrap()
}

fn never(_: u64, _: &String, _: &String) -> bool {
    false
}

fn config(sweep: &[usize], max: usize) -> BenchConfig {
    BenchConfig { thread_sweep: sweep.to_vec(), max_threads: max, ..BenchConfig::default() }
}

#[test]
fn default_configuration() {
    let c = BenchConfig::default();
    assert_eq!(c.thread_sweep, vec![1, 2, 4, 8, 16, 24, 32]);
    assert_eq!(c.max_threads, 32);
    assert!(!c.skip_triad);
    assert_eq!(c.triad_n, 1 << 24);
    assert!(c.only_kernels.is_empty());
}

#[test]
fn selected_kernels() {
    let names = |c: &BenchConfig| -> Vec<String> {
        campaign_kernels(c).into_iter().map(|k| k.name).collect()
    };
    let all = BenchConfig::default();
    assert_eq!(names(&all).len(), 9);
    assert!(!names(&all).contains(&"fib_recursion".to_string()));
    let some = BenchConfig {
        only_kernels: vec!["small_n".to_string(), "fib_recursion".to_string()],
        ..BenchConfig::default()
    };
    assert_eq!(names(&some), vec!["small_n"]);
}

#[test]
fn thread_counts() {
    let c = BenchConfig::default();
    assert_eq!(middle_threads(&c, 8), 4);
    assert_eq!(middle_threads(&c, 1), 2);
    assert_eq!(middle_threads(&config(&[1], 32), 64), 32);
    assert_eq!(middle_threads(&config(&[1], 32), 1), 2);
    assert_eq!(sweep_points(&c, 8), vec![1, 2, 4, 8]);
    assert_eq!(sweep_points(&c, 0), vec![1]);
    assert_eq!(sweep_points(&config(&[2, 4], 32), 8), Vec::<usize>::new());
    assert_eq!(parity_pins(&c, 8), vec![4, 1, 2, 8]);
    assert_eq!(parity_pins(&config(&[1], 1), 8), vec![1]);
    assert_eq!(triad_widths(&c, 8), vec![1, 8]);
    assert_eq!(triad_widths(&c, 1), vec![1]);
    assert_eq!(triad_widths(&BenchConfig { skip_triad: true, ..c }, 8), Vec::<usize>::new());
}

#[test]
fn what_is_timed_is_checked() {
    let c = BenchConfig::default();
    for k in registry() {
        let checked = checked_shapes(&k, &c, 16);
        for size in &k.sizes {
            for s in timed_shapes(&k, *size, &c, 16) {
                assert!(checked.contains(&s), "{} {s:?}", k.name);
            }
        }
        for s in swept_shapes(&k, &c, 16) {
            assert!(checked.contains(&s), "{} {s:?}", k.name);
        }
    }
    let saxpy = kernel("saxpy");
    assert_eq!(
        timed_shapes(&saxpy, 65_536, &c, 16),
        vec![Shape::Interp, Shape::NativeSeq, Shape::NativePar(8)]
    );
    assert_eq!(
        timed_shapes(&saxpy, 16_777_216, &c, 16),
        vec![Shape::NativeSeq, Shape::NativePar(8)]
    );
    let rec = kernel("recurrence_reject");
    assert_eq!(timed_shapes(&rec, 100_000, &c, 16), vec![Shape::Interp, Shape::NativeSeq]);
    assert_eq!(checked_shapes(&rec, &c, 16), vec![Shape::Interp, Shape::NativeSeq]);
    assert!(swept_shapes(&rec, &c, 16).is_empty());
    assert_eq!(Shape::NativePar(8).label(), "native-par8");
    assert_eq!(Shape::NativePar(8).name(), "native-par");
    assert_eq!(Shape::NativeSeq.label(), "native-seq");
}

fn view(labels: &[&str], any_safe: bool, any_reduction: bool, any_loops: bool) -> PlanView {
    PlanView {
        labels: labels.iter().map(|s| s.to_string()).collect(),
        any_safe,
        any_reduction,
        any_loops,
    }
}

#[test]
fn verdicts_are_held_against_the_registry() {
    assert_eq!(
        verdict_gate(&kernel("saxpy"), &view(&["SafeParallel", "SafeParallel"], true, false, true)),
        Ok(Some("SafeParallel, SafeParallel".to_string()))
    );
    assert_eq!(
        verdict_gate(&kernel("recurrence_reject"), &view(&[], false, false, true)),
        Ok(Some("(nothing approved)".to_string()))
    );
    assert_eq!(verdict_gate(&kernel("fib_recursion"), &view(&[], false, false, false)), Ok(None));
    assert_eq!(
        verdict_gate(&kernel("saxpy"), &view(&[], false, false, false)),
        Err("saxpy: analyzer saw no loops at all \u{2014} pipeline regressed or the kernel source drifted"
            .to_string())
    );
    assert_eq!(
        verdict_gate(&kernel("dot_reduction"), &view(&["SafeParallel"], true, false, true)),
        Err("dot_reduction: approved-region verdicts SafeParallel do not match expected ReductionParallel \u{2014} analysis regressed or the kernel source drifted"
            .to_string())
    );
}

#[test]
fn build_failures_stop_a_campaign() {
    let k = kernel("saxpy");
    let rec = kernel("recurrence_reject");
    assert_eq!(
        on_build_failure(&k, Shape::Interp, 8, "e"),
        Some("saxpy: interpreter compile failed at N=8: e".to_string())
    );
    assert_eq!(
        on_build_failure(&k, Shape::NativeSeq, 8, "e"),
        Some("saxpy: native-seq compile failed at N=8 (kernel expects a parallel-capable verdict, so this aborts the campaign): e".to_string())
    );
    assert_eq!(on_build_failure(&rec, Shape::NativeSeq, 8, "e"), None);
    assert_eq!(
        on_build_failure(&k, Shape::NativePar(4), 8, "e"),
        Some("saxpy: native-par4 compile failed at N=8: e".to_string())
    );
    assert_eq!(
        on_check_failure(&k, Shape::NativePar(4), "e"),
        Some("saxpy: native-par4 parity variant failed to compile: e".to_string())
    );
    assert_eq!(on_check_failure(&rec, Shape::NativeSeq, "e"), None);
    assert_eq!(
        on_check_failure(&rec, Shape::Interp, "e"),
        Some("recurrence_reject: interp parity variant failed to compile: e".to_string())
    );
}

#[test]
fn printed_lines_are_held_against_the_registry() {
    let k = kernel("count_primes_sieve");
    let out = |s: &str| Ok(RunOutputLike::new(vec![s.to_string()], 0));
    assert!(parity_holds(&k, &out("25"), &never));
    assert!(!parity_holds(&k, &out("26"), &never));
    assert!(!parity_holds(&k, &Err("trap".to_string()), &never));
    assert_eq!(check_parity(&k, Shape::NativeSeq, &out("25"), &never, "", "", ""), Ok(()));
    assert_eq!(
        check_parity(&k, Shape::NativePar(2), &out("26"), &never, "[\"26\"]", "[\"25\"]", ""),
        Err("count_primes_sieve: parity ABORT \u{2014} variant [native-par2] printed [\"26\"], expected [\"25\"] (tolerance exact)".to_string())
    );
    assert_eq!(
        check_parity(&k, Shape::Interp, &Err("boom".to_string()), &never, "", "", ""),
        Err("count_primes_sieve: parity ABORT \u{2014} variant [interp] failed at correctness size: boom".to_string())
    );
}

#[test]
fn sweep_is_powers_of_two_from_one() {
    assert_eq!(sweep_threads(4), vec![1, 2, 4]);
    assert_eq!(sweep_threads(0), vec![1]);
    assert_eq!(sweep_threads(7), vec![1, 2, 4]);
}

#[test]
fn parts_cover_all_elements() {
    assert_eq!(participants(1 << 16, 4), 4);
    assert_eq!(participants(3, 8), 3);
    assert_eq!(participants(3, 0), 1);
    assert_eq!(chunks(10, 4), vec![(0, 3), (3, 6), (6, 9), (9, 10)]);
    assert_eq!(chunks(9, 4), vec![(0, 3), (3, 6), (6, 9)]);
    assert_eq!(chunks(5, 1), vec![(0, 5)]);
    for n in 1..60usize {
        for t in 1..20usize {
            let parts = chunks(n, t);
            assert!(parts.len() <= t);
            let mut at = 0;
            for (a, b) in parts {
                assert_eq!(a, at);
                assert!(a < b);
                at = b;
            }
            assert_eq!(at, n);
        }
    }
}
