//! Measuring one kernel from end to end, with programs that only pretend to run.
use std::cell::RefCell;
use std::rc::Rc;

use helix::campaign::{BenchConfig, PlanView, Shape};
use helix::kernels::{registry, KernelDef, RunOutputLike};
use helix::measure::{measure_kernel, sweep_efficiency, KernelSamples};
use helix::timing::{Duration, K_SAMPLES};
use helix::variants::ExecVariant;

/// A program that takes a fixed time and prints fixed lines.
struct Fake {
    shape: Shape,
    lines: Vec<String>,
    fails: Option<&'static str>,
    slow_failure: bool,
    log: Rc<RefCell<Vec<String>>>,
}

impl ExecVariant for Fake {
    fn name(&self) -> &str {
        self.shape.name()
    }

    fn run_once(&self) -> Result<RunOutputLike, String> {
        self.log.borrow_mut().push(format!("run {}", self.shape.label()));
        match self.fails {
            Some(e) => Err(e.to_string()),
            None => Ok(RunOutputLike::new(self.lines.clone(), 1)),
        }
    }

    fn time_batch(&self, reps: u32) -> Result<Duration, String> {
        self.log.borrow_mut().push(format!("time {}", self.shape.label()));
        if self.slow_failure {
            return Err("late trap".to_string());
        }
        Ok(Duration::from_millis(150 * u64::from(reps)))
    }
}

fn kernel(name: &str) -> KernelDef {
    registry().into_iter().find(|k| k.name == name).unwrap()
}

fn never(_: u64, _: &String, _: &String) -> bool {
    false
}

fn show(v: &Vec<String>) -> String {
    format!("{v:?}")
}

fn quiet(_: &Vec<Duration>, _: u32) -> bool {
    false
}

fn no_better(_: &Vec<Duration>, _: &Vec<Duration>, _: u32) -> bool {
    false
}

fn config(sweep: &[usize]) -> BenchConfig {
    BenchConfig { thread_sweep: sweep.to_vec(), ..BenchConfig::default() }
}

fn view(label: Option<&str>, loops: bool) -> PlanView {
    PlanView {
        labels: label.iter().map(|s| s.to_string()).collect(),
        any_safe: label == Some("SafeParallel"),
        any_reduction: false,
        any_loops: loops,
    }
}

/// Measures a kernel; `broken` spoils a way of running it.
fn measured(
    k: &KernelDef,
    v: &PlanView,
    c: &BenchConfig,
    broken: &dyn Fn(&str, Shape, &mut Fake) -> Option<String>,
) -> (Result<Vec<KernelSamples>, String>, Vec<String>) {
    let log: Rc<RefCell<Vec<String>>> = Rc::new(RefCell::new(vec![]));
    let build = |src: &String, shape: Shape| -> Result<Fake, String> {
        let mut f = Fake {
            shape,
            lines: k.expected_printed.clone(),
            fails: None,
            slow_failure: false,
            log: log.clone(),
        };
        match broken(src, shape, &mut f) {
            Some(e) => Err(e),
            None => Ok(f),
        }
    };
    let r = measure_kernel(k, c, 8, v, &build, &never, &show, &quiet, &no_better, "1e-9");
    let lines = log.borrow().clone();
    (r, lines)
}

#[test]
fn a_kernel_is_checked_before_it_is_timed() {
    let k = kernel("scale");
    let (r, log) = measured(&k, &view(Some("SafeParallel"), true), &config(&[1, 2, 4, 8]), &|_, _, _| None);
    let points = r.unwrap();
    assert_eq!(points.len(), k.sizes.len());
    let p = &points[0];
    assert_eq!((p.kernel.as_str(), p.n), ("scale", k.sizes[0]));
    assert_eq!(p.batches.len(), p.shapes.len());
    assert!(p.batches.iter().all(|b| b.samples.len() == K_SAMPLES && !b.reran_for_cv));
    assert_eq!(p.sweep.iter().map(|r| r.threads).collect::<Vec<_>>(), vec![1, 2, 4, 8]);
    assert_eq!(p.observed_verdict.as_deref(), Some("SafeParallel"));
    assert_eq!(p.expected_verdict, "SafeParallel");
    let first_time = log.iter().position(|l| l.starts_with("time")).unwrap();
    let checked: Vec<&String> = log[..first_time].iter().collect();
    assert_eq!(
        checked,
        vec!["run interp", "run native-seq", "run native-par4", "run native-par1", "run native-par2", "run native-par8"]
    );
    assert!(log[first_time..].iter().all(|l| l.starts_with("time")));
}

#[test]
fn a_wrong_verdict_stops_before_anything_runs() {
    let k = kernel("scale");
    let (r, log) = measured(&k, &view(None, true), &config(&[1, 2]), &|_, _, _| None);
    assert!(r.unwrap_err().starts_with("scale: approved-region verdicts (nothing approved)"));
    let (r, _) = measured(&k, &view(None, false), &config(&[1, 2]), &|_, _, _| None);
    assert!(r.unwrap_err().starts_with("scale: analyzer saw no loops at all"));
    assert!(log.is_empty());
}

#[test]
fn wrong_lines_stop_before_anything_is_timed() {
    let k = kernel("scale");
    let (r, log) = measured(&k, &view(Some("SafeParallel"), true), &config(&[1, 2]), &|_, s, f| {
        if s == Shape::NativePar(2) {
            f.lines = vec!["0.0".to_string()];
        }
        None
    });
    let e = r.unwrap_err();
    assert!(e.starts_with("scale: parity ABORT — variant [native-par2] printed [\"0.0\"], expected "), "{e}");
    assert!(e.ends_with("(tolerance exact)"), "{e}");
    assert!(!log.iter().any(|l| l.starts_with("time")));
    let (r, _) = measured(&k, &view(Some("SafeParallel"), true), &config(&[1, 2]), &|_, s, f| {
        if s == Shape::NativeSeq {
            f.fails = Some("trap");
        }
        None
    });
    assert_eq!(r.unwrap_err(), "scale: parity ABORT — variant [native-seq] failed at correctness size: trap");
}

#[test]
fn native_code_can_be_missing_where_nothing_runs_in_parallel() {
    let k = kernel("recurrence_reject");
    let no_native = |_: &str, s: Shape, _: &mut Fake| {
        if s == Shape::Interp {
            None
        } else {
            Some("no backend".to_string())
        }
    };
    let (r, log) = measured(&k, &view(None, true), &config(&[1, 2]), &no_native);
    assert!(!log.iter().any(|l| l.contains("native")));
    match r {
        Ok(points) => assert!(points.iter().all(|p| p.shapes == vec![Shape::Interp] && p.sweep.is_empty())),
        Err(e) => assert!(e.starts_with("recurrence_reject: no executable variant could be built at N="), "{e}"),
    }
    let (r, _) = measured(&kernel("scale"), &view(Some("SafeParallel"), true), &config(&[1, 2]), &no_native);
    assert_eq!(r.unwrap_err(), "scale: native-seq parity variant failed to compile: no backend");
}

#[test]
fn failures_while_timing_name_the_kernel_and_its_size() {
    let k = kernel("scale");
    let n = k.sizes[0];
    let (r, _) = measured(&k, &view(Some("SafeParallel"), true), &config(&[1, 2]), &|_, s, f| {
        f.slow_failure = s == Shape::NativeSeq;
        None
    });
    assert_eq!(r.unwrap_err(), format!("kernel scale size {n} failed during timing: native-seq: late trap"));
    let (r, _) = measured(&k, &view(Some("SafeParallel"), true), &config(&[1, 2, 8]), &|_, s, f| {
        f.slow_failure = s == Shape::NativePar(2);
        None
    });
    assert_eq!(
        r.unwrap_err(),
        format!("kernel scale size {n} failed during timing (efficiency sweep p=2): late trap")
    );
}

#[test]
fn a_sweep_that_cannot_be_built_stops() {
    let k = kernel("scale");
    let src = k.source_at_size(64);
    let none = |_: &String, _: Shape| -> Result<Fake, String> { Err("no backend".to_string()) };
    let r = sweep_efficiency(&k, &src, 64, &config(&[1, 2]), 8, &none, &quiet, &no_better);
    assert_eq!(r.unwrap_err(), "scale: efficiency-sweep native-par1 failed to compile at N=64: no backend");
}
