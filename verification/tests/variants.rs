//! Ways of running programs.

use helix::kernels::RunOutputLike;
use helix::timing::Duration;
use helix::variants::{printed_checksum, report_native, ExecVariant, NativeRun};

/// A toy ExecVariant used to prove the harness only depends on the trait.
struct Counting {
    tag: String,
    runs: std::cell::Cell<u32>,
}

impl ExecVariant for Counting {
    fn name(&self) -> &str {
        &self.tag
    }

    fn run_once(&self) -> Result<RunOutputLike, String> {
        self.runs.set(self.runs.get() + 1);
        Ok(RunOutputLike::new(vec!["42".into()], 7))
    }
}

#[test]
fn exec_variant_is_the_only_backend_dependency() {
    // The harness must drive ANY implementation of the trait identically.
    let v = Counting {
        tag: "toy".to_string(),
        runs: std::cell::Cell::new(0),
    };
    assert_eq!(v.name(), "toy");
    let out = v.run_once().unwrap();
    assert_eq!(out.printed, vec!["42"]);
    let d = v.time_batch(3).unwrap();
    assert_eq!(v.runs.get(), 4); // 1 explicit + 3 in the batch
    assert!(d.as_nanos() < 10_000_000); // trivial work, no sleeps
}

/// A variant whose executions always fail — the harness must surface its
/// error from time_batch, never swallow it into a Duration.
struct Failing {
    runs: std::cell::Cell<u32>,
}

impl ExecVariant for Failing {
    fn name(&self) -> &str {
        "failing"
    }

    fn run_once(&self) -> Result<RunOutputLike, String> {
        self.runs.set(self.runs.get() + 1);
        Err("runtime trap code=13".to_string())
    }
}

#[test]
fn timed_repetitions_propagate_execution_errors() {
    let v = Failing {
        runs: std::cell::Cell::new(0),
    };
    let err = v.time_batch(5).unwrap_err();
    assert_eq!(err, "runtime trap code=13");
    // FIRST failure aborts the batch (not all 5 reps).
    assert_eq!(v.runs.get(), 1);
}

/// A variant that takes some time.
struct Sleeping;

impl ExecVariant for Sleeping {
    fn name(&self) -> &str {
        "sleeping"
    }

    fn run_once(&self) -> Result<RunOutputLike, String> {
        let start = std::time::Instant::now();
        while start.elapsed() < std::time::Duration::from_millis(2) {}
        Ok(RunOutputLike::new(vec![], 0))
    }
}

#[test]
fn batches_are_timed_by_the_clock() {
    let d = Sleeping.time_batch(3).unwrap();
    assert!(d.as_nanos() >= 6_000_000, "{d:?}");
    assert!(d.as_nanos() < 2_000_000_000, "{d:?}");
    // a batch without repetitions runs nothing
    let f = Failing { runs: std::cell::Cell::new(0) };
    assert!(f.time_batch(0).is_ok());
    assert_eq!(f.runs.get(), 0);
    let _ = Duration::from_millis(1);
}

#[test]
fn printed_checksum_is_fnv_and_terminator_sensitive() {
    let one_line = vec!["12".to_string()];
    let split = vec!["1".to_string(), "2".to_string()];
    assert_ne!(printed_checksum(&one_line), printed_checksum(&split));
    // Empty input yields the FNV offset basis.
    assert_eq!(printed_checksum(&vec![]), 0xcbf2_9ce4_8422_2325);
    // Deterministic.
    assert_eq!(
        printed_checksum(&vec!["36.0".to_string()]),
        printed_checksum(&vec!["36.0".to_string()])
    );
    assert_eq!(
        printed_checksum(&vec![format!("{:?}", 36.0f64)]),
        printed_checksum(&vec!["36.0".to_string()])
    );
}

#[test]
fn native_runs_are_reported() {
    let ok = report_native(NativeRun { printed: vec!["1".to_string()], result: Ok(()), trap: None }).unwrap();
    assert_eq!(ok.printed, vec!["1"]);
    assert_eq!(ok.checksum, printed_checksum(&vec!["1".to_string()]));
    let trap = report_native(NativeRun { printed: vec![], result: Ok(()), trap: Some((2, 9, -4)) });
    assert_eq!(trap.unwrap_err(), "runtime trap code=2 at (9,-4)");
    let err = report_native(NativeRun { printed: vec![], result: Err("boom".to_string()), trap: Some((2, 9, -4)) });
    assert_eq!(err.unwrap_err(), "boom");
}
