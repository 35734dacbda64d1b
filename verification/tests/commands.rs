//! The command line, and comparing both ways of running a program.

use helix::command::{dispatch, stage_of, Command, Stage, HELP, HELP_LOOPS, HELP_RUN};
use helix::error::{RunError, RunErrorKind, Span};
use helix::interp::RunOutput;
use helix::selftest::{compare, Tally};

fn args(v: &[&str]) -> Vec<String> {
    v.iter().map(|s| s.to_string()).collect()
}

/// What `run` with these arguments asks for.
fn run(v: &[&str]) -> (String, bool, bool, Option<String>) {
    let mut all = vec!["run"];
    all.extend(v);
    match dispatch(&args(&all)) {
        Command::Run { path, jit, unchecked, threads } => (path, jit, unchecked, threads),
        other => panic!("{other:?}"),
    }
}

/// What is refused: message, code, and whether help is shown.
fn refused(v: &[&str]) -> (String, i32, bool) {
    match dispatch(&args(v)) {
        Command::Refuse { message, code, help } => (message, code, help),
        other => panic!("{other:?}"),
    }
}

#[test]
fn run_options() {
    assert_eq!(run(&["a.hx"]), ("a.hx".to_string(), false, false, None));
    assert_eq!(run(&["--backend", "jit", "a.hx"]).1, true);
    assert_eq!(run(&["a.hx", "--backend=jit"]).1, true);
    assert_eq!(run(&["a.hx", "-b=jit"]).1, true);
    assert_eq!(run(&["a.hx", "-b", "jit"]).1, true);
    assert_eq!(run(&["a.hx", "jit"]).1, true);
    assert_eq!(run(&["a.hx", "jit", "interp"]).1, false);
    // an option without its value
    assert_eq!(run(&["a.hx", "jit", "--backend"]).1, false);
    assert_eq!(run(&["a.hx", "--unchecked"]).2, true);
    assert_eq!(run(&["a.hx", "--threads", "4"]).3, Some("4".to_string()));
    assert_eq!(run(&["a.hx", "-t=8"]).3, Some("8".to_string()));
    assert_eq!(run(&["a.hx", "--threads=2=3"]).3, Some("2=3".to_string()));
    assert_eq!(run(&["a.hx", "-t"]).3, Some(String::new()));
    // the first other word is the file
    assert_eq!(run(&["a.hx", "b.hx"]).0, "a.hx");
}

#[test]
fn bad_arguments_are_refused() {
    assert_eq!(refused(&["run"]), ("error: run requires <file>".to_string(), 2, true));
    assert_eq!(
        refused(&["run", "a.hx", "--backend=gpu"]),
        ("error: unknown backend 'gpu' (expected 'interp' or 'jit')".to_string(), 2, false)
    );
    assert_eq!(refused(&["check"]), ("error: check requires <file>".to_string(), 1, true));
    assert_eq!(
        refused(&["dump", "ir"]),
        ("error: dump requires <stage> <file>".to_string(), 1, true)
    );
    assert_eq!(refused(&["loops"]), ("error: loops requires <file>".to_string(), 1, true));
    assert_eq!(
        refused(&["frobnicate"]),
        ("error: unknown subcommand 'frobnicate'".to_string(), 1, true)
    );
    assert_eq!(
        refused(&["observe", "--fast"]),
        ("unknown observe flag '--fast'".to_string(), 2, false)
    );
    match stage_of(&"tokenz".to_string()) {
        Err(Command::Refuse { message, .. }) => {
            assert_eq!(message, "error: unknown stage 'tokenz' (tokens|ast|ir|ssa)")
        }
        other => panic!("{other:?}"),
    }
    assert_eq!(stage_of(&"ssa".to_string()).unwrap(), Stage::Ssa);
}

#[test]
fn other_commands() {
    let help = |v: &[&str]| match dispatch(&args(v)) {
        Command::Help { text } => text,
        other => panic!("{other:?}"),
    };
    assert_eq!(help(&[]), HELP);
    assert_eq!(help(&["help"]), HELP);
    assert_eq!(help(&["run", "--help"]), HELP_RUN);
    assert_eq!(help(&["loops", "-h"]), HELP_LOOPS);
    assert_eq!(help(&["nothing", "-h"]), HELP);
    assert!(matches!(dispatch(&args(&["-V"])), Command::Version));
    assert!(matches!(dispatch(&args(&["selftest"])), Command::Selftest));
    match dispatch(&args(&["bench", "--out", "here", "--quick"])) {
        Command::Bench { quick, out } => assert_eq!((quick, out.as_str()), (true, "here")),
        other => panic!("{other:?}"),
    }
    match dispatch(&args(&["bench", "--out"])) {
        Command::Bench { quick, out } => {
            assert_eq!((quick, out.as_str()), (false, "docs/benchmarks/data"))
        }
        other => panic!("{other:?}"),
    }
    match dispatch(&args(&["observe", "--port", "80", "--no-open", "--port", "70000"])) {
        Command::Observe { port, open } => assert_eq!((port, open), (80, false)),
        other => panic!("{other:?}"),
    }
    match dispatch(&args(&["observe", "--port"])) {
        Command::Observe { port, open } => assert_eq!((port, open), (8931, true)),
        other => panic!("{other:?}"),
    }
}

#[test]
fn comparisons_of_both_backends() {
    let ok = || Ok(RunOutput { printed: args(&["1", "2"]), checksum: 0xabc });
    let err = || Err(RunError::new(RunErrorKind::DivByZero, Span { start: 0, end: 0 }));
    let c = compare("a.hx", &ok(), &args(&["1", "2"]), true, "", "");
    assert!(c.passed);
    assert_eq!(c.line, "  ok   a.hx (2 lines, checksum 0000000000000abc)");
    let c = compare("a.hx", &ok(), &args(&["1"]), true, "[1, 2]", "[1]");
    assert!(!c.passed);
    assert_eq!(c.line, "  FAIL a.hx: output mismatch\n    interp: [1, 2]\n    jit:    [1]");
    let c = compare("a.hx", &ok(), &args(&["1", "2"]), false, "", "");
    assert!(!c.passed);
    assert_eq!(c.line, "  FAIL a.hx: backend disagreement interp=true jit=false");
    let c = compare("a.hx", &err(), &args(&[]), true, "", "");
    assert!(!c.passed);
    assert_eq!(c.line, "  FAIL a.hx: backend disagreement interp=false jit=true");
    let c = compare("a.hx", &err(), &args(&[]), false, "", "");
    assert!(c.passed);
    assert_eq!(c.line, "  ok   a.hx (both backends reject at runtime)");
    let t = Tally { pass: 0, fail: 0 }.count(true).count(false).count(true);
    assert_eq!(t.summary(), "selftest: 2 passed, 1 failed");
    assert_eq!(t.code(), 1);
    assert_eq!(Tally { pass: 3, fail: 0 }.code(), 0);
}
