//! The command line.
use vstd::prelude::*;

use crate::numbers::{natural_value, parse_u64};
use crate::resize::starts;
use crate::text::{is_text, push_text, texts};

verus! {

/// What the program does, with all of its commands.
pub const HELP: &'static str = "HELIX Lite — automatic parallelizing compiler

Write ordinary sequential numerical code; HELIX proves which loops are safe to
run on every core, and shows you the proof.

USAGE:
    helix run <file.hx> [options]    execute a program (interpreter by default)
    helix check <file.hx>            type-check only, print diagnostics
    helix dump <stage> <file.hx>     print a pipeline stage for inspection
                                     stages: tokens | ast | ir | ssa
    helix loops <file.hx>            loop detection + dependence verdicts:
                                     SAFE / REDUCTION / SEQUENTIAL per loop
    helix bench [options]            benchmark campaign (writes JSON reports)
    helix observe [options]          launch the Observatory web UI
    helix selftest                   interp-vs-JIT differential gauntlet over
                                     every example — all outputs must match
    helix help                       this message

RUN OPTIONS:
    --backend <interp|jit>   execution backend (default: interp).
                             `--backend=jit` also accepted. The JIT compiles
                             through Cranelift and parallelizes approved loops.
    --unchecked              strip array bounds checks (JIT only); division
                             guards always remain.

BENCH OPTIONS:
    --quick                  smaller sizes, faster turnaround
    --out <dir>              output directory (default: docs/benchmarks/data)

OBSERVE OPTIONS:
    --port <n>               port to bind (default: 8931)
    --no-open                do not open a browser tab automatically

ENVIRONMENT (all optional):
    HELIX_NTHREADS=<n>       cap the threads used by parallel loops
    HELIX_SCHEDULE=<name>    static | dynamic | guided
    HELIX_RUNTIME=scope|pool execution stage (pool is the fast default)

EXAMPLES:
    helix run examples/saxpy.hx                 # interpret it
    helix run --backend jit examples/saxpy.hx   # compile + run natively
    helix loops examples/recurrence_reject.hx   # see a rejection with proof";

/// What `run` does.
pub const HELP_RUN: &'static str = "helix run <file.hx> [options]\n\nExecutes a HELIX program.\n\n  --backend <interp|jit>   backend choice; default interp.\n                           --backend=jit also accepted. The JIT compiles\n                           through Cranelift and parallelizes approved loops.\n  --threads <n> (-t)       cap parallel loops at n threads for this run.\n  --unchecked              strip array bounds checks (JIT only).\n\nExit codes: 0 ok · 1 runtime/compile error · 2 bad arguments.";

/// What `check` does.
pub const HELP_CHECK: &'static str = "helix check <file.hx>\n\nType-checks only; prints diagnostics with source carets.\nExit codes: 0 ok · 1 diagnostics found.";

/// What `dump` does.
pub const HELP_DUMP: &'static str = "helix dump <stage> <file.hx>\n\nPrints one pipeline stage for inspection or golden tests.\nStages: tokens | ast | ir | ssa";

/// What `loops` does.
pub const HELP_LOOPS: &'static str = "helix loops <file.hx>\n\nRuns loop detection + the dependence battery and prints one verdict\nper loop:\n  SAFE         iterations proven independent -> DOALL parallel\n  REDUCTION(op) associative accumulation -> private partials + combine\n  SEQUENTIAL   refused; the reason line names the carrying access pair";

/// What `bench` does.
pub const HELP_BENCH: &'static str = "helix bench [--quick] [--out <dir>]\n\nRuns the benchmark campaign: interleaved sampling, CV-gated reruns,\nchecksummed parity gates, and analyzer-verdict assertions.\n  --quick     smaller sizes for fast turnaround\n  --out <dir> output directory (default docs/benchmarks/data)";

/// What `observe` does.
pub const HELP_OBSERVE: &'static str = "helix observe [--port <n>] [--no-open]\n\nLaunches the Observatory web UI at http://127.0.0.1:<port> (default 8931)\nand opens a browser tab unless --no-open is given.";

/// What `selftest` does.
pub const HELP_SELFTEST: &'static str = "helix selftest\n\nDifferential gauntlet: every examples/*.hx runs through BOTH backends;\nprinted output must be byte-identical. Exit 1 on any mismatch.";

/// What to do.
#[allow(inconsistent_fields)]
#[derive(Debug)]
pub enum Command {
    /// Run a program, in the interpreter or as machine code.
    Run { path: String, jit: bool, unchecked: bool, threads: Option<String> },
    Check { path: String },
    Dump { stage: String, path: String },
    Loops { path: String },
    Bench { quick: bool, out: String },
    Observe { port: u16, open: bool },
    Selftest,
    Version,
    /// Show a text.
    Help { text: &'static str },
    /// Say what is wrong, and how the program is used where that helps.
    Refuse { message: String, code: i32, help: bool },
}

/// What to do, as mathematical values.
#[allow(inconsistent_fields)]
pub enum CommandV {
    Run { path: Seq<char>, jit: bool, unchecked: bool, threads: Option<Seq<char>> },
    Check { path: Seq<char> },
    Dump { stage: Seq<char>, path: Seq<char> },
    Loops { path: Seq<char> },
    Bench { quick: bool, out: Seq<char> },
    Observe { port: u16, open: bool },
    Selftest,
    Version,
    Help { text: Seq<char> },
    Refuse { message: Seq<char>, code: i32, help: bool },
}

/// The text of an option.
pub open spec fn opt_text(s: Option<String>) -> Option<Seq<char>> {
    match s {
        Some(t) => Some(t@),
        None => None,
    }
}

impl View for Command {
    type V = CommandV;

    open spec fn view(&self) -> CommandV {
        match *self {
            Command::Run { path, jit, unchecked, threads } => CommandV::Run {
                path: path@,
                jit,
                unchecked,
                threads: opt_text(threads),
            },
            Command::Check { path } => CommandV::Check { path: path@ },
            Command::Dump { stage, path } => CommandV::Dump { stage: stage@, path: path@ },
            Command::Loops { path } => CommandV::Loops { path: path@ },
            Command::Bench { quick, out } => CommandV::Bench { quick, out: out@ },
            Command::Observe { port, open } => CommandV::Observe { port, open },
            Command::Selftest => CommandV::Selftest,
            Command::Version => CommandV::Version,
            Command::Help { text } => CommandV::Help { text: text@ },
            Command::Refuse { message, code, help } => CommandV::Refuse {
                message: message@,
                code,
                help,
            },
        }
    }
}

// ---------------------------------------------------------------------------
// run
// ---------------------------------------------------------------------------

/// The arguments of `run`, as far as they were read.
#[verifier::ext_equal]
pub struct RunArgs {
    pub path: Option<Seq<char>>,
    pub backend: Seq<char>,
    pub unchecked: bool,
    pub threads: Option<Seq<char>>,
}

/// The text of an argument, or another text where there is none.
pub open spec fn arg_or(args: Seq<Seq<char>>, i: int, other: Seq<char>) -> Seq<char> {
    if i < args.len() {
        args[i]
    } else {
        other
    }
}

/// Reads the arguments of `run` from number `i` on.
pub open spec fn run_args(args: Seq<Seq<char>>, i: nat, r: RunArgs) -> RunArgs
    decreases args.len() + 1 - i,
{
    if i >= args.len() {
        r
    } else {
        let a = args[i as int];
        if a == "--backend"@ || a == "-b"@ {
            run_args(args, i + 2, RunArgs { backend: arg_or(args, (i + 1) as int, "interp"@), ..r })
        } else if starts(a, "--backend="@) {
            run_args(args, i + 1, RunArgs { backend: a.skip("--backend="@.len() as int), ..r })
        } else if starts(a, "-b="@) {
            run_args(args, i + 1, RunArgs { backend: a.skip("-b="@.len() as int), ..r })
        } else if a == "jit"@ || a == "interp"@ {
            run_args(args, i + 1, RunArgs { backend: a, ..r })
        } else if a == "--unchecked"@ {
            run_args(args, i + 1, RunArgs { unchecked: true, ..r })
        } else if a == "--threads"@ || a == "-t"@ {
            run_args(args, i + 2, RunArgs { threads: Some(arg_or(args, (i + 1) as int, ""@)), ..r })
        } else if starts(a, "--threads="@) {
            run_args(
                args,
                i + 1,
                RunArgs { threads: Some(a.skip("--threads="@.len() as int)), ..r },
            )
        } else if starts(a, "-t="@) {
            run_args(args, i + 1, RunArgs { threads: Some(a.skip("-t="@.len() as int)), ..r })
        } else if r.path is None {
            run_args(args, i + 1, RunArgs { path: Some(a), ..r })
        } else {
            run_args(args, i + 1, r)
        }
    }
}

/// What `run` does with its arguments, which start at number 1.
pub open spec fn run_command(args: Seq<Seq<char>>) -> CommandV {
    let r = run_args(
        args,
        1,
        RunArgs { path: None, backend: "interp"@, unchecked: false, threads: None },
    );
    match r.path {
        None => CommandV::Refuse { message: "error: run requires <file>"@, code: 2, help: true },
        Some(path) => if r.backend != "interp"@ && r.backend != "jit"@ {
            CommandV::Refuse {
                message: "error: unknown backend '"@ + r.backend
                    + "' (expected 'interp' or 'jit')"@,
                code: 2,
                help: false,
            }
        } else {
            CommandV::Run {
                path,
                jit: r.backend == "jit"@,
                unchecked: r.unchecked,
                threads: r.threads,
            }
        },
    }
}

/// What follows `p`, where the text starts with it.
fn after(s: &String, p: &str) -> (r: Option<String>)
    ensures
        r is Some <==> starts(s@, p@),
        r is Some ==> r->0@ == s@.skip(p@.len() as int),
{
    let n: usize = p.unicode_len();
    let len: usize = s.as_str().unicode_len();
    if n > len {
        return None;
    }
    let head = s.as_str().substring_char(0, n).to_owned();
    proof {
        assert(s@.subrange(0, n as int) =~= s@.take(n as int));
        assert(s@.subrange(n as int, len as int) =~= s@.skip(n as int));
    }
    if head == p.to_owned() {
        Some(s.as_str().substring_char(n, len).to_owned())
    } else {
        None
    }
}

/// A copy of an argument, or of another text where there is none.
fn copy_arg(args: &Vec<String>, i: usize, other: &str) -> (r: String)
    ensures
        r@ == arg_or(texts(args@), i as int, other@),
{
    if i < args.len() {
        args[i].as_str().to_owned()
    } else {
        other.to_owned()
    }
}

/// What `run` does with its arguments.
fn parse_run(args: &Vec<String>) -> (r: Command)
    requires
        args@.len() < usize::MAX,
    ensures
        r@ == run_command(texts(args@)),
{
    let ghost all = texts(args@);
    let n: usize = args.len();
    let mut path: Option<String> = None;
    let mut backend = "interp".to_owned();
    let mut unchecked = false;
    let mut threads: Option<String> = None;
    let mut i: usize = 1;
    let ghost first = RunArgs {
        path: None,
        backend: "interp"@,
        unchecked: false,
        threads: None,
    };
    while i < n
        invariant
            n == args@.len(),
            n < usize::MAX,
            1 <= i <= n + 1,
            all == texts(args@),
            run_args(all, 1, first) == run_args(
                all,
                i as nat,
                (RunArgs {
                    path: opt_text(path),
                    backend: backend@,
                    unchecked,
                    threads: opt_text(threads),
                }),
            ),
        decreases n + 1 - i,
    {
        let a = &args[i];
        assert(all[i as int] == a@);
        let mut step: usize = 1;
        if is_text(a, "--backend") || is_text(a, "-b") {
            backend = copy_arg(args, i + 1, "interp");
            step = 2;
        } else if let Some(v) = after(a, "--backend=") {
            backend = v;
        } else if let Some(v) = after(a, "-b=") {
            backend = v;
        } else if is_text(a, "jit") || is_text(a, "interp") {
            backend = a.as_str().to_owned();
        } else if is_text(a, "--unchecked") {
            unchecked = true;
        } else if is_text(a, "--threads") || is_text(a, "-t") {
            threads = Some(copy_arg(args, i + 1, ""));
            step = 2;
        } else if let Some(v) = after(a, "--threads=") {
            threads = Some(v);
        } else if let Some(v) = after(a, "-t=") {
            threads = Some(v);
        } else if path.is_none() {
            path = Some(a.as_str().to_owned());
        }
        if step > n - i {
            i = n + 1;
        } else {
            i = i + step;
        }
    }
    match path {
        None => Command::Refuse {
            message: "error: run requires <file>".to_owned(),
            code: 2,
            help: true,
        },
        Some(path) => {
            if !is_text(&backend, "interp") && !is_text(&backend, "jit") {
                let mut message = "error: unknown backend '".to_owned();
                push_text(&mut message, backend.as_str());
                push_text(&mut message, "' (expected 'interp' or 'jit')");
                return Command::Refuse { message, code: 2, help: false };
            }
            let jit = is_text(&backend, "jit");
            Command::Run { path, jit, unchecked, threads }
        },
    }
}

// ---------------------------------------------------------------------------
// bench and observe
// ---------------------------------------------------------------------------

/// Some argument from number 1 on is this text; the number of the first.
pub open spec fn flag_at(args: Seq<Seq<char>>, flag: Seq<char>, i: nat) -> Option<nat>
    decreases args.len() - i,
{
    if i >= args.len() {
        None
    } else if args[i as int] == flag {
        Some(i)
    } else {
        flag_at(args, flag, i + 1)
    }
}

/// What `bench` does with its arguments, which start at number 1.
pub open spec fn bench_command(args: Seq<Seq<char>>) -> CommandV {
    CommandV::Bench {
        quick: flag_at(args, "--quick"@, 1) is Some,
        out: match flag_at(args, "--out"@, 1) {
            Some(i) => arg_or(args, (i + 1) as int, "docs/benchmarks/data"@),
            None => "docs/benchmarks/data"@,
        },
    }
}

/// The number of the first argument from number 1 on that is this text.
fn find_flag(args: &Vec<String>, flag: &str) -> (r: Option<usize>)
    ensures
        match flag_at(texts(args@), flag@, 1) {
            Some(i) => r == Some(i as usize) && i < args@.len(),
            None => r is None,
        },
{
    let ghost all = texts(args@);
    let mut i: usize = 1;
    while i < args.len()
        invariant
            1 <= i,
            all == texts(args@),
            i <= args@.len() || i == 1,
            flag_at(all, flag@, 1) == flag_at(all, flag@, i as nat),
        decreases args@.len() - i,
    {
        assert(all[i as int] == args@[i as int]@);
        if is_text(&args[i], flag) {
            return Some(i);
        }
        i = i + 1;
    }
    None
}

/// What `bench` does with its arguments.
fn parse_bench(args: &Vec<String>) -> (r: Command)
    ensures
        r@ == bench_command(texts(args@)),
{
    let n: usize = args.len();
    let quick = find_flag(args, "--quick").is_some();
    let out = match find_flag(args, "--out") {
        Some(i) => copy_arg(args, i + 1, "docs/benchmarks/data"),
        None => "docs/benchmarks/data".to_owned(),
    };
    Command::Bench { quick, out }
}

/// The number of a port that a text writes.
pub open spec fn port_value(s: Seq<char>) -> Option<u16> {
    match natural_value(s) {
        Some(v) => if v <= u16::MAX {
            Some(v as u16)
        } else {
            None
        },
        None => None,
    }
}

/// What `observe` does with its arguments from number `i` on. A port that cannot be read
/// changes nothing.
pub open spec fn observe_command(args: Seq<Seq<char>>, i: nat, port: u16, open: bool) -> CommandV
    decreases args.len() + 1 - i,
{
    if i >= args.len() {
        CommandV::Observe { port, open }
    } else if args[i as int] == "--port"@ {
        let p = if i + 1 < args.len() {
            match port_value(args[(i + 1) as int]) {
                Some(p) => p,
                None => port,
            }
        } else {
            port
        };
        observe_command(args, i + 2, p, open)
    } else if args[i as int] == "--no-open"@ {
        observe_command(args, i + 1, port, false)
    } else {
        CommandV::Refuse {
            message: "unknown observe flag '"@ + args[i as int] + "'"@,
            code: 2,
            help: false,
        }
    }
}

/// What `observe` does with its arguments.
fn parse_observe(args: &Vec<String>) -> (r: Command)
    requires
        args@.len() < usize::MAX,
    ensures
        r@ == observe_command(texts(args@), 1, 8931, true),
{
    let ghost all = texts(args@);
    let n: usize = args.len();
    let mut port: u16 = 8931;
    let mut open = true;
    let mut i: usize = 1;
    while i < n
        invariant
            n == args@.len(),
            n < usize::MAX,
            1 <= i <= n + 1,
            all == texts(args@),
            observe_command(all, 1, 8931, true) == observe_command(all, i as nat, port, open),
        decreases n + 1 - i,
    {
        assert(all[i as int] == args@[i as int]@);
        if is_text(&args[i], "--port") {
            if n - i > 1 {
                assert(all[i + 1] == args@[i + 1]@);
                if let Some(p) = parse_u64(args[i + 1].as_str()) {
                    if p <= 0xffff {
                        port = p as u16;
                    }
                }
                i = i + 2;
            } else {
                i = n + 1;
            }
        } else if is_text(&args[i], "--no-open") {
            open = false;
            i = i + 1;
        } else {
            let mut message = "unknown observe flag '".to_owned();
            push_text(&mut message, args[i].as_str());
            push_text(&mut message, "'");
            return Command::Refuse { message, code: 2, help: false };
        }
    }
    Command::Observe { port, open }
}

// ---------------------------------------------------------------------------
// All commands
// ---------------------------------------------------------------------------

/// The text about a command, if it is one.
pub open spec fn help_on(cmd: Seq<char>) -> Option<Seq<char>> {
    if cmd == "run"@ {
        Some(HELP_RUN@)
    } else if cmd == "check"@ {
        Some(HELP_CHECK@)
    } else if cmd == "dump"@ {
        Some(HELP_DUMP@)
    } else if cmd == "loops"@ {
        Some(HELP_LOOPS@)
    } else if cmd == "bench"@ {
        Some(HELP_BENCH@)
    } else if cmd == "observe"@ {
        Some(HELP_OBSERVE@)
    } else if cmd == "selftest"@ {
        Some(HELP_SELFTEST@)
    } else {
        None
    }
}

/// A text asks for help.
pub open spec fn asks_for_help(s: Seq<char>) -> bool {
    s == "--help"@ || s == "-h"@
}

/// The program is used in a wrong way.
pub open spec fn misused(message: Seq<char>) -> CommandV {
    CommandV::Refuse { message: "error: "@ + message, code: 1, help: true }
}

/// What the arguments ask for.
pub open spec fn command(args: Seq<Seq<char>>) -> CommandV {
    if args.len() > 1 && asks_for_help(args[1]) {
        CommandV::Help {
            text: match help_on(args[0]) {
                Some(t) => t,
                None => HELP@,
            },
        }
    } else if args.len() == 0 {
        CommandV::Help { text: HELP@ }
    } else {
        let cmd = args[0];
        if cmd == "run"@ {
            run_command(args)
        } else if cmd == "check"@ {
            if args.len() > 1 {
                CommandV::Check { path: args[1] }
            } else {
                misused("check requires <file>"@)
            }
        } else if cmd == "dump"@ {
            if args.len() > 2 {
                CommandV::Dump { stage: args[1], path: args[2] }
            } else {
                misused("dump requires <stage> <file>"@)
            }
        } else if cmd == "loops"@ {
            if args.len() > 1 {
                CommandV::Loops { path: args[1] }
            } else {
                misused("loops requires <file>"@)
            }
        } else if cmd == "bench"@ {
            bench_command(args)
        } else if cmd == "observe"@ {
            observe_command(args, 1, 8931, true)
        } else if cmd == "selftest"@ {
            CommandV::Selftest
        } else if cmd == "--version"@ || cmd == "-V"@ || cmd == "version"@ {
            CommandV::Version
        } else if asks_for_help(cmd) || cmd == "help"@ {
            CommandV::Help { text: HELP@ }
        } else {
            misused("unknown subcommand '"@ + cmd + "'"@)
        }
    }
}

/// The program is used in a wrong way.
fn usage(message: &str) -> (r: Command)
    ensures
        r@ == misused(message@),
{
    let mut s = "error: ".to_owned();
    push_text(&mut s, message);
    Command::Refuse { message: s, code: 1, help: true }
}

/// The text about a command, if it is one.
fn subcommand_help(cmd: &String) -> (r: Option<&'static str>)
    ensures
        match help_on(cmd@) {
            Some(t) => r is Some && r->0@ == t,
            None => r is None,
        },
{
    if is_text(cmd, "run") {
        Some(HELP_RUN)
    } else if is_text(cmd, "check") {
        Some(HELP_CHECK)
    } else if is_text(cmd, "dump") {
        Some(HELP_DUMP)
    } else if is_text(cmd, "loops") {
        Some(HELP_LOOPS)
    } else if is_text(cmd, "bench") {
        Some(HELP_BENCH)
    } else if is_text(cmd, "observe") {
        Some(HELP_OBSERVE)
    } else if is_text(cmd, "selftest") {
        Some(HELP_SELFTEST)
    } else {
        None
    }
}

/// What the arguments ask for.
pub fn dispatch(args: &Vec<String>) -> (r: Command)
    requires
        args@.len() < usize::MAX,
    ensures
        r@ == command(texts(args@)),
{
    let ghost all = texts(args@);
    let n: usize = args.len();
    proof {
        assert(all.len() == n);
        assert forall|i: int| 0 <= i < n implies all[i] == args@[i]@ by {}
    }
    if n > 1 && (is_text(&args[1], "--help") || is_text(&args[1], "-h")) {
        return match subcommand_help(&args[0]) {
            Some(text) => Command::Help { text },
            None => Command::Help { text: HELP },
        };
    }
    if n == 0 {
        return Command::Help { text: HELP };
    }
    let cmd = &args[0];
    if is_text(cmd, "run") {
        parse_run(args)
    } else if is_text(cmd, "check") {
        if n > 1 {
            Command::Check { path: args[1].as_str().to_owned() }
        } else {
            usage("check requires <file>")
        }
    } else if is_text(cmd, "dump") {
        if n > 2 {
            Command::Dump { stage: args[1].as_str().to_owned(), path: args[2].as_str().to_owned() }
        } else {
            usage("dump requires <stage> <file>")
        }
    } else if is_text(cmd, "loops") {
        if n > 1 {
            Command::Loops { path: args[1].as_str().to_owned() }
        } else {
            usage("loops requires <file>")
        }
    } else if is_text(cmd, "bench") {
        parse_bench(args)
    } else if is_text(cmd, "observe") {
        parse_observe(args)
    } else if is_text(cmd, "selftest") {
        Command::Selftest
    } else if is_text(cmd, "--version") || is_text(cmd, "-V") || is_text(cmd, "version") {
        Command::Version
    } else if is_text(cmd, "--help") || is_text(cmd, "-h") || is_text(cmd, "help") {
        Command::Help { text: HELP }
    } else {
        let mut s = "unknown subcommand '".to_owned();
        push_text(&mut s, cmd.as_str());
        push_text(&mut s, "'");
        usage(s.as_str())
    }
}

/// A stage of the compiler that can be shown.
#[derive(Clone, Copy, Debug, PartialEq, Eq, Structural)]
pub enum Stage {
    Tokens,
    Ast,
    Ir,
    Ssa,
}

/// The stage of a name.
pub open spec fn stage_named(s: Seq<char>) -> Option<Stage> {
    if s == "tokens"@ {
        Some(Stage::Tokens)
    } else if s == "ast"@ {
        Some(Stage::Ast)
    } else if s == "ir"@ {
        Some(Stage::Ir)
    } else if s == "ssa"@ {
        Some(Stage::Ssa)
    } else {
        None
    }
}

/// The stage of a name, or what to say where there is none.
pub fn stage_of(name: &String) -> (r: Result<Stage, Command>)
    ensures
        match stage_named(name@) {
            Some(s) => r == Ok::<Stage, Command>(s),
            None => r matches Err(c) && c@ == misused(
                "unknown stage '"@ + name@ + "' (tokens|ast|ir|ssa)"@,
            ),
        },
{
    if is_text(name, "tokens") {
        Ok(Stage::Tokens)
    } else if is_text(name, "ast") {
        Ok(Stage::Ast)
    } else if is_text(name, "ir") {
        Ok(Stage::Ir)
    } else if is_text(name, "ssa") {
        Ok(Stage::Ssa)
    } else {
        let mut s = "unknown stage '".to_owned();
        push_text(&mut s, name.as_str());
        push_text(&mut s, "' (tokens|ast|ir|ssa)");
        Err(usage(s.as_str()))
    }
}

} // verus!
