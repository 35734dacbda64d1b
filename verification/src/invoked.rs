//! What the command line makes of its arguments, said argument by argument.
use vstd::prelude::*;

use crate::command::{
    asks_for_help, bench_command, command, flag_at, observe_command, port_value, run_args,
    CommandV, RunArgs,
};
use crate::numbers::natural_value;
use crate::resize::starts;

verus! {

/// The argument is followed by a value.
pub open spec fn takes_value(a: Seq<char>) -> bool {
    a == "--backend"@ || a == "-b"@ || a == "--threads"@ || a == "-t"@
}

/// The argument is no option of `run`.
pub open spec fn plain(a: Seq<char>) -> bool {
    &&& !takes_value(a)
    &&& a != "jit"@ && a != "interp"@ && a != "--unchecked"@
    &&& !starts(a, "--backend="@) && !starts(a, "-b="@)
    &&& !starts(a, "--threads="@) && !starts(a, "-t="@)
}

/// The arguments ask for a run, and a further argument stands for itself.
pub open spec fn runs(a: Seq<Seq<char>>) -> bool {
    &&& a.len() >= 2
    &&& a[0] == "run"@
    &&& command(a) is Run
    &&& !takes_value(a.last())
}

/// What is read before `run` has read anything.
spec fn nothing() -> RunArgs {
    RunArgs { path: None, backend: "interp"@, unchecked: false, threads: None }
}

/// Arguments behind others are read with what was read of those.
proof fn lemma_read_on(a: Seq<Seq<char>>, b: Seq<Seq<char>>, i: nat, r: RunArgs)
    requires
        1 <= i <= a.len() <= b.len(),
        forall|j: int| 0 <= j < a.len() ==> #[trigger] b[j] == a[j],
        i == a.len() || !takes_value(a.last()),
    ensures
        run_args(b, i, r) == run_args(b, a.len(), run_args(a, i, r)),
    decreases a.len() - i,
{
    if i < a.len() {
        let w = a[i as int];
        assert(b[i as int] == w);
        if takes_value(w) {
            assert(i + 1 < a.len());
            assert(b[(i + 1) as int] == a[(i + 1) as int]);
            if w == "--backend"@ || w == "-b"@ {
                lemma_read_on(a, b, i + 2, RunArgs { backend: a[(i + 1) as int], ..r });
            } else {
                lemma_words();
                lemma_read_on(a, b, i + 2, RunArgs { threads: Some(a[(i + 1) as int]), ..r });
            }
        } else if starts(w, "--backend="@) {
            lemma_read_on(
                a,
                b,
                i + 1,
                RunArgs { backend: w.skip("--backend="@.len() as int), ..r },
            );
        } else if starts(w, "-b="@) {
            lemma_read_on(a, b, i + 1, RunArgs { backend: w.skip("-b="@.len() as int), ..r });
        } else if w == "jit"@ || w == "interp"@ {
            lemma_read_on(a, b, i + 1, RunArgs { backend: w, ..r });
        } else if w == "--unchecked"@ {
            lemma_read_on(a, b, i + 1, RunArgs { unchecked: true, ..r });
        } else if starts(w, "--threads="@) {
            lemma_read_on(
                a,
                b,
                i + 1,
                RunArgs { threads: Some(w.skip("--threads="@.len() as int)), ..r },
            );
        } else if starts(w, "-t="@) {
            lemma_read_on(
                a,
                b,
                i + 1,
                RunArgs { threads: Some(w.skip("-t="@.len() as int)), ..r },
            );
        } else if r.path is None {
            lemma_read_on(a, b, i + 1, RunArgs { path: Some(w), ..r });
        } else {
            lemma_read_on(a, b, i + 1, r);
        }
    }
}

/// A text does not start with another that has another character somewhere.
proof fn lemma_other_start(s: Seq<char>, p: Seq<char>, i: int)
    requires
        0 <= i < p.len(),
        i < s.len() ==> s[i] != p[i],
    ensures
        !starts(s, p),
{
    if starts(s, p) {
        assert(s.take(p.len() as int)[i] == p[i]);
    }
}

/// The options are told apart.
proof fn lemma_words()
    ensures
        "--threads"@ != "--backend"@,
        "--threads"@ != "-b"@,
        "--threads"@ != "jit"@,
        "--threads"@ != "interp"@,
        "--threads"@ != "--unchecked"@,
        !starts("--threads"@, "--backend="@),
        !starts("--threads"@, "-b="@),
        "-t"@ != "--backend"@,
        "-t"@ != "-b"@,
        "-t"@ != "jit"@,
        "-t"@ != "interp"@,
        "-t"@ != "--unchecked"@,
        !starts("-t"@, "--backend="@),
        !starts("-t"@, "-b="@),
        "--unchecked"@ != "--backend"@,
        "--unchecked"@ != "-b"@,
        "--unchecked"@ != "jit"@,
        "--unchecked"@ != "interp"@,
        !starts("--unchecked"@, "--backend="@),
        !starts("--unchecked"@, "-b="@),
        "jit"@ != "interp"@,
        "jit"@ != "--backend"@,
        "jit"@ != "-b"@,
        !starts("jit"@, "--backend="@),
        !starts("jit"@, "-b="@),
        "interp"@ != "--backend"@,
        "interp"@ != "-b"@,
        !starts("interp"@, "--backend="@),
        !starts("interp"@, "-b="@),
{
    lemma_letters();
    lemma_other_start("--threads"@, "--backend="@, 2);
    lemma_other_start("--threads"@, "-b="@, 1);
    lemma_other_start("-t"@, "--backend="@, 1);
    lemma_other_start("-t"@, "-b="@, 1);
    lemma_other_start("--unchecked"@, "--backend="@, 2);
    lemma_other_start("--unchecked"@, "-b="@, 1);
    lemma_other_start("jit"@, "--backend="@, 0);
    lemma_other_start("jit"@, "-b="@, 0);
    lemma_other_start("interp"@, "--backend="@, 0);
    lemma_other_start("interp"@, "-b="@, 0);
}

/// The first letters of the options and how long they are.
proof fn lemma_letters()
    ensures
        "--backend"@.len() == 9 && "--backend"@[0] == '-' && "--backend"@[1] == '-'
            && "--backend"@[2] == 'b',
        "--backend="@.len() == 10 && "--backend="@[0] == '-' && "--backend="@[1] == '-'
            && "--backend="@[2] == 'b',
        "-b"@.len() == 2 && "-b"@[0] == '-' && "-b"@[1] == 'b',
        "-b="@.len() == 3 && "-b="@[0] == '-' && "-b="@[1] == 'b',
        "--threads"@.len() == 9 && "--threads"@[0] == '-' && "--threads"@[1] == '-'
            && "--threads"@[2] == 't',
        "--threads="@.len() == 10 && "--threads="@[0] == '-' && "--threads="@[1] == '-'
            && "--threads="@[2] == 't',
        "-t"@.len() == 2 && "-t"@[0] == '-' && "-t"@[1] == 't',
        "-t="@.len() == 3 && "-t="@[0] == '-' && "-t="@[1] == 't',
        "--unchecked"@.len() == 11 && "--unchecked"@[0] == '-' && "--unchecked"@[1] == '-'
            && "--unchecked"@[2] == 'u',
        "jit"@.len() == 3 && "jit"@[0] == 'j',
        "interp"@.len() == 6 && "interp"@[0] == 'i',
{
    reveal_strlit("--backend");
    reveal_strlit("--backend=");
    reveal_strlit("-b");
    reveal_strlit("-b=");
    reveal_strlit("--threads");
    reveal_strlit("--threads=");
    reveal_strlit("-t");
    reveal_strlit("-t=");
    reveal_strlit("--unchecked");
    reveal_strlit("jit");
    reveal_strlit("interp");
}

/// A program is run in the interpreter, with every check and on any number of threads, where
/// the file is all that is given.
pub proof fn law_run_interprets_a_file(path: Seq<char>)
    requires
        plain(path),
        !asks_for_help(path),
    ensures
        command(seq!["run"@, path]) == (CommandV::Run {
            path,
            jit: false,
            unchecked: false,
            threads: None,
        }),
        command(seq!["run"@]) is Refuse,
{
    let a = seq!["run"@, path];
    lemma_words();
    reveal_with_fuel(run_args, 3);
    assert(a[1] == path);
}

/// The backend that is named last is the one that a program is run with, however it is given;
/// nothing else of the run changes. A backend that there is not is refused.
pub proof fn law_the_last_backend_is_used(a: Seq<Seq<char>>, v: Seq<char>, b: Seq<Seq<char>>)
    requires
        runs(a),
        b == a.push("--backend"@).push(v) || b == a.push("-b"@).push(v) || b == a.push(
            "--backend="@ + v,
        ) || b == a.push("-b="@ + v) || ((v == "jit"@ || v == "interp"@) && b == a.push(v)),
    ensures
        v == "jit"@ ==> command(b) == (CommandV::Run {
            path: command(a)->Run_path,
            jit: true,
            unchecked: command(a)->unchecked,
            threads: command(a)->threads,
        }),
        v == "interp"@ ==> command(b) == (CommandV::Run {
            path: command(a)->Run_path,
            jit: false,
            unchecked: command(a)->unchecked,
            threads: command(a)->threads,
        }),
        v != "jit"@ && v != "interp"@ ==> command(b) is Refuse,
{
    lemma_letters();
    lemma_words();
    let n = a.len();
    lemma_read_on(a, b, 1, nothing());
    let r = run_args(a, 1, nothing());
    reveal_with_fuel(run_args, 2);
    assert(b[1] == a[1]);
    assert(b[0] == a[0]);
    let w = b[n as int];
    let long = "--backend="@ + v;
    let short = "-b="@ + v;
    assert(long.take(10) =~= "--backend="@);
    assert(long.skip(10) =~= v);
    assert(short.take(3) =~= "-b="@);
    assert(short.skip(3) =~= v);
    lemma_other_start(short, "--backend="@, 1);
    if w == short {
        assert(short[1] == 'b');
        assert(w != "--backend"@);
        assert(w != "-b"@);
    }
    if b == a.push("--backend"@).push(v) || b == a.push("-b"@).push(v) {
        assert(b[(n + 1) as int] == v);
    }
    assert(run_args(b, n, r) == RunArgs { backend: v, ..r });
}

/// Arrays are not checked where that is asked for; nothing else of the run changes.
pub proof fn law_checks_are_left_out_when_asked(a: Seq<Seq<char>>)
    requires
        runs(a),
    ensures
        command(a.push("--unchecked"@)) == (CommandV::Run {
            path: command(a)->Run_path,
            jit: command(a)->jit,
            unchecked: true,
            threads: command(a)->threads,
        }),
{
    lemma_words();
    let b = a.push("--unchecked"@);
    let n = a.len();
    lemma_read_on(a, b, 1, nothing());
    let r = run_args(a, 1, nothing());
    reveal_with_fuel(run_args, 2);
    assert(b[1] == a[1]);
    assert(b[0] == a[0]);
    assert(b[n as int] == "--unchecked"@);
    assert(run_args(b, n, r) == RunArgs { unchecked: true, ..r });
}

/// The number of threads that is given last is passed on as it stands, however it is given;
/// nothing else of the run changes.
pub proof fn law_the_last_number_of_threads_is_used(
    a: Seq<Seq<char>>,
    v: Seq<char>,
    b: Seq<Seq<char>>,
)
    requires
        runs(a),
        b == a.push("--threads"@).push(v) || b == a.push("-t"@).push(v) || b == a.push(
            "--threads="@ + v,
        ) || b == a.push("-t="@ + v),
    ensures
        command(b) == (CommandV::Run {
            path: command(a)->Run_path,
            jit: command(a)->jit,
            unchecked: command(a)->unchecked,
            threads: Some(v),
        }),
{
    lemma_letters();
    lemma_words();
    let n = a.len();
    lemma_read_on(a, b, 1, nothing());
    let r = run_args(a, 1, nothing());
    reveal_with_fuel(run_args, 2);
    assert(b[1] == a[1]);
    assert(b[0] == a[0]);
    let w = b[n as int];
    let long = "--threads="@ + v;
    let short = "-t="@ + v;
    assert(long.take(10) =~= "--threads="@);
    assert(long.skip(10) =~= v);
    assert(short.take(3) =~= "-t="@);
    assert(short.skip(3) =~= v);
    assert(short[1] == 't');
    assert(short[0] == '-');
    assert(long[2] == 't');
    assert(long[1] == '-');
    assert(long[0] == '-');
    lemma_other_start(short, "--backend="@, 1);
    lemma_other_start(short, "-b="@, 1);
    lemma_other_start(short, "--threads="@, 1);
    lemma_other_start(long, "--backend="@, 2);
    lemma_other_start(long, "-b="@, 1);
    if b == a.push("--threads"@).push(v) || b == a.push("-t"@).push(v) {
        assert(b[(n + 1) as int] == v);
    }
    assert(run_args(b, n, r) == RunArgs { threads: Some(v), ..r });
}

/// The first file that is given is run; further ones change nothing.
pub proof fn law_the_first_file_is_run(a: Seq<Seq<char>>, w: Seq<char>)
    requires
        runs(a),
        plain(w),
    ensures
        command(a.push(w)) == command(a),
{
    let b = a.push(w);
    let n = a.len();
    lemma_read_on(a, b, 1, nothing());
    let r = run_args(a, 1, nothing());
    reveal_with_fuel(run_args, 2);
    assert(b[1] == a[1]);
    assert(b[0] == a[0]);
    assert(b[n as int] == w);
    assert(run_args(b, n, r) == r);
}

/// The first flag from a place on.
proof fn lemma_flag(a: Seq<Seq<char>>, flag: Seq<char>, i: nat)
    ensures
        flag_at(a, flag, i) matches Some(k) ==> i <= k < a.len() && a[k as int] == flag && forall|
            j: int|
            i <= j < k ==> #[trigger] a[j] != flag,
        flag_at(a, flag, i) is None ==> forall|j: int| i <= j < a.len() ==> #[trigger] a[j] != flag,
    decreases a.len() - i,
{
    if i < a.len() && a[i as int] != flag {
        lemma_flag(a, flag, i + 1);
    }
}

/// A campaign is quick where that is asked for anywhere. Its reports go where the first
/// `--out` says, if there is one with something behind it.
pub proof fn law_bench_reads_its_options(a: Seq<Seq<char>>, k: int)
    requires
        a.len() >= 1,
        a[0] == "bench"@,
        a.len() >= 2 ==> !asks_for_help(a[1]),
    ensures
        command(a) is Bench,
        command(a)->quick <==> exists|i: int| 1 <= i < a.len() && #[trigger] a[i] == "--quick"@,
        1 <= k && k + 1 < a.len() && a[k] == "--out"@ && (forall|j: int|
            1 <= j < k ==> #[trigger] a[j] != "--out"@) ==> command(a)->out == a[k + 1],
        (forall|j: int| 1 <= j < a.len() - 1 ==> #[trigger] a[j] != "--out"@) ==> command(a)->out
            == "docs/benchmarks/data"@,
{
    reveal_strlit("bench");
    reveal_strlit("run");
    reveal_strlit("check");
    reveal_strlit("dump");
    reveal_strlit("loops");
    assert("bench"@[0] == 'b');
    assert("check"@[0] == 'c');
    assert("loops"@[0] == 'l');
    assert("dump"@[0] == 'd');
    assert("run"@[0] == 'r');
    assert(command(a) == bench_command(a));
    lemma_flag(a, "--quick"@, 1);
    lemma_flag(a, "--out"@, 1);
}

/// Arguments behind others are read with what was read of those.
proof fn lemma_observe_on(
    a: Seq<Seq<char>>,
    b: Seq<Seq<char>>,
    i: nat,
    port: u16,
    open: bool,
)
    requires
        1 <= i <= a.len() <= b.len(),
        forall|j: int| 0 <= j < a.len() ==> #[trigger] b[j] == a[j],
        i == a.len() || a.last() != "--port"@,
        observe_command(a, i, port, open) is Observe,
    ensures
        observe_command(b, i, port, open) == observe_command(
            b,
            a.len(),
            observe_command(a, i, port, open)->port,
            observe_command(a, i, port, open)->open,
        ),
    decreases a.len() - i,
{
    if i < a.len() {
        assert(b[i as int] == a[i as int]);
        if a[i as int] == "--port"@ {
            assert(i + 1 < a.len());
            assert(b[(i + 1) as int] == a[(i + 1) as int]);
            let p = match port_value(a[(i + 1) as int]) {
                Some(p) => p,
                None => port,
            };
            lemma_observe_on(a, b, i + 2, p, open);
        } else {
            lemma_observe_on(a, b, i + 1, port, false);
        }
    }
}

/// The pages are served on port 8931 and opened in a browser, where nothing else is asked for.
pub proof fn law_observe_opens_its_pages()
    ensures
        command(seq!["observe"@]) == (CommandV::Observe { port: 8931, open: true }),
{
    lemma_observe_is_a_command();
    let a = seq!["observe"@];
    assert(a[0] == "observe"@);
    reveal_with_fuel(observe_command, 2);
}

/// `observe` is told apart from the commands that are looked for before it.
proof fn lemma_observe_is_a_command()
    ensures
        "observe"@ != "run"@,
        "observe"@ != "check"@,
        "observe"@ != "dump"@,
        "observe"@ != "loops"@,
        "observe"@ != "bench"@,
        "--no-open"@ != "--port"@,
        !asks_for_help("--port"@),
        !asks_for_help("--no-open"@),
{
    reveal_strlit("observe");
    reveal_strlit("run");
    reveal_strlit("check");
    reveal_strlit("dump");
    reveal_strlit("loops");
    reveal_strlit("bench");
    reveal_strlit("--no-open");
    reveal_strlit("--port");
    reveal_strlit("--help");
    reveal_strlit("-h");
    assert("--port"@[2] == 'p');
    assert("--help"@[2] == 'h');
    assert("--port"@.len() == 6);
    assert("-h"@.len() == 2);
    assert("observe"@.len() == 7);
    assert("--no-open"@.len() == 9);
}

/// The port that is given last is used, where it is a number that a port can have; else the
/// one before stays. No page is opened once that was asked for. Anything else is refused.
pub proof fn law_observe_reads_its_options(
    a: Seq<Seq<char>>,
    v: Seq<char>,
    n: nat,
    w: Seq<char>,
)
    requires
        a.len() >= 1,
        a[0] == "observe"@,
        command(a) is Observe,
        a.last() != "--port"@,
        w != "--port"@ && w != "--no-open"@,
        a.len() == 1 ==> !asks_for_help(w),
    ensures
        natural_value(v) == Some(n) && n <= 65535 ==> command(a.push("--port"@).push(v)) == (
        CommandV::Observe { port: n as u16, open: command(a)->open }),
        natural_value(v) == Some(n) && n > 65535 ==> command(a.push("--port"@).push(v)) == command(
            a,
        ),
        natural_value(v) is None ==> command(a.push("--port"@).push(v)) == command(a),
        command(a.push("--no-open"@)) == (CommandV::Observe {
            port: command(a)->port,
            open: false,
        }),
        command(a.push(w)) is Refuse,
        command(a.push(w))->code == 2,
{
    lemma_observe_is_a_command();
    let k = a.len();
    assert(command(a) == observe_command(a, 1, 8931, true));
    reveal_with_fuel(observe_command, 2);
    let b = a.push("--port"@).push(v);
    lemma_observe_on(a, b, 1, 8931, true);
    assert(b[0] == a[0]);
    if k > 1 {
        assert(b[1] == a[1]);
    }
    assert(b[k as int] == "--port"@);
    assert(b[(k + 1) as int] == v);
    let c = a.push("--no-open"@);
    lemma_observe_on(a, c, 1, 8931, true);
    assert(c[0] == a[0]);
    if k > 1 {
        assert(c[1] == a[1]);
    }
    assert(c[k as int] == "--no-open"@);
    let d = a.push(w);
    lemma_observe_on(a, d, 1, 8931, true);
    assert(d[0] == a[0]);
    if k > 1 {
        assert(d[1] == a[1]);
    }
    assert(d[k as int] == w);
}

} // verus!
