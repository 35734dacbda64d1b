//! The comparison of both ways of running a program, and the listing of loop reports.
use vstd::prelude::*;

use crate::error::RunError;
use crate::interp::RunOutput;
use crate::plan::{edges, Findings, LoopReport};
use crate::text::{natural_text, push_natural, push_text, texts};

verus! {

/// The character of a hexadecimal digit.
pub open spec fn hex_digit(d: int) -> char {
    if d == 10 {
        'a'
    } else if d == 11 {
        'b'
    } else if d == 12 {
        'c'
    } else if d == 13 {
        'd'
    } else if d == 14 {
        'e'
    } else if d == 15 {
        'f'
    } else {
        crate::text::digit(d)
    }
}

/// The last `k` hexadecimal digits of a number.
pub open spec fn hex_text(v: nat, k: nat) -> Seq<char>
    decreases k,
{
    if k == 0 {
        seq![]
    } else {
        hex_text(v / 16, (k - 1) as nat).push(hex_digit((v % 16) as int))
    }
}

/// The text of a hexadecimal digit.
fn hex_digit_text(d: u64) -> (r: &'static str)
    requires
        d < 16,
    ensures
        r@ == seq![hex_digit(d as int)],
{
    proof {
        reveal_strlit("0");
        reveal_strlit("1");
        reveal_strlit("2");
        reveal_strlit("3");
        reveal_strlit("4");
        reveal_strlit("5");
        reveal_strlit("6");
        reveal_strlit("7");
        reveal_strlit("8");
        reveal_strlit("9");
        reveal_strlit("a");
        reveal_strlit("b");
        reveal_strlit("c");
        reveal_strlit("d");
        reveal_strlit("e");
        reveal_strlit("f");
    }
    let r = if d == 0 {
        "0"
    } else if d == 1 {
        "1"
    } else if d == 2 {
        "2"
    } else if d == 3 {
        "3"
    } else if d == 4 {
        "4"
    } else if d == 5 {
        "5"
    } else if d == 6 {
        "6"
    } else if d == 7 {
        "7"
    } else if d == 8 {
        "8"
    } else if d == 9 {
        "9"
    } else if d == 10 {
        "a"
    } else if d == 11 {
        "b"
    } else if d == 12 {
        "c"
    } else if d == 13 {
        "d"
    } else if d == 14 {
        "e"
    } else {
        "f"
    };
    assert(r@ =~= seq![hex_digit(d as int)]);
    r
}

/// Appends the last `k` hexadecimal digits of a number.
fn push_hex(s: &mut String, v: u64, k: usize)
    ensures
        final(s)@ == old(s)@ + hex_text(v as nat, k as nat),
    decreases k,
{
    let ghost before = s@;
    if k > 0 {
        push_hex(s, v / 16, k - 1);
        push_text(s, hex_digit_text(v % 16));
        proof {
            let h = hex_text((v / 16) as nat, (k - 1) as nat);
            assert(s@ =~= before + h.push(hex_digit((v % 16) as int)));
        }
    } else {
        assert(s@ =~= before + hex_text(v as nat, 0));
    }
}

/// How a comparison ended.
#[derive(Debug)]
pub struct Comparison {
    pub passed: bool,
    /// What is shown.
    pub line: String,
}

/// Both ways of running a program agree: they print the same lines, or both fail.
pub open spec fn agree(
    interp: Result<RunOutput, RunError>,
    printed: Seq<String>,
    jit_ok: bool,
) -> bool {
    match interp {
        Ok(i) => jit_ok && texts(i.printed@) == texts(printed),
        Err(_) => !jit_ok,
    }
}

/// A word for a truth value.
pub open spec fn truth(b: bool) -> Seq<char> {
    if b {
        "true"@
    } else {
        "false"@
    }
}

/// What is shown of a comparison. `a` and `b` are the printed lines as they are shown.
pub open spec fn comparison_line(
    name: Seq<char>,
    interp: Result<RunOutput, RunError>,
    printed: Seq<String>,
    jit_ok: bool,
    a: Seq<char>,
    b: Seq<char>,
) -> Seq<char> {
    match interp {
        Ok(i) => if jit_ok {
            if texts(i.printed@) == texts(printed) {
                "  ok   "@ + name + " ("@ + natural_text(i.printed@.len()) + " lines, checksum "@
                    + hex_text(i.checksum as nat, 16) + ")"@
            } else {
                "  FAIL "@ + name + ": output mismatch\n    interp: "@ + a + "\n    jit:    "@ + b
            }
        } else {
            "  FAIL "@ + name + ": backend disagreement interp="@ + truth(true) + " jit="@ + truth(
                false,
            )
        },
        Err(_) => if jit_ok {
            "  FAIL "@ + name + ": backend disagreement interp="@ + truth(false) + " jit="@ + truth(
                true,
            )
        } else {
            "  ok   "@ + name + " (both backends reject at runtime)"@
        },
    }
}

/// Whether two lists of lines are the same.
pub fn same_lines(a: &Vec<String>, b: &Vec<String>) -> (r: bool)
    ensures
        r == (texts(a@) == texts(b@)),
{
    proof {
        assert(texts(a@).len() == a@.len());
        assert(texts(b@).len() == b@.len());
    }
    if a.len() != b.len() {
        return false;
    }
    let mut k: usize = 0;
    while k < a.len()
        invariant
            k <= a@.len(),
            a@.len() == b@.len(),
            forall|j: int| 0 <= j < k ==> (#[trigger] texts(a@)[j]) == texts(b@)[j],
        decreases a@.len() - k,
    {
        proof {
            assert(texts(a@)[k as int] == a@[k as int]@);
            assert(texts(b@)[k as int] == b@[k as int]@);
        }
        if a[k] != b[k] {
            return false;
        }
        k = k + 1;
    }
    assert(texts(a@) =~= texts(b@));
    true
}

/// Compares both ways of running a program.
pub fn compare(
    name: &str,
    interp: &Result<RunOutput, RunError>,
    printed: &Vec<String>,
    jit_ok: bool,
    interp_shown: &str,
    jit_shown: &str,
) -> (r: Comparison)
    ensures
        r.passed == agree(*interp, printed@, jit_ok),
        r.line@ == comparison_line(
            name@,
            *interp,
            printed@,
            jit_ok,
            interp_shown@,
            jit_shown@,
        ),
{
    match interp {
        Ok(i) => {
            if jit_ok {
                if same_lines(&i.printed, printed) {
                    let mut s = "  ok   ".to_owned();
                    push_text(&mut s, name);
                    push_text(&mut s, " (");
                    push_natural(&mut s, i.printed.len() as u128);
                    push_text(&mut s, " lines, checksum ");
                    push_hex(&mut s, i.checksum, 16);
                    push_text(&mut s, ")");
                    Comparison { passed: true, line: s }
                } else {
                    let mut s = "  FAIL ".to_owned();
                    push_text(&mut s, name);
                    push_text(&mut s, ": output mismatch\n    interp: ");
                    push_text(&mut s, interp_shown);
                    push_text(&mut s, "\n    jit:    ");
                    push_text(&mut s, jit_shown);
                    Comparison { passed: false, line: s }
                }
            } else {
                let mut s = "  FAIL ".to_owned();
                push_text(&mut s, name);
                push_text(&mut s, ": backend disagreement interp=");
                push_text(&mut s, "true");
                push_text(&mut s, " jit=");
                push_text(&mut s, "false");
                Comparison { passed: false, line: s }
            }
        },
        Err(_) => {
            if jit_ok {
                let mut s = "  FAIL ".to_owned();
                push_text(&mut s, name);
                push_text(&mut s, ": backend disagreement interp=");
                push_text(&mut s, "false");
                push_text(&mut s, " jit=");
                push_text(&mut s, "true");
                Comparison { passed: false, line: s }
            } else {
                let mut s = "  ok   ".to_owned();
                push_text(&mut s, name);
                push_text(&mut s, " (both backends reject at runtime)");
                Comparison { passed: true, line: s }
            }
        },
    }
}

/// How many comparisons passed and failed.
#[derive(Clone, Copy, Debug, PartialEq, Eq, Structural)]
pub struct Tally {
    pub pass: usize,
    pub fail: usize,
}

impl Tally {
    /// Counts one more.
    pub fn count(self, passed: bool) -> (r: Tally)
        requires
            self.pass < usize::MAX,
            self.fail < usize::MAX,
        ensures
            passed ==> r == (Tally { pass: (self.pass + 1) as usize, fail: self.fail }),
            !passed ==> r == (Tally { pass: self.pass, fail: (self.fail + 1) as usize }),
    {
        if passed {
            Tally { pass: self.pass + 1, fail: self.fail }
        } else {
            Tally { pass: self.pass, fail: self.fail + 1 }
        }
    }

    /// The last line.
    pub fn summary(self) -> (r: String)
        ensures
            r@ == "selftest: "@ + natural_text(self.pass as nat) + " passed, "@ + natural_text(
                self.fail as nat,
            ) + " failed"@,
    {
        let mut s = "selftest: ".to_owned();
        push_natural(&mut s, self.pass as u128);
        push_text(&mut s, " passed, ");
        push_natural(&mut s, self.fail as u128);
        push_text(&mut s, " failed");
        s
    }

    /// What the program ends with: 0 where nothing failed.
    pub fn code(self) -> (r: i32)
        ensures
            r == if self.fail > 0 {
                1i32
            } else {
                0
            },
    {
        if self.fail > 0 {
            1
        } else {
            0
        }
    }
}

// ---------------------------------------------------------------------------
// Loop reports
// ---------------------------------------------------------------------------

/// Lines, each with four spaces before it.
pub open spec fn indented(v: Seq<Seq<char>>) -> Seq<Seq<char>> {
    v.map_values(|s: Seq<char>| "    "@ + s)
}

/// What is shown of a report: its summary, what it touches, and what depends on what.
pub open spec fn report_lines(r: Findings) -> Seq<Seq<char>> {
    seq![r.summary()] + indented(r.accesses) + indented(
        (r.raw_deps + r.war_deps + r.waw_deps).map_values(|e: crate::plan::Edge| e.explain),
    )
}

/// What is shown of the first `k` reports.
pub open spec fn reports_lines(v: Seq<LoopReport>, k: nat) -> Seq<Seq<char>>
    decreases k,
{
    if k == 0 {
        seq![]
    } else {
        reports_lines(v, (k - 1) as nat) + report_lines(v[k - 1]@)
    }
}

/// What is shown of the loops of a function: nothing where it has none.
pub open spec fn listing(name: Seq<char>, v: Seq<LoopReport>) -> Seq<Seq<char>> {
    if v.len() == 0 {
        seq![]
    } else {
        seq!["==== "@ + name + " loop analysis ===="@] + reports_lines(v, v.len())
    }
}

/// Appends a line with four spaces before it.
fn push_indented(out: &mut Vec<String>, line: &str)
    ensures
        texts(final(out)@) == texts(old(out)@).push("    "@ + line@),
{
    let mut s = "    ".to_owned();
    push_text(&mut s, line);
    proof {
        crate::text::lemma_texts_push(out@, s);
    }
    out.push(s);
}

/// Appends the explanations of dependences.
fn push_edges(out: &mut Vec<String>, v: &Vec<crate::plan::DepEdge>)
    ensures
        texts(final(out)@) == texts(old(out)@) + indented(
            edges(v@).map_values(|e: crate::plan::Edge| e.explain),
        ),
{
    let ghost start = texts(out@);
    let ghost all = indented(edges(v@).map_values(|e: crate::plan::Edge| e.explain));
    let mut k: usize = 0;
    assert(start + all.take(0) =~= start);
    while k < v.len()
        invariant
            k <= v@.len(),
            all == indented(edges(v@).map_values(|e: crate::plan::Edge| e.explain)),
            texts(out@) == start + all.take(k as int),
        decreases v@.len() - k,
    {
        push_indented(out, v[k].explain.as_str());
        proof {
            assert(all.take(k + 1) =~= all.take(k as int).push(all[k as int]));
            assert(start + all.take(k + 1) =~= (start + all.take(k as int)).push(all[k as int]));
        }
        k = k + 1;
    }
    assert(all.take(k as int) =~= all);
}

/// Appends what is shown of a report.
fn push_report(out: &mut Vec<String>, r: &LoopReport)
    ensures
        texts(final(out)@) == texts(old(out)@) + report_lines(r@),
{
    let ghost start = texts(out@);
    let first = r.summary_line();
    proof {
        crate::text::lemma_texts_push(out@, first);
    }
    out.push(first);
    let ghost head = texts(out@);
    let ghost acc = indented(r@.accesses);
    let mut k: usize = 0;
    assert(head + acc.take(0) =~= head);
    while k < r.accesses.len()
        invariant
            k <= r.accesses@.len(),
            acc == indented(r@.accesses),
            r@.accesses == texts(r.accesses@),
            texts(out@) == head + acc.take(k as int),
        decreases r.accesses@.len() - k,
    {
        push_indented(out, r.accesses[k].as_str());
        proof {
            assert(acc.take(k + 1) =~= acc.take(k as int).push(acc[k as int]));
            assert(head + acc.take(k + 1) =~= (head + acc.take(k as int)).push(acc[k as int]));
        }
        k = k + 1;
    }
    push_edges(out, &r.raw_deps);
    push_edges(out, &r.war_deps);
    push_edges(out, &r.waw_deps);
    proof {
        let f = |e: crate::plan::Edge| e.explain;
        assert(acc.take(k as int) =~= acc);
        let a = edges(r.raw_deps@);
        let b = edges(r.war_deps@);
        let c = edges(r.waw_deps@);
        assert((a + b + c).map_values(f) =~= a.map_values(f) + b.map_values(f) + c.map_values(f));
        assert(indented((a + b + c).map_values(f)) =~= indented(a.map_values(f)) + indented(
            b.map_values(f),
        ) + indented(c.map_values(f)));
        assert(texts(out@) =~= start + report_lines(r@));
    }
}

/// Lists the loops of a function.
pub fn list_loops(name: &str, reports: &Vec<LoopReport>) -> (r: Vec<String>)
    ensures
        texts(r@) == listing(name@, reports@),
{
    let mut out: Vec<String> = Vec::new();
    assert(texts(out@) =~= seq![]);
    if reports.len() == 0 {
        return out;
    }
    let mut s = "==== ".to_owned();
    push_text(&mut s, name);
    push_text(&mut s, " loop analysis ====");
    proof {
        crate::text::lemma_texts_push(out@, s);
    }
    out.push(s);
    let ghost head = texts(out@);
    assert(head =~= seq!["==== "@ + name@ + " loop analysis ===="@]);
    let mut k: usize = 0;
    assert(head + reports_lines(reports@, 0) =~= head);
    while k < reports.len()
        invariant
            k <= reports@.len(),
            texts(out@) == head + reports_lines(reports@, k as nat),
        decreases reports@.len() - k,
    {
        push_report(&mut out, &reports[k]);
        proof {
            assert(texts(out@) =~= head + reports_lines(reports@, (k + 1) as nat));
        }
        k = k + 1;
    }
    out
}

} // verus!
