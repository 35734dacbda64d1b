//! The programs that are measured.
//!
//! Every kernel comes with its source at the size that is measured and at a small size,
//! with the sizes of the sweep, with the verdict that the analysis has to reach on it, and
//! with the lines that it prints at the small size.
use vstd::prelude::*;

use crate::interp::RunOutput;
use crate::resize::{resize_source, resized};
use crate::text::{is_text, texts};

verus! {

/// How closely printed lines have to agree.
#[derive(Clone, Copy, Debug, PartialEq, Eq, Structural)]
pub enum Tolerance {
    /// Character by character.
    Exact,
    /// Numbers may differ by this much, relative to the greater of the two; the bound is
    /// held as the bits of a double-precision number.
    RelEps(u64),
}

/// The bits of the double-precision number nearest to one billionth.
pub const ONE_BILLIONTH: u64 = 0x3e11_2e0b_e826_d695;

/// What decides whether two lines are numbers that agree up to a relative bound.
pub open spec fn total<F: Fn(u64, &String, &String) -> bool>(close: F) -> bool {
    forall|eps: u64, x: &String, y: &String| #[trigger] close.requires((eps, x, y))
}

impl Tolerance {
    /// Lines may be taken to agree.
    pub open spec fn accepts<F: Fn(u64, &String, &String) -> bool>(
        self,
        close: F,
        x: String,
        y: String,
    ) -> bool {
        x@ == y@ || (self matches Tolerance::RelEps(eps) && close.ensures((eps, &x, &y), true))
    }

    /// Lines may be taken to disagree.
    pub open spec fn refuses<F: Fn(u64, &String, &String) -> bool>(
        self,
        close: F,
        x: String,
        y: String,
    ) -> bool {
        x@ != y@ && (self matches Tolerance::RelEps(eps) ==> close.ensures((eps, &x, &y), false))
    }

    /// Whether two lines agree. `close` compares numbers up to a relative bound.
    pub fn line_matches<F: Fn(u64, &String, &String) -> bool>(
        self,
        x: &String,
        y: &String,
        close: &F,
    ) -> (r: bool)
        requires
            total(*close),
        ensures
            r ==> self.accepts(*close, *x, *y),
            !r ==> self.refuses(*close, *x, *y),
    {
        if *x == *y {
            return true;
        }
        match self {
            Tolerance::Exact => false,
            Tolerance::RelEps(eps) => close(eps, x, y),
        }
    }

    /// Whether two runs printed lines that agree, one by one.
    pub fn matches<F: Fn(u64, &String, &String) -> bool>(
        self,
        a: &Vec<String>,
        b: &Vec<String>,
        close: &F,
    ) -> (r: bool)
        requires
            total(*close),
        ensures
            r ==> a@.len() == b@.len() && forall|i: int|
                0 <= i < a@.len() ==> self.accepts(*close, #[trigger] a@[i], b@[i]),
            !r ==> a@.len() != b@.len() || exists|i: int|
                0 <= i < a@.len() && self.refuses(*close, #[trigger] a@[i], b@[i]),
    {
        if a.len() != b.len() {
            return false;
        }
        let mut i: usize = 0;
        while i < a.len()
            invariant
                i <= a@.len(),
                a@.len() == b@.len(),
                total(*close),
                forall|j: int| 0 <= j < i ==> self.accepts(*close, #[trigger] a@[j], b@[j]),
            decreases a@.len() - i,
        {
            if !self.line_matches(&a[i], &b[i], close) {
                assert(self.refuses(*close, a@[i as int], b@[i as int]));
                return false;
            }
            i = i + 1;
        }
        true
    }

    /// The name under which the tolerance is reported; `written` is its bound in
    /// scientific notation.
    pub fn name(self, written: &str) -> (r: String)
        ensures
            r@ == match self {
                Tolerance::Exact => "exact"@,
                Tolerance::RelEps(_) => "rel_eps="@ + written@,
            },
    {
        match self {
            Tolerance::Exact => "exact".to_owned(),
            Tolerance::RelEps(_) => {
                let mut s = "rel_eps=".to_owned();
                crate::text::push_text(&mut s, written);
                s
            },
        }
    }
}

/// What a run printed, and its checksum, whatever ran it.
#[derive(Debug)]
pub struct RunOutputLike {
    pub printed: Vec<String>,
    pub checksum: u64,
}

/// A copy of lines.
pub fn copy_lines(v: &Vec<String>) -> (r: Vec<String>)
    ensures
        texts(r@) == texts(v@),
{
    let mut out: Vec<String> = Vec::new();
    let mut k: usize = 0;
    while k < v.len()
        invariant
            k <= v@.len(),
            texts(out@) =~= texts(v@).take(k as int),
        decreases v@.len() - k,
    {
        let s = v[k].as_str().to_owned();
        proof {
            crate::text::lemma_texts_push(out@, s);
        }
        out.push(s);
        k = k + 1;
    }
    assert(texts(v@).take(k as int) =~= texts(v@));
    out
}

impl RunOutputLike {
    /// What the interpreter gave.
    pub fn from_engine(out: &RunOutput) -> (r: Self)
        ensures
            texts(r.printed@) == texts(out.printed@),
            r.checksum == out.checksum,
    {
        RunOutputLike { printed: copy_lines(&out.printed), checksum: out.checksum }
    }

    /// What something else gave.
    pub fn new(printed: Vec<String>, checksum: u64) -> (r: Self)
        ensures
            r.printed == printed,
            r.checksum == checksum,
    {
        RunOutputLike { printed, checksum }
    }
}

/// What the analysis has to conclude about the loop that matters.
#[derive(Clone, Copy, Debug, PartialEq, Eq, Structural)]
pub enum ExpectedVerdict {
    /// Iterations are independent.
    SafeParallel,
    /// Iterations are independent but for a reduction.
    ReductionParallel,
    /// The loop has to be rejected.
    Sequential,
    /// There is no loop.
    NotApplicable,
}

impl ExpectedVerdict {
    /// The name of the verdict.
    pub open spec fn text(self) -> Seq<char> {
        match self {
            ExpectedVerdict::SafeParallel => "SafeParallel"@,
            ExpectedVerdict::ReductionParallel => "ReductionParallel"@,
            ExpectedVerdict::Sequential => "Sequential"@,
            ExpectedVerdict::NotApplicable => "NotApplicable"@,
        }
    }

    /// The name of the verdict.
    pub fn label(self) -> (r: String)
        ensures
            r@ == self.text(),
    {
        match self {
            ExpectedVerdict::SafeParallel => "SafeParallel".to_owned(),
            ExpectedVerdict::ReductionParallel => "ReductionParallel".to_owned(),
            ExpectedVerdict::Sequential => "Sequential".to_owned(),
            ExpectedVerdict::NotApplicable => "NotApplicable".to_owned(),
        }
    }
}

/// A program that is measured.
#[derive(Debug)]
pub struct KernelDef {
    pub name: String,
    pub description: String,
    /// The source at the size that is measured.
    pub perf_source: String,
    /// The source at a small size.
    pub correctness_source: String,
    /// The sizes of the sweep: elements, or the edge of a matrix.
    pub sizes: Vec<i64>,
    pub expected_verdict: ExpectedVerdict,
    pub tolerance: Tolerance,
    /// What the source at the small size prints.
    pub expected_printed: Vec<String>,
    /// It is checked, not measured.
    pub correctness_only: bool,
    /// The greatest size at which the interpreter is measured.
    pub interp_max_size: i64,
}

/// A kernel as a mathematical value.
#[verifier::ext_equal]
pub struct KernelV {
    pub name: Seq<char>,
    pub description: Seq<char>,
    pub perf_source: Seq<char>,
    pub correctness_source: Seq<char>,
    pub sizes: Seq<i64>,
    pub expected_verdict: ExpectedVerdict,
    pub tolerance: Tolerance,
    pub expected_printed: Seq<Seq<char>>,
    pub correctness_only: bool,
    pub interp_max_size: i64,
}

impl View for KernelDef {
    type V = KernelV;

    open spec fn view(&self) -> KernelV {
        KernelV {
            name: self.name@,
            description: self.description@,
            perf_source: self.perf_source@,
            correctness_source: self.correctness_source@,
            sizes: self.sizes@,
            expected_verdict: self.expected_verdict,
            tolerance: self.tolerance,
            expected_printed: texts(self.expected_printed@),
            correctness_only: self.correctness_only,
            interp_max_size: self.interp_max_size,
        }
    }
}

/// A multiple of one array added to another.
pub const SAXPY_SRC: &'static str = r#"// saxpy: y = s*x + y -- memory-bound streaming kernel (~24 B/elem moved).
// Seeded deterministically (sign/fraction mix) so no execution pass can fold
// the loop or pass a parity check vacuously; mirrors rust_twins::saxpy_inputs.
fn main() {
    let n = 33554432;
    let x: [f64] = zeros(n);
    let y: [f64] = zeros(n);
    for i in 0..n {
        x[i] = ((i * 17 + 3) % 251) as f64 / 17.0 - 4.0;
        y[i] = ((i * 29 + 11) % 241) as f64 / 19.0 - 5.0;
    }
    let s = 2.5;
    for i in 0..n {
        y[i] = s * x[i] + y[i];
    }
    print(y[7]);
}
"#;

/// A multiple of an array.
pub const SCALE_SRC: &'static str = r#"// scale: out = s*a -- independent iterations -> SAFE parallel (~16 B/elem).
// Seeded deterministically (mirrors rust_twins::scale_inputs) so the checked
// element is a nonzero signed fraction, not the all-zero vacuity.
fn main() {
    let n = 33554432;
    let a: [f64] = zeros(n);
    let out: [f64] = zeros(n);
    for i in 0..n {
        a[i] = ((i * 13 + 5) % 199) as f64 / 7.0 - 12.0;
    }
    for i in 0..n {
        out[i] = a[i] * 5.0;
    }
    print(out[42]);
}
"#;

/// The sum of the products of two arrays.
pub const DOT_SRC: &'static str = r#"// dot product: +-reduction over products of two arrays (FP sum reassociates).
// Both operands are seeded with sign-mixed fractions (mirroring
// rust_twins::dot_inputs) so partial products cancel — a zero-initialized
// pair would make every broken kernel print the "right" 0.
fn main() {
    let n = 16777216;
    let a: [f64] = zeros(n);
    let b: [f64] = zeros(n);
    for i in 0..n {
        a[i] = ((i * 7 + 1) % 97) as f64 / 9.0 - 4.0;
        b[i] = ((i * 11 + 2) % 89) as f64 / 11.0 - 3.0;
    }
    let dot = 0.0;
    for i in 0..n {
        dot = dot + a[i] * b[i];
    }
    print(dot);
}
"#;

/// The least element and the greatest square.
pub const MINMAX_SRC: &'static str = r#"// min + max in one loop: order-independent reductions -> bit-exact validation
fn main() {
    let n = 16777216;
    let a: [f64] = zeros(n);
    let lo = 1.0e300;
    let hi = 0.0;
    for i in 0..n {
        let sq = a[i] * a[i];
        lo = min(lo, a[i]);
        hi = max(hi, sq);
    }
    print(lo);
    print(hi);
}
"#;

/// The primes below a number.
pub const SIEVE_SRC: &'static str = r#"// Strided sieve: outer loop sequential (branch on composite), inner sweep
// writes disjoint strided indices -> inner loop is DOALL. Expressed with an
// affine subscript because HELIX has no step clause.
fn main() {
    let n = 10000000;
    let composite: [bool] = zeros(n);
    let count = 0;
    for i in 2..n {
        if !composite[i] {
            count = count + 1;
            let start = i + i;
            let sweeps = (n - start + i - 1) / i;
            for k in 0..sweeps {
                composite[start + k * i] = true;
            }
        }
    }
    print(count);
}
"#;

/// Every element from the one before.
pub const RECURRENCE_SRC: &'static str = r#"// Distance-1 recurrence: RAW flow dependence at distance 1 through 'a'.
// NOT a reduction (intermediate stores are observed later), so the
// dependence engine MUST reject parallelization; we still measure the
// sequential run to show the cost of refusal is zero.
fn main() {
    let n = 10000000;
    let a: [i64] = zeros(n);
    a[0] = 1;
    for i in 1..n {
        a[i] = a[i - 1] + 1;
    }
    print(a[n - 1]);
}
"#;

/// So little work that threads do not pay.
pub const SMALL_N_SRC: &'static str = r#"// Honest overhead case: N=1000 trip count, threading LOSES (fork/join +
// grain gate dominate). Presented as-is in the report, efficiency < 1.
fn main() {
    let n = 1000;
    let a: [f64] = zeros(n);
    let out: [f64] = zeros(n);
    for i in 0..n {
        out[i] = a[i] + 1.0;
    }
    print(out[999]);
}
"#;

/// Every cell from its neighbours.
pub const JACOBI_SRC: &'static str = r#"// 5-point Jacobi stencil, flattened SIZE x SIZE: interior rows independent
// within a sweep -> level-2 DOALL. Consts live at TOP LEVEL per the frozen
// grammar (they are scalars, which is legal there).
const SIZE: i64 = 4096;
const ITER: i64 = 10;

fn main() {
    let n = SIZE * SIZE;
    let cur: [f64] = zeros(n);
    let next: [f64] = zeros(n);
    cur[SIZE * (SIZE / 2) + SIZE / 2] = 256.0;
    for k in 0..ITER {
        for i in 1..SIZE - 1 {
            let base = i * SIZE;
            for j in 1..SIZE - 1 {
                next[base + j] = 0.25 * (cur[base + j - 1] + cur[base + j + 1]
                                       + cur[base - SIZE + j] + cur[base + SIZE + j]);
            }
        }
        for i in 0..n {
            cur[i] = next[i];
        }
    }
    print(cur[SIZE * (SIZE / 2) + SIZE / 2]);
}
"#;

/// The product of two matrices.
pub const MATMUL_SRC: &'static str = r#"// C = A*B, naive i-j-k: outer-i rows of C are independent (DOALL), inner-k
// is a classic +-reduction into acc. Compared only against its own modes.
const N: i64 = 512;

fn main() {
    let nn = N * N;
    let a: [f64] = zeros(nn);
    let b: [f64] = zeros(nn);
    let c: [f64] = zeros(nn);
    for i in 0..nn {
        a[i] = (i % 97) as f64 * 0.5;
        b[i] = ((i * 7) % 89) as f64 * 0.25;
    }
    for i in 0..N {
        let ibase = i * N;
        for j in 0..N {
            let acc = 0.0;
            for k in 0..N {
                acc = acc + a[ibase + k] * b[k * N + j];
            }
            c[ibase + j] = acc;
        }
    }
    print(c[N * (N / 2) + N / 2]);
}
"#;

/// Recursion.
pub const FIB_SRC: &'static str = r#"// Recursion + else-if + early return exercise (frontend/sema/interp/JIT
// control-flow parity). Correctness-only: fib-style branching is exactly
// what an auto-parallelizer must NOT touch.
fn fib(n: i64) -> i64 {
    if n < 2 {
        return n;
    } else if n < 15 {
        return fib(n - 1) + fib(n - 2);
    }
    return fib(n - 3) + 2 * fib(n - 2) - fib(n - 4) + 4;
}

fn main() {
    print(fib(24));
}
"#;

/// `scale`.
pub open spec fn scale_v() -> KernelV {
    KernelV {
        name: "scale"@,
        description: "out[i] = s*a[i] — streaming, DOALL"@,
        perf_source: SCALE_SRC@,
        correctness_source: resized(SCALE_SRC@, seq![("n", 1_000i64)], 1),
        sizes: seq![65_536i64, 16_777_216i64],
        expected_verdict: ExpectedVerdict::SafeParallel,
        tolerance: Tolerance::Exact,
        expected_printed: seq!["49.28571428571429"@],
        correctness_only: false,
        interp_max_size: 262144i64,
    }
}

/// `saxpy`.
pub open spec fn saxpy_v() -> KernelV {
    KernelV {
        name: "saxpy"@,
        description: "y[i] += s*x[i] — streaming, DOALL, ~24 B/elem"@,
        perf_source: SAXPY_SRC@,
        correctness_source: resized(SAXPY_SRC@, seq![("n", 1_024i64)], 1),
        sizes: seq![65_536i64, 16_777_216i64],
        expected_verdict: ExpectedVerdict::SafeParallel,
        tolerance: Tolerance::Exact,
        expected_printed: seq!["14.204334365325078"@],
        correctness_only: false,
        interp_max_size: 262144i64,
    }
}

/// `dot_reduction`.
pub open spec fn dot_reduction_v() -> KernelV {
    KernelV {
        name: "dot_reduction"@,
        description: "sum a[i]*b[i] — FP +-reduction"@,
        perf_source: DOT_SRC@,
        correctness_source: resized(DOT_SRC@, seq![("n", 4_096i64)], 1),
        sizes: seq![65_536i64, 4_194_304i64],
        expected_verdict: ExpectedVerdict::ReductionParallel,
        tolerance: Tolerance::RelEps(ONE_BILLIONTH),
        expected_printed: seq!["5206.808080808095"@],
        correctness_only: false,
        interp_max_size: 400000i64,
    }
}

/// `minmax_reduction`.
pub open spec fn minmax_reduction_v() -> KernelV {
    KernelV {
        name: "minmax_reduction"@,
        description: "min(a[i]) and max(a[i]^2) — two order-independent reductions"@,
        perf_source: MINMAX_SRC@,
        correctness_source: resized(MINMAX_SRC@, seq![("n", 4_096i64)], 1),
        sizes: seq![65_536i64, 16_777_216i64],
        expected_verdict: ExpectedVerdict::ReductionParallel,
        tolerance: Tolerance::Exact,
        expected_printed: seq!["0.0"@, "0.0"@],
        correctness_only: false,
        interp_max_size: 400000i64,
    }
}

/// `count_primes_sieve`.
pub open spec fn count_primes_sieve_v() -> KernelV {
    KernelV {
        name: "count_primes_sieve"@,
        description: "strided Eratosthenes — outer serial, inner DOALL writes"@,
        perf_source: SIEVE_SRC@,
        correctness_source: resized(SIEVE_SRC@, seq![("n", 100i64)], 1),
        sizes: seq![100_000i64, 4_000_000i64],
        expected_verdict: ExpectedVerdict::SafeParallel,
        tolerance: Tolerance::Exact,
        expected_printed: seq!["25"@],
        correctness_only: false,
        interp_max_size: 100000i64,
    }
}

/// `recurrence_reject`.
pub open spec fn recurrence_reject_v() -> KernelV {
    KernelV {
        name: "recurrence_reject"@,
        description: "a[i]=a[i-1]+1 — distance-1 RAW; MUST be rejected"@,
        perf_source: RECURRENCE_SRC@,
        correctness_source: resized(RECURRENCE_SRC@, seq![("n", 1_000i64)], 1),
        sizes: seq![100_000i64, 10_000_000i64],
        expected_verdict: ExpectedVerdict::Sequential,
        tolerance: Tolerance::Exact,
        expected_printed: seq!["1000"@],
        correctness_only: false,
        interp_max_size: i64::MAX,
    }
}

/// `small_n`.
pub open spec fn small_n_v() -> KernelV {
    KernelV {
        name: "small_n"@,
        description: "N=1000 add — threading loses; honest overhead point"@,
        perf_source: SMALL_N_SRC@,
        correctness_source: SMALL_N_SRC@,
        sizes: seq![1_000i64],
        expected_verdict: ExpectedVerdict::SafeParallel,
        tolerance: Tolerance::Exact,
        expected_printed: seq!["1.0"@],
        correctness_only: false,
        interp_max_size: 1000i64,
    }
}

/// `jacobi_2d`.
pub open spec fn jacobi_2d_v() -> KernelV {
    KernelV {
        name: "jacobi_2d"@,
        description: "5-point Jacobi stencil — level-2 DOALL, DRAM-bound"@,
        perf_source: JACOBI_SRC@,
        correctness_source: resized(JACOBI_SRC@, seq![("SIZE", 32i64), ("ITER", 4i64)], 2),
        sizes: seq![512i64, 1024i64],
        expected_verdict: ExpectedVerdict::SafeParallel,
        tolerance: Tolerance::Exact,
        expected_printed: seq!["36.0"@],
        correctness_only: false,
        interp_max_size: 512i64,
    }
}

/// `matmul`.
pub open spec fn matmul_v() -> KernelV {
    KernelV {
        name: "matmul"@,
        description: "C=A*B naive i-j-k — outer DOALL + inner +-reduction"@,
        perf_source: MATMUL_SRC@,
        correctness_source: resized(MATMUL_SRC@, seq![("N", 8i64)], 1),
        sizes: seq![128i64, 256i64],
        expected_verdict: ExpectedVerdict::ReductionParallel,
        tolerance: Tolerance::RelEps(ONE_BILLIONTH),
        expected_printed: seq!["1626.625"@],
        correctness_only: false,
        interp_max_size: 128i64,
    }
}

/// `fib_recursion`.
pub open spec fn fib_recursion_v() -> KernelV {
    KernelV {
        name: "fib_recursion"@,
        description: "recursive control flow — correctness parity only"@,
        perf_source: FIB_SRC@,
        correctness_source: FIB_SRC@,
        sizes: seq![24i64],
        expected_verdict: ExpectedVerdict::NotApplicable,
        tolerance: Tolerance::Exact,
        expected_printed: seq!["20001"@],
        correctness_only: true,
        interp_max_size: i64::MAX,
    }
}

/// All kernels, in the order in which they are measured.
pub open spec fn catalogue() -> Seq<KernelV> {
    seq![
        scale_v(),
        saxpy_v(),
        dot_reduction_v(),
        minmax_reduction_v(),
        count_primes_sieve_v(),
        recurrence_reject_v(),
        small_n_v(),
        jacobi_2d_v(),
        matmul_v(),
        fib_recursion_v(),
    ]
}

/// `scale`.
fn scale() -> (r: KernelDef)
    ensures
        r@ == scale_v(),
{
    let sizes: Vec<(&str, i64)> = vec![("n", 1_000)];
    let small = resize_source(SCALE_SRC, sizes.as_slice());
    assert(sizes@ =~= seq![("n", 1_000i64)]);
    let r = KernelDef {
        name: "scale".to_owned(),
        description: "out[i] = s*a[i] — streaming, DOALL".to_owned(),
        perf_source: SCALE_SRC.to_owned(),
        correctness_source: small,
        sizes: vec![65_536, 16_777_216],
        expected_verdict: ExpectedVerdict::SafeParallel,
        tolerance: Tolerance::Exact,
        expected_printed: vec!["49.28571428571429".to_owned()],
        correctness_only: false,
        interp_max_size: 262144,
    };
    assert(r@.sizes =~= scale_v().sizes);
    assert(r@.expected_printed =~= scale_v().expected_printed);
    r
}

/// `saxpy`.
fn saxpy() -> (r: KernelDef)
    ensures
        r@ == saxpy_v(),
{
    let sizes: Vec<(&str, i64)> = vec![("n", 1_024)];
    let small = resize_source(SAXPY_SRC, sizes.as_slice());
    assert(sizes@ =~= seq![("n", 1_024i64)]);
    let r = KernelDef {
        name: "saxpy".to_owned(),
        description: "y[i] += s*x[i] — streaming, DOALL, ~24 B/elem".to_owned(),
        perf_source: SAXPY_SRC.to_owned(),
        correctness_source: small,
        sizes: vec![65_536, 16_777_216],
        expected_verdict: ExpectedVerdict::SafeParallel,
        tolerance: Tolerance::Exact,
        expected_printed: vec!["14.204334365325078".to_owned()],
        correctness_only: false,
        interp_max_size: 262144,
    };
    assert(r@.sizes =~= saxpy_v().sizes);
    assert(r@.expected_printed =~= saxpy_v().expected_printed);
    r
}

/// `dot_reduction`.
fn dot_reduction() -> (r: KernelDef)
    ensures
        r@ == dot_reduction_v(),
{
    let sizes: Vec<(&str, i64)> = vec![("n", 4_096)];
    let small = resize_source(DOT_SRC, sizes.as_slice());
    assert(sizes@ =~= seq![("n", 4_096i64)]);
    let r = KernelDef {
        name: "dot_reduction".to_owned(),
        description: "sum a[i]*b[i] — FP +-reduction".to_owned(),
        perf_source: DOT_SRC.to_owned(),
        correctness_source: small,
        sizes: vec![65_536, 4_194_304],
        expected_verdict: ExpectedVerdict::ReductionParallel,
        tolerance: Tolerance::RelEps(ONE_BILLIONTH),
        expected_printed: vec!["5206.808080808095".to_owned()],
        correctness_only: false,
        interp_max_size: 400000,
    };
    assert(r@.sizes =~= dot_reduction_v().sizes);
    assert(r@.expected_printed =~= dot_reduction_v().expected_printed);
    r
}

/// `minmax_reduction`.
fn minmax_reduction() -> (r: KernelDef)
    ensures
        r@ == minmax_reduction_v(),
{
    let sizes: Vec<(&str, i64)> = vec![("n", 4_096)];
    let small = resize_source(MINMAX_SRC, sizes.as_slice());
    assert(sizes@ =~= seq![("n", 4_096i64)]);
    let r = KernelDef {
        name: "minmax_reduction".to_owned(),
        description: "min(a[i]) and max(a[i]^2) — two order-independent reductions".to_owned(),
        perf_source: MINMAX_SRC.to_owned(),
        correctness_source: small,
        sizes: vec![65_536, 16_777_216],
        expected_verdict: ExpectedVerdict::ReductionParallel,
        tolerance: Tolerance::Exact,
        expected_printed: vec!["0.0".to_owned(), "0.0".to_owned()],
        correctness_only: false,
        interp_max_size: 400000,
    };
    assert(r@.sizes =~= minmax_reduction_v().sizes);
    assert(r@.expected_printed =~= minmax_reduction_v().expected_printed);
    r
}

/// `count_primes_sieve`.
fn count_primes_sieve() -> (r: KernelDef)
    ensures
        r@ == count_primes_sieve_v(),
{
    let sizes: Vec<(&str, i64)> = vec![("n", 100)];
    let small = resize_source(SIEVE_SRC, sizes.as_slice());
    assert(sizes@ =~= seq![("n", 100i64)]);
    let r = KernelDef {
        name: "count_primes_sieve".to_owned(),
        description: "strided Eratosthenes — outer serial, inner DOALL writes".to_owned(),
        perf_source: SIEVE_SRC.to_owned(),
        correctness_source: small,
        sizes: vec![100_000, 4_000_000],
        expected_verdict: ExpectedVerdict::SafeParallel,
        tolerance: Tolerance::Exact,
        expected_printed: vec!["25".to_owned()],
        correctness_only: false,
        interp_max_size: 100000,
    };
    assert(r@.sizes =~= count_primes_sieve_v().sizes);
    assert(r@.expected_printed =~= count_primes_sieve_v().expected_printed);
    r
}

/// `recurrence_reject`.
fn recurrence_reject() -> (r: KernelDef)
    ensures
        r@ == recurrence_reject_v(),
{
    let sizes: Vec<(&str, i64)> = vec![("n", 1_000)];
    let small = resize_source(RECURRENCE_SRC, sizes.as_slice());
    assert(sizes@ =~= seq![("n", 1_000i64)]);
    let r = KernelDef {
        name: "recurrence_reject".to_owned(),
        description: "a[i]=a[i-1]+1 — distance-1 RAW; MUST be rejected".to_owned(),
        perf_source: RECURRENCE_SRC.to_owned(),
        correctness_source: small,
        sizes: vec![100_000, 10_000_000],
        expected_verdict: ExpectedVerdict::Sequential,
        tolerance: Tolerance::Exact,
        expected_printed: vec!["1000".to_owned()],
        correctness_only: false,
        interp_max_size: i64::MAX,
    };
    assert(r@.sizes =~= recurrence_reject_v().sizes);
    assert(r@.expected_printed =~= recurrence_reject_v().expected_printed);
    r
}

/// `small_n`.
fn small_n() -> (r: KernelDef)
    ensures
        r@ == small_n_v(),
{
    let small = SMALL_N_SRC.to_owned();
    let r = KernelDef {
        name: "small_n".to_owned(),
        description: "N=1000 add — threading loses; honest overhead point".to_owned(),
        perf_source: SMALL_N_SRC.to_owned(),
        correctness_source: small,
        sizes: vec![1_000],
        expected_verdict: ExpectedVerdict::SafeParallel,
        tolerance: Tolerance::Exact,
        expected_printed: vec!["1.0".to_owned()],
        correctness_only: false,
        interp_max_size: 1000,
    };
    assert(r@.sizes =~= small_n_v().sizes);
    assert(r@.expected_printed =~= small_n_v().expected_printed);
    r
}

/// `jacobi_2d`.
fn jacobi_2d() -> (r: KernelDef)
    ensures
        r@ == jacobi_2d_v(),
{
    let sizes: Vec<(&str, i64)> = vec![("SIZE", 32), ("ITER", 4)];
    let small = resize_source(JACOBI_SRC, sizes.as_slice());
    assert(sizes@ =~= seq![("SIZE", 32i64), ("ITER", 4i64)]);
    let r = KernelDef {
        name: "jacobi_2d".to_owned(),
        description: "5-point Jacobi stencil — level-2 DOALL, DRAM-bound".to_owned(),
        perf_source: JACOBI_SRC.to_owned(),
        correctness_source: small,
        sizes: vec![512, 1024],
        expected_verdict: ExpectedVerdict::SafeParallel,
        tolerance: Tolerance::Exact,
        expected_printed: vec!["36.0".to_owned()],
        correctness_only: false,
        interp_max_size: 512,
    };
    assert(r@.sizes =~= jacobi_2d_v().sizes);
    assert(r@.expected_printed =~= jacobi_2d_v().expected_printed);
    r
}

/// `matmul`.
fn matmul() -> (r: KernelDef)
    ensures
        r@ == matmul_v(),
{
    let sizes: Vec<(&str, i64)> = vec![("N", 8)];
    let small = resize_source(MATMUL_SRC, sizes.as_slice());
    assert(sizes@ =~= seq![("N", 8i64)]);
    let r = KernelDef {
        name: "matmul".to_owned(),
        description: "C=A*B naive i-j-k — outer DOALL + inner +-reduction".to_owned(),
        perf_source: MATMUL_SRC.to_owned(),
        correctness_source: small,
        sizes: vec![128, 256],
        expected_verdict: ExpectedVerdict::ReductionParallel,
        tolerance: Tolerance::RelEps(ONE_BILLIONTH),
        expected_printed: vec!["1626.625".to_owned()],
        correctness_only: false,
        interp_max_size: 128,
    };
    assert(r@.sizes =~= matmul_v().sizes);
    assert(r@.expected_printed =~= matmul_v().expected_printed);
    r
}

/// `fib_recursion`.
fn fib_recursion() -> (r: KernelDef)
    ensures
        r@ == fib_recursion_v(),
{
    let small = FIB_SRC.to_owned();
    let r = KernelDef {
        name: "fib_recursion".to_owned(),
        description: "recursive control flow — correctness parity only".to_owned(),
        perf_source: FIB_SRC.to_owned(),
        correctness_source: small,
        sizes: vec![24],
        expected_verdict: ExpectedVerdict::NotApplicable,
        tolerance: Tolerance::Exact,
        expected_printed: vec!["20001".to_owned()],
        correctness_only: true,
        interp_max_size: i64::MAX,
    };
    assert(r@.sizes =~= fib_recursion_v().sizes);
    assert(r@.expected_printed =~= fib_recursion_v().expected_printed);
    r
}

/// The views of kernels.
pub open spec fn kernel_views(v: Seq<KernelDef>) -> Seq<KernelV> {
    v.map_values(|k: KernelDef| k@)
}

/// All kernels, in the order in which they are measured.
pub fn registry() -> (r: Vec<KernelDef>)
    ensures
        kernel_views(r@) == catalogue(),
{
    let r: Vec<KernelDef> = vec![
        scale(),
        saxpy(),
        dot_reduction(),
        minmax_reduction(),
        count_primes_sieve(),
        recurrence_reject(),
        small_n(),
        jacobi_2d(),
        matmul(),
        fib_recursion(),
    ];
    assert(kernel_views(r@) =~= catalogue());
    r
}

/// The name under which a kernel declares its size.
pub open spec fn size_name(kernel: Seq<char>) -> Seq<char> {
    if kernel == "jacobi_2d"@ {
        "SIZE"@
    } else if kernel == "matmul"@ {
        "N"@
    } else {
        "n"@
    }
}

impl KernelV {
    /// The kernel is measured on several threads.
    pub open spec fn parallel(self) -> bool {
        !self.correctness_only && self.expected_verdict != ExpectedVerdict::Sequential
    }

    /// The source at a size.
    pub open spec fn at_size(self, size: i64) -> Seq<char> {
        crate::resize::resized_once(self.perf_source, size_name(self.name), size as int)
    }
}

impl KernelDef {
    /// The source at a size: elements, or the edge of a matrix.
    pub fn source_at_size(&self, size: i64) -> (r: String)
        ensures
            r@ == self@.at_size(size),
    {
        let name = if is_text(&self.name, "jacobi_2d") {
            "SIZE"
        } else if is_text(&self.name, "matmul") {
            "N"
        } else {
            "n"
        };
        let sizes: Vec<(&str, i64)> = vec![(name, size)];
        proof {
            reveal_with_fuel(resized, 2);
        }
        resize_source(self.perf_source.as_str(), sizes.as_slice())
    }

    /// Whether the kernel is measured on several threads.
    pub fn is_parallel_candidate(&self) -> (r: bool)
        ensures
            r == self@.parallel(),
    {
        !self.correctness_only && self.expected_verdict != ExpectedVerdict::Sequential
    }
}

} // verus!
