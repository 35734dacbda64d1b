//! How the bandwidth of the memory is measured: which numbers of threads, and which part
//! of the arrays each thread works on.
use vstd::prelude::*;

verus! {

/// How many elements the arrays have.
pub const DEFAULT_TRIAD_N: usize = 0x100_0000;

/// How many threads take part: at least one, and no more than there are elements.
pub open spec fn taking_part(n: nat, threads: nat) -> nat {
    let t = if threads == 0 {
        1
    } else {
        threads
    };
    if t <= n {
        t
    } else {
        n
    }
}

/// How many threads take part.
pub fn participants(n: usize, threads: usize) -> (r: usize)
    requires
        n >= 1,
    ensures
        r == taking_part(n as nat, threads as nat),
        r >= 1,
{
    let t: usize = if threads == 0 {
        1
    } else {
        threads
    };
    if t <= n {
        t
    } else {
        n
    }
}

/// How many elements each part has, but perhaps the last.
pub open spec fn part_size(n: nat, threads: nat) -> nat {
    (n + threads - 1) as nat / threads
}

/// Where a part starts.
pub open spec fn part_start(n: nat, threads: nat, k: nat) -> nat {
    k * part_size(n, threads)
}

/// Where a part ends.
pub open spec fn part_end(n: nat, threads: nat, k: nat) -> nat {
    if (k + 1) * part_size(n, threads) <= n {
        (k + 1) * part_size(n, threads)
    } else {
        n
    }
}

/// The parts, with their starts and ends, as far as they hold elements.
pub open spec fn is_parting(n: nat, threads: nat, parts: Seq<(usize, usize)>) -> bool {
    &&& forall|k: int|
        0 <= k < parts.len() ==> (#[trigger] parts[k]).0 == part_start(n, threads, k as nat)
            && parts[k].1 == part_end(n, threads, k as nat) && parts[k].0 < parts[k].1
    &&& part_start(n, threads, parts.len()) >= n
}

/// Parts the elements among threads.
pub fn chunks(n: usize, threads: usize) -> (r: Vec<(usize, usize)>)
    requires
        n >= 1,
        threads >= 1,
    ensures
        is_parting(n as nat, threads as nat, r@),
{
    proof {
        lemma_part_size(n as nat, threads as nat);
    }
    let rest: usize = n % threads;
    let size: usize = if rest == 0 {
        n / threads
    } else {
        n / threads + 1
    };
    proof {
        assert(0 * size == 0) by (nonlinear_arith);
    }
    let mut out: Vec<(usize, usize)> = Vec::new();
    let mut start: usize = 0;
    while start < n
        invariant
            n >= 1,
            size == part_size(n as nat, threads as nat),
            1 <= size <= n,
            start <= n,
            start < n ==> start == part_start(n as nat, threads as nat, out@.len()),
            part_start(n as nat, threads as nat, out@.len()) >= start,
            forall|k: int|
                0 <= k < out@.len() ==> (#[trigger] out@[k]).0 == part_start(
                    n as nat,
                    threads as nat,
                    k as nat,
                ) && out@[k].1 == part_end(n as nat, threads as nat, k as nat) && out@[k].0
                    < out@[k].1,
        decreases n - start,
    {
        let end: usize = if size <= n - start {
            start + size
        } else {
            n
        };
        proof {
            let k = out@.len();
            assert((k + 1) * size == k * size + size) by (nonlinear_arith);
        }
        out.push((start, end));
        start = end;
    }
    out
}

/// The size of a part, rounded up.
proof fn lemma_part_size(n: nat, threads: nat)
    requires
        n >= 1,
        threads >= 1,
    ensures
        part_size(n, threads) == n / threads + if n % threads == 0 {
            0nat
        } else {
            1
        },
        1 <= part_size(n, threads) <= n,
{
    let q = n / threads;
    let r = n % threads;
    assert(n == q * threads + r && 0 <= r < threads) by (nonlinear_arith)
        requires
            threads >= 1,
            q == n / threads,
            r == n % threads,
    ;
    let m = (n + threads - 1) as nat;
    assert(m / threads == q + if r == 0 {
        0nat
    } else {
        1
    }) by (nonlinear_arith)
        requires
            threads >= 1,
            n == q * threads + r,
            0 <= r < threads,
            m == n + threads - 1,
    ;
    if r > 0 {
        assert(q < n) by (nonlinear_arith)
            requires
                n == q * threads + r,
                r > 0,
                threads >= 1,
                q >= 0,
        ;
    } else {
        assert(1 <= q <= n) by (nonlinear_arith)
            requires
                n == q * threads + r,
                r == 0,
                n >= 1,
                threads >= 1,
        ;
    }
}

/// Every element belongs to exactly one part: a part starts where the one before ends, the
/// first at the first element, and the last ends with the last.
pub proof fn law_parts_cover_everything_once(n: nat, threads: nat, parts: Seq<(usize, usize)>)
    requires
        n >= 1,
        threads >= 1,
        is_parting(n, threads, parts),
    ensures
        parts.len() > 0,
        parts[0].0 == 0,
        parts[parts.len() - 1].1 == n,
        forall|k: int| 0 < k < parts.len() ==> (#[trigger] parts[k]).0 == parts[k - 1].1,
        parts.len() <= threads,
{
    lemma_part_size(n, threads);
    let s = part_size(n, threads);
    assert(0 * s == 0) by (nonlinear_arith);
    assert(parts.len() > 0);
    let last = (parts.len() - 1) as nat;
    assert(part_start(n, threads, parts.len()) == (last + 1) * s);
    assert forall|k: int| 0 < k < parts.len() implies (#[trigger] parts[k]).0 == parts[k - 1].1 by {
        let p = parts[k - 1];
        assert(parts[k].0 == part_start(n, threads, k as nat));
        assert(part_start(n, threads, k as nat) < n);
    }
    assert(parts.len() <= threads) by {
        if parts.len() > threads {
            assert(parts[threads as int].0 == part_start(n, threads, threads));
            let r = n % threads;
            let q = n / threads;
            assert(threads * s >= n) by (nonlinear_arith)
                requires
                    threads >= 1,
                    q == n / threads,
                    r == n % threads,
                    s == q + if r == 0 {
                        0nat
                    } else {
                        1
                    },
            ;
        }
    }
}

/// The numbers of threads of a sweep: the powers of two up to the greatest number.
pub open spec fn doublings(from: nat, max: nat) -> Seq<usize>
    decreases (if from == 0 || from > max { 0 } else { max - from + 1 }),
{
    if from == 0 || from > max {
        seq![]
    } else {
        seq![from as usize] + doublings(2 * from, max)
    }
}

/// The numbers of threads of a sweep.
pub fn sweep_threads(max_threads: usize) -> (r: Vec<usize>)
    requires
        max_threads <= usize::MAX / 2,
    ensures
        r@ == doublings(1, if max_threads == 0 {
            1
        } else {
            max_threads as nat
        }),
{
    let max: usize = if max_threads == 0 {
        1
    } else {
        max_threads
    };
    let mut out: Vec<usize> = Vec::new();
    let mut t: usize = 1;
    assert(out@ + doublings(1, max as nat) =~= doublings(1, max as nat));
    while t <= max
        invariant
            1 <= t <= 2 * max,
            max <= usize::MAX / 2,
            out@ + doublings(t as nat, max as nat) == doublings(1, max as nat),
        decreases 2 * max + 1 - t,
    {
        let ghost before = out@;
        out.push(t);
        proof {
            let rest = doublings(2 * t as nat, max as nat);
            assert(doublings(t as nat, max as nat) =~= seq![t] + rest);
            assert(out@ + rest =~= before + (seq![t] + rest));
        }
        t = 2 * t;
    }
    assert(out@ + doublings(t as nat, max as nat) =~= out@);
    out
}

/// A sweep starts at one thread, and every number is twice the one before.
pub proof fn law_sweeps_double(from: nat, max: nat, k: int)
    requires
        from > 0,
        max <= usize::MAX,
        0 <= k < doublings(from, max).len(),
    ensures
        doublings(from, max)[0] == from,
        doublings(from, max)[k] <= max,
        k > 0 ==> doublings(from, max)[k] == 2 * doublings(from, max)[k - 1],
    decreases k,
{
    if k > 0 {
        law_sweeps_double(2 * from, max, k - 1);
    }
}

} // verus!
