//! What a campaign measures, said of its kernels and numbers of threads one by one.
use vstd::prelude::*;

use crate::campaign::{
    allowed, gate, limit, middle, pinned, pins_of, selection, sweep_of, timed, wide, Shape,
};
use crate::dispatch::budget;
use crate::kernels::KernelV;
use crate::lines::{leading, newline, segments};
use crate::plan::Judgement;
use crate::resize::{
    bytes_of, declares, head, lemma_spaces, redeclared, resized_once, rewritten, spaces, starts,
    Declared,
};
use crate::search::{lemma_first_where_is, lemma_first_where_none};
use crate::text::{integer_text, joined};

verus! {

/// A region runs on as many threads as are asked for, where the machine has them; on one
/// where fewer are asked for; and else on all that the machine has. What the environment asks
/// for goes before what the program asks for.
pub proof fn law_regions_run_on_the_threads_asked_for(
    hint: i64,
    cap: Option<u64>,
    hw: usize,
    asked: int,
)
    requires
        cap is Some ==> asked == cap->0,
        cap is None ==> asked == hint,
    ensures
        budget(hint, cap, hw) >= 1,
        budget(hint, cap, hw) == 1 || budget(hint, cap, hw) <= hw,
        1 <= asked <= hw ==> budget(hint, cap, hw) == asked,
        asked >= hw >= 1 ==> budget(hint, cap, hw) == hw,
        asked < 1 ==> budget(hint, cap, hw) == 1,
{
}

/// The kernels that are measured are, in their order, those that are not there for
/// correctness alone and that are named, where any are named.
pub proof fn law_kernels_are_measured_where_named(only: Seq<Seq<char>>, all: Seq<KernelV>)
    ensures
        selection(only, all) == all.filter(
            |k: KernelV|
                !k.correctness_only && (only.len() == 0 || exists|i: int|
                    0 <= i < only.len() && #[trigger] only[i] == k.name),
        ),
    decreases all.len(),
{
    reveal(Seq::filter);
    if all.len() > 0 {
        law_kernels_are_measured_where_named(only, all.drop_last());
        let k = all.last();
        assert(only.contains(k.name) <==> exists|i: int|
            0 <= i < only.len() && #[trigger] only[i] == k.name);
    }
}

/// A number of threads is allowed where both the campaign and the machine allow it; one is
/// allowed on every machine.
pub proof fn law_threads_stay_within_the_limit(max_threads: usize, hw: usize, p: usize)
    ensures
        p <= limit(max_threads, hw) <==> p <= max_threads && (p <= hw || p <= 1),
{
}

/// The allowed numbers among the first.
proof fn lemma_allowed(sweep: Seq<usize>, cap: usize, k: nat)
    requires
        k <= sweep.len(),
    ensures
        allowed(sweep, cap, k) == sweep.take(k as int).filter(|p: usize| 1 <= p <= cap),
    decreases k,
{
    reveal(Seq::filter);
    if k > 0 {
        lemma_allowed(sweep, cap, (k - 1) as nat);
        assert(sweep.take(k as int).drop_last() =~= sweep.take(k - 1));
        assert(sweep.take(k as int).last() == sweep[k - 1]);
    } else {
        assert(sweep.take(0) =~= seq![]);
    }
}

/// The table of efficiencies has the numbers of the sweep that are allowed, in their order.
/// It needs one thread at its start to compare with; else there is none.
pub proof fn law_sweeps_hold_what_is_allowed(sweep: Seq<usize>, cap: usize)
    ensures
        ({
            let fit = sweep.filter(|p: usize| 1 <= p <= cap);
            &&& fit.len() > 0 && fit[0] == 1 ==> sweep_of(sweep, cap) == fit
            &&& !(fit.len() > 0 && fit[0] == 1) ==> sweep_of(sweep, cap).len() == 0
        }),
{
    lemma_allowed(sweep, cap, sweep.len());
    assert(sweep.take(sweep.len() as int) =~= sweep);
}

/// The parallel measurement runs on the first number of threads of the sweep that is at least
/// half of the machine's and more than one.
pub proof fn law_half_of_the_machine_is_kept_busy(
    sweep: Seq<usize>,
    max_threads: usize,
    hw: usize,
    i: int,
)
    requires
        0 <= i < sweep.len(),
        sweep[i] > 1 && 2 * sweep[i] + 1 >= hw,
        forall|j: int| 0 <= j < i ==> (#[trigger] sweep[j] <= 1 || 2 * sweep[j] + 1 < hw),
    ensures
        middle(sweep, max_threads, hw) == sweep[i],
{
    let p = wide(hw);
    assert forall|j: int| 0 <= j < i implies !p(#[trigger] sweep[j]) by {}
    assert(p(sweep[i]));
    lemma_first_where_is(sweep, p, i);
}

/// Where the sweep has no such number, it runs on all threads that are allowed, two at least.
pub proof fn law_the_measurement_is_parallel(sweep: Seq<usize>, max_threads: usize, hw: usize)
    requires
        forall|j: int|
            0 <= j < sweep.len() ==> (#[trigger] sweep[j] <= 1 || 2 * sweep[j] + 1 < hw),
    ensures
        middle(sweep, max_threads, hw) >= 2,
        middle(sweep, max_threads, hw) == 2 || middle(sweep, max_threads, hw) == max_threads
            || middle(sweep, max_threads, hw) == hw,
        middle(sweep, max_threads, hw) == 2 || (middle(sweep, max_threads, hw) <= max_threads
            && middle(sweep, max_threads, hw) <= hw),
        max_threads >= 2 && hw >= 2 ==> middle(sweep, max_threads, hw) <= max_threads && middle(
            sweep,
            max_threads,
            hw,
        ) <= hw,
{
    let p = wide(hw);
    assert forall|j: int| 0 <= j < sweep.len() implies !p(#[trigger] sweep[j]) by {}
    lemma_first_where_none(sweep, p);
}

/// What is pinned behind others.
proof fn lemma_pinned(start: Seq<usize>, sweep: Seq<usize>, cap: usize, k: nat)
    requires
        k <= sweep.len(),
        start.no_duplicates(),
    ensures
        pinned(start, sweep, cap, k).no_duplicates(),
        forall|p: usize| #[trigger]
            pinned(start, sweep, cap, k).contains(p) <==> start.contains(p) || (1 <= p <= cap
                && sweep.take(k as int).contains(p)),
    decreases k,
{
    if k > 0 {
        lemma_pinned(start, sweep, cap, (k - 1) as nat);
        let before = pinned(start, sweep, cap, (k - 1) as nat);
        let after = pinned(start, sweep, cap, k);
        let x = sweep[k - 1];
        assert(sweep.take(k as int) =~= sweep.take(k - 1).push(x));
        assert forall|p: usize| #[trigger] after.contains(p) <==> start.contains(p) || (1 <= p
            <= cap && sweep.take(k as int).contains(p)) by {
            if before.contains(p) {
                let i = choose|i: int| 0 <= i < before.len() && before[i] == p;
                assert(after[i] == p);
            }
            if sweep.take(k - 1).contains(p) {
                let part = sweep.take(k - 1);
                let i = choose|i: int| 0 <= i < part.len() && part[i] == p;
                assert(sweep.take(k as int)[i] == p);
            }
            if p == x {
                assert(sweep.take(k as int)[k - 1] == p);
                if after != before {
                    assert(after[before.len() as int] == p);
                }
            }
        }
    } else {
        assert(sweep.take(0) =~= seq![]);
        assert forall|p: usize| #[trigger]
            pinned(start, sweep, cap, k).contains(p) <==> start.contains(p) || (1 <= p <= cap
                && sweep.take(k as int).contains(p)) by {}
    }
}

/// A kernel is checked on each allowed number of threads of the sweep, and on that of the
/// parallel measurement where there is one; on no other number, and on none twice.
pub proof fn law_kernels_are_checked_on_every_number_once(
    sweep: Seq<usize>,
    max_threads: usize,
    hw: usize,
    p: usize,
)
    ensures
        pins_of(sweep, max_threads, hw).no_duplicates(),
        pins_of(sweep, max_threads, hw).contains(p) <==> (sweep.contains(p) && 1 <= p
            <= max_threads && (p <= hw || p <= 1)) || (sweep.len() >= 2 && p == middle(
            sweep,
            max_threads,
            hw,
        )),
{
    let m = middle(sweep, max_threads, hw);
    let start = if sweep.len() > 1 {
        seq![m]
    } else {
        seq![]
    };
    lemma_pinned(start, sweep, limit(max_threads, hw), sweep.len());
    assert(sweep.take(sweep.len() as int) =~= sweep);
    if sweep.len() > 1 {
        assert(start[0] == m);
        assert(start.contains(p) <==> p == m);
    } else {
        assert(!start.contains(p));
    }
}

/// Every kernel is timed as sequential machine code at every size; in the interpreter where
/// the size is not too large for it; and in parallel where the kernel is neither there for
/// correctness alone nor for being rejected, and the sweep has more than one number.
pub proof fn law_kernels_are_timed_in_their_ways(
    k: KernelV,
    size: i64,
    sweep: Seq<usize>,
    max_threads: usize,
    hw: usize,
    way: Shape,
)
    ensures
        timed(k, size, sweep, max_threads, hw).contains(Shape::NativeSeq),
        timed(k, size, sweep, max_threads, hw).contains(Shape::Interp) <==> size
            <= k.interp_max_size,
        way is NativePar ==> (timed(k, size, sweep, max_threads, hw).contains(way) <==> !k.correctness_only
            && !(k.expected_verdict is Sequential) && sweep.len() >= 2 && way == Shape::NativePar(middle(sweep, max_threads, hw))),
{
    let t = timed(k, size, sweep, max_threads, hw);
    if size <= k.interp_max_size {
        assert(t[0] == Shape::Interp);
        assert(t[1] == Shape::NativeSeq);
        if t.len() > 2 {
            assert(t[2] is NativePar);
        }
    } else {
        assert(t[0] == Shape::NativeSeq);
        if t.len() > 1 {
            assert(t[1] is NativePar);
        }
    }
}

/// A campaign goes on with a kernel that is there for a verdict exactly where its loops were
/// found and the verdict is among those on its regions; with one that is there for none, where
/// nothing was approved.
pub proof fn law_campaigns_stop_where_verdicts_are_missed(
    k: KernelV,
    v: Seq<Judgement>,
    any_loops: bool,
)
    ensures
        k.expected_verdict is NotApplicable ==> gate(k, v, any_loops) is Ok,
        k.expected_verdict is SafeParallel ==> (gate(k, v, any_loops) is Ok <==> any_loops
            && exists|i: int| 0 <= i < v.len() && #[trigger] v[i] is Safe),
        k.expected_verdict is ReductionParallel ==> (gate(k, v, any_loops) is Ok <==> any_loops
            && exists|i: int| 0 <= i < v.len() && #[trigger] v[i] is Reduces),
        !(k.expected_verdict is NotApplicable) && !(k.expected_verdict is SafeParallel) && !(
        k.expected_verdict is ReductionParallel) ==> (gate(k, v, any_loops) is Ok <==> any_loops
            && v.len() == 0),
        gate(k, v, any_loops) matches Err(t) ==> t.len() >= k.name.len() && t.take(
            k.name.len() as int,
        ) == k.name,
{
    match gate(k, v, any_loops) {
        Err(t) => {
            assert(t.take(k.name.len() as int) =~= k.name);
        },
        _ => {},
    }
}

/// How a size is declared.
pub open spec fn declaration(is_const: bool, name: Seq<char>) -> Seq<char> {
    if is_const {
        "const "@ + name + ": i64 = "@
    } else {
        "let "@ + name + " = "@
    }
}

/// A line that declares a name behind spaces.
proof fn lemma_declaring(n: nat, p: Seq<char>, rest: Seq<char>, q: Seq<char>)
    requires
        p.len() > 0,
        q.len() > 0,
        p[0] == 'l' || p[0] == 'c',
    ensures
        leading(spaces(n) + p + rest) == n,
        declares(p)(spaces(n) + p + rest),
        p[0] != q[0] ==> !declares(q)(spaces(n) + p + rest),
{
    let line = spaces(n) + p + rest;
    assert(line[n as int] == p[0]);
    lemma_spaces(n, line);
    let behind = line.skip(n as int);
    assert(behind =~= p + rest);
    assert(behind.take(p.len() as int) =~= p);
    if p[0] != q[0] && starts(behind, q) {
        assert(behind.take(q.len() as int)[0] == q[0]);
    }
}

/// Changing a size changes the first line that declares it, and no other: behind the same
/// spaces it declares the same name with the new size.
pub proof fn law_sizes_change_where_they_are_declared(
    s: Seq<char>,
    name: Seq<char>,
    value: int,
    is_const: bool,
    i: int,
    n: nat,
    rest: Seq<char>,
)
    requires
        0 <= i < segments(s).len(),
        segments(s)[i] == spaces(n) + declaration(is_const, name) + rest,
        rest.len() > 0 && rest.last() != '\r',
        forall|j: int|
            0 <= j < i ==> !declares(declaration(is_const, name))(#[trigger] segments(s)[j]),
        forall|j: int|
            0 <= j < segments(s).len() ==> !declares(declaration(!is_const, name))(
                #[trigger] segments(s)[j],
            ),
    ensures
        resized_once(s, name, value) == joined(
            segments(s).update(
                i,
                spaces(n) + declaration(is_const, name) + integer_text(value) + ";"@,
            ),
            newline(),
        ),
{
    reveal_strlit("let ");
    reveal_strlit("const ");
    let v = segments(s);
    let a = head(Declared::Let, name);
    let b = head(Declared::Const, name);
    let p = declaration(is_const, name);
    let q = declaration(!is_const, name);
    assert(a[0] == 'l' && b[0] == 'c');
    assert(p[0] != q[0]);
    let line = v[i];
    lemma_declaring(n, p, rest, q);
    lemma_first_where_is(v, declares(p), i);
    lemma_first_where_none(v, declares(q));
    assert(line.last() == rest.last());
    assert(line.take(n as int) =~= spaces(n));
    vstd::utf8::is_ascii_chars_encode_utf8(spaces(n));
    assert(bytes_of(line.take(n as int)) == n);
    let tail = integer_text(value) + ";"@;
    let now = spaces(n) + p + integer_text(value) + ";"@;
    assert(now =~= spaces(n) + p + tail);
    assert(redeclared(line, p, value) =~= now);
    let w = v.update(i, now);
    assert(rewritten(v, p, value) == w);
    lemma_declaring(n, p, tail, q);
    assert forall|j: int| 0 <= j < w.len() implies !declares(q)(#[trigger] w[j]) by {
        if j != i {
            assert(w[j] == segments(s)[j]);
        }
    }
    lemma_first_where_none(w, declares(q));
    if is_const {
        assert(p == b && q == a);
        assert(rewritten(v, a, value) == v);
    } else {
        assert(p == a && q == b);
        assert(rewritten(w, b, value) == w);
    }
}

} // verus!
