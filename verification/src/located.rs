//! Where a place in a source is, said of the characters around it.
use vstd::prelude::*;

use crate::diag::{
    carets, chars_before, lemma_bytes_step, place, without_returns,
};
use crate::error::Span;
use crate::lines::{parted, segments};
use crate::resize::bytes_of;

verus! {

/// How many line ends are among the first `k` characters.
pub open spec fn line_ends(s: Seq<char>, k: int) -> nat {
    s.take(k).filter(|c: char| c == '\n').len()
}

/// One more part for each line end, and the last part runs from the last line end on.
proof fn lemma_parts(s: Seq<char>, k: nat, start: int)
    requires
        0 <= start <= k <= s.len(),
        start == 0 || s[start - 1] == '\n',
        forall|j: int| start <= j < k ==> #[trigger] s[j] != '\n',
    ensures
        parted(s, k).len() == 1 + line_ends(s, start),
        parted(s, k).last() == s.subrange(start, k as int),
    decreases k,
{
    reveal(Seq::filter);
    if k == 0 {
        assert(s.take(0) =~= seq![]);
        assert(s.subrange(0, 0) =~= seq![]);
    } else if s[k - 1] == '\n' {
        assert(start == k) by {
            if start < k {
                assert(s[k - 1] != '\n');
            }
        }
        let first = lemma_some_start(s, (k - 1) as nat);
        lemma_parts(s, (k - 1) as nat, first);
        lemma_no_ends(s, first, k - 1);
        assert(s.take(k as int).drop_last() =~= s.take(k - 1));
        assert(s.take(k as int).last() == '\n');
        assert(s.subrange(start, k as int) =~= seq![]);
    } else {
        assert(start < k);
        lemma_parts(s, (k - 1) as nat, start);
        assert(s.subrange(start, k as int) =~= s.subrange(start, k - 1).push(s[k - 1]));
    }
}

/// Some line starts at or before each place.
proof fn lemma_some_start(s: Seq<char>, k: nat) -> (start: int)
    requires
        k <= s.len(),
    ensures
        0 <= start <= k,
        start == 0 || s[start - 1] == '\n',
        forall|j: int| start <= j < k ==> #[trigger] s[j] != '\n',
    decreases k,
{
    if k == 0 || s[k - 1] == '\n' {
        k as int
    } else {
        lemma_some_start(s, (k - 1) as nat)
    }
}

/// Characters that are no line ends add none.
proof fn lemma_no_ends(s: Seq<char>, a: int, b: int)
    requires
        0 <= a <= b <= s.len(),
        forall|j: int| a <= j < b ==> #[trigger] s[j] != '\n',
    ensures
        line_ends(s, a) == line_ends(s, b),
    decreases b - a,
{
    reveal(Seq::filter);
    if a < b {
        lemma_no_ends(s, a, b - 1);
        assert(s.take(b).drop_last() =~= s.take(b - 1));
        assert(s.take(b).last() == s[b - 1]);
    }
}

/// A part behind which another one has begun stays as it is.
proof fn lemma_parts_stay(s: Seq<char>, a: nat, b: nat)
    requires
        a <= b <= s.len(),
    ensures
        1 <= parted(s, a).len() <= parted(s, b).len(),
        forall|i: int|
            0 <= i < parted(s, a).len() - 1 ==> #[trigger] parted(s, b)[i] == parted(s, a)[i],
    decreases b,
{
    if a < b {
        lemma_parts_stay(s, a, (b - 1) as nat);
    } else {
        let start = lemma_some_start(s, a);
        lemma_parts(s, a, start);
    }
}

/// As many characters stand before a byte as take the bytes before it.
proof fn lemma_counted(s: Seq<char>, k: int, j: nat)
    requires
        0 <= j <= k <= s.len(),
    ensures
        chars_before(s, bytes_of(s.take(k)), j) == k,
        j < k ==> bytes_of(s.take(j as int)) < bytes_of(s.take(k)),
    decreases k - j,
{
    if j < k {
        lemma_counted(s, k, j + 1);
        lemma_bytes_step(s, j as int);
        assert(vstd::utf8::encode_scalar(s[j as int] as u32).len() >= 1);
    }
}

/// What is left of a line.
proof fn lemma_without_returns(s: Seq<char>)
    ensures
        ({
            let t = without_returns(s);
            &&& t.len() <= s.len()
            &&& t == s.take(t.len() as int)
            &&& t.len() > 0 ==> t.last() != '\r'
            &&& forall|j: int| t.len() <= j < s.len() ==> #[trigger] s[j] == '\r'
        }),
    decreases s.len(),
{
    if s.len() > 0 && s.last() == '\r' {
        lemma_without_returns(s.drop_last());
        let t = without_returns(s);
        assert(t =~= s.take(t.len() as int));
        assert forall|j: int| t.len() <= j < s.len() implies #[trigger] s[j] == '\r' by {
            if j < s.len() - 1 {
                assert(s.drop_last()[j] == s[j]);
            }
        }
    } else {
        assert(s.take(s.len() as int) =~= s);
    }
}

/// A place is on the line after as many line ends as stand before it, in the column after as
/// many characters as stand before it on its line. What is shown is the line from its start
/// to its end, without the carriage returns that it ends with.
pub proof fn law_places_are_counted_from_one(s: Seq<char>, k: int, start: int, end: int)
    requires
        0 <= start <= k <= end <= s.len(),
        start == 0 || s[start - 1] == '\n',
        end == s.len() || s[end] == '\n',
        forall|j: int| start <= j < end ==> #[trigger] s[j] != '\n',
    ensures
        ({
            let (line, col, text) = place(s, bytes_of(s.take(k)));
            &&& line == 1 + line_ends(s, k)
            &&& col == 1 + (k - start)
            &&& text.len() <= end - start
            &&& text == s.subrange(start, start + text.len())
            &&& text.len() > 0 ==> text.last() != '\r'
            &&& forall|j: int| start + text.len() <= j < end ==> #[trigger] s[j] == '\r'
        }),
{
    lemma_counted(s, k, 0);
    lemma_parts(s, k as nat, start);
    lemma_no_ends(s, start, k);
    lemma_parts(s, end as nat, start);
    let m = parted(s, k as nat).len() - 1;
    let whole = s.subrange(start, end);
    if end == s.len() {
        assert(segments(s)[m] == whole);
    } else {
        lemma_parts(s, (end + 1) as nat, end + 1);
        assert(parted(s, (end + 1) as nat)[m] == whole);
        lemma_no_ends(s, start, end);
        lemma_parts_stay(s, (end + 1) as nat, s.len());
        assert(parted(s, (end + 1) as nat) == parted(s, end as nat).push(seq![]));
        assert(segments(s)[m] == parted(s, (end + 1) as nat)[m]);
    }
    lemma_without_returns(whole);
    let text = without_returns(whole);
    assert(text =~= s.subrange(start, start + text.len()));
    assert forall|j: int| start + text.len() <= j < end implies #[trigger] s[j] == '\r' by {
        assert(whole[j - start] == s[j]);
    }
}

/// There is a caret under every byte of the place, one at least, and none further than one
/// behind the line.
pub proof fn law_carets_stand_under_the_place(span: Span, col: nat, line_len: nat)
    requires
        1 <= col <= line_len + 1,
    ensures
        carets(span, col, line_len) >= 1,
        col - 1 + carets(span, col, line_len) <= line_len + 1,
        span.end <= span.start ==> carets(span, col, line_len) == 1,
        span.start < span.end && col - 1 + (span.end - span.start) <= line_len + 1 ==> carets(
            span,
            col,
            line_len,
        ) == span.end - span.start,
        span.start < span.end && col - 1 + (span.end - span.start) > line_len + 1 ==> col - 1
            + carets(span, col, line_len) == line_len + 1,
{
}

} // verus!
