//! Lines of a text: splitting, joining, and the blanks that lines start with.
use vstd::prelude::*;

use crate::text::{joined, texts};

verus! {

/// The first `k` characters, parted at line ends. There is always a last part, which is
/// empty after a line end.
pub open spec fn parted(s: Seq<char>, k: nat) -> Seq<Seq<char>>
    decreases k,
{
    if k == 0 {
        seq![seq![]]
    } else {
        let before = parted(s, (k - 1) as nat);
        if s[k - 1] == '\n' {
            before.push(seq![])
        } else {
            before.drop_last().push(before.last().push(s[k - 1]))
        }
    }
}

/// A text, parted at line ends.
pub open spec fn segments(s: Seq<char>) -> Seq<Seq<char>> {
    parted(s, s.len())
}

/// The start of the last part.
pub open spec fn last_start(s: Seq<char>, k: nat) -> nat
    decreases k,
{
    if k == 0 {
        0
    } else if s[k - 1] == '\n' {
        k
    } else {
        last_start(s, (k - 1) as nat)
    }
}

/// The last part runs from its start to the end.
proof fn lemma_last_part(s: Seq<char>, k: nat)
    requires
        k <= s.len(),
    ensures
        parted(s, k).len() > 0,
        last_start(s, k) <= k,
        parted(s, k).last() == s.subrange(last_start(s, k) as int, k as int),
    decreases k,
{
    if k > 0 {
        lemma_last_part(s, (k - 1) as nat);
        let a = last_start(s, k) as int;
        if s[k - 1] != '\n' {
            assert(s.subrange(a, k as int) =~= s.subrange(a, k - 1).push(s[k - 1]));
        } else {
            assert(s.subrange(a, k as int) =~= seq![]);
        }
    } else {
        assert(s.subrange(0, 0) =~= seq![]);
    }
}

/// The characters of a text.
pub fn chars_of(s: &str) -> (r: Vec<char>)
    ensures
        r@ == s@,
{
    let mut out: Vec<char> = Vec::new();
    for c in it: s.chars()
        invariant
            it.seq() == s@,
            out@ == s@.take(it.index() as int),
    {
        out.push(c);
        assert(out@ =~= s@.take(it.index() + 1));
    }
    assert(s@.take(s@.len() as int) =~= s@);
    out
}

/// Parts a text at its line ends.
pub fn split_lines(s: &str) -> (r: Vec<String>)
    ensures
        texts(r@) == segments(s@),
{
    let chars = chars_of(s);
    let mut out: Vec<String> = Vec::new();
    let mut start: usize = 0;
    let mut k: usize = 0;
    while k < chars.len()
        invariant
            chars@ == s@,
            start == last_start(s@, k as nat),
            start <= k <= s@.len(),
            texts(out@) == parted(s@, k as nat).drop_last(),
        decreases s@.len() - k,
    {
        let ghost before = parted(s@, k as nat);
        proof {
            lemma_last_part(s@, k as nat);
        }
        if chars[k] == '\n' {
            let part = s.substring_char(start, k).to_owned();
            proof {
                crate::text::lemma_texts_push(out@, part);
                assert(before.drop_last().push(before.last()) =~= before);
                assert(before.push(seq![]).drop_last() =~= before);
            }
            out.push(part);
            start = k + 1;
        } else {
            proof {
                assert(before.drop_last().push(before.last().push(s@[k as int])).drop_last()
                    =~= before.drop_last());
            }
        }
        k = k + 1;
    }
    proof {
        lemma_last_part(s@, k as nat);
    }
    let part = s.substring_char(start, k).to_owned();
    proof {
        let all = parted(s@, k as nat);
        crate::text::lemma_texts_push(out@, part);
        assert(all.drop_last().push(all.last()) =~= all);
    }
    out.push(part);
    out
}

/// A line end as text.
pub open spec fn newline() -> Seq<char> {
    seq!['\n']
}

/// Joining what was parted gives the text back.
pub proof fn lemma_join_segments(s: Seq<char>, k: nat)
    requires
        k <= s.len(),
    ensures
        parted(s, k).len() > 0,
        joined(parted(s, k), newline()) == s.take(k as int),
    decreases k,
{
    if k == 0 {
        assert(s.take(0) =~= seq![]);
    } else {
        lemma_join_segments(s, (k - 1) as nat);
        let before = parted(s, (k - 1) as nat);
        let c = s[k - 1];
        assert(s.take(k as int) =~= s.take(k - 1).push(c));
        if c == '\n' {
            assert(before.push(seq![]).drop_last() =~= before);
            assert(s.take(k - 1) + newline() + seq![] =~= s.take(k as int));
        } else {
            let now = before.drop_last().push(before.last().push(c));
            if before.len() > 1 {
                assert(now.drop_last() =~= before.drop_last());
                let head = joined(before.drop_last(), newline()) + newline();
                assert(head + before.last().push(c) =~= (head + before.last()).push(c));
            }
        }
    }
}

/// No part holds a line end.
pub open spec fn flat(v: Seq<Seq<char>>) -> bool {
    forall|i: int| 0 <= i < v.len() ==> !#[trigger] v[i].contains('\n')
}

/// What was parted holds no line ends.
pub proof fn lemma_segments_flat(s: Seq<char>, k: nat)
    requires
        k <= s.len(),
    ensures
        flat(parted(s, k)),
        parted(s, k).len() > 0,
    decreases k,
{
    if k > 0 {
        lemma_segments_flat(s, (k - 1) as nat);
        let before = parted(s, (k - 1) as nat);
        let now = parted(s, k);
        assert forall|i: int| 0 <= i < now.len() implies !#[trigger] now[i].contains('\n') by {
            if i < before.len() - 1 {
                assert(now[i] == before[i]);
            } else if s[k - 1] != '\n' {
                assert(!before.last().contains('\n'));
                if now[i].contains('\n') {
                    let j = choose|j: int| 0 <= j < now[i].len() && now[i][j] == '\n';
                    assert(j < before.last().len());
                    assert(before.last()[j] == '\n');
                }
            } else if i < before.len() {
                assert(now[i] == before[i]);
            }
        }
    }
}

/// Only what stands before matters.
proof fn lemma_parted_prefix(a: Seq<char>, b: Seq<char>, k: nat)
    requires
        k <= a.len(),
        k <= b.len(),
        forall|i: int| 0 <= i < k ==> a[i] == b[i],
    ensures
        parted(a, k) == parted(b, k),
    decreases k,
{
    if k > 0 {
        lemma_parted_prefix(a, b, (k - 1) as nat);
    }
}

/// More characters without a line end extend the last part.
proof fn lemma_parted_more(s: Seq<char>, a: nat, k: nat)
    requires
        a <= k <= s.len(),
        !s.subrange(a as int, k as int).contains('\n'),
    ensures
        parted(s, a).len() > 0,
        parted(s, k) == parted(s, a).drop_last().push(
            parted(s, a).last() + s.subrange(a as int, k as int),
        ),
    decreases k,
{
    lemma_segments_flat(s, a);
    if k == a {
        let p = parted(s, a);
        assert(p.last() + s.subrange(a as int, a as int) =~= p.last());
        assert(p.drop_last().push(p.last()) =~= p);
    } else {
        let t = s.subrange(a as int, k as int);
        assert(t.last() == s[k - 1]);
        assert(s[k - 1] != '\n') by {
            if s[k - 1] == '\n' {
                assert(t[t.len() - 1] == '\n');
            }
        }
        let d = s.subrange(a as int, k - 1);
        assert(!d.contains('\n')) by {
            if d.contains('\n') {
                let j = choose|j: int| 0 <= j < d.len() && d[j] == '\n';
                assert(t[j] == '\n');
            }
        }
        lemma_parted_more(s, a, (k - 1) as nat);
        let p = parted(s, a);
        let q = parted(s, (k - 1) as nat);
        assert(q.last() == p.last() + d);
        assert(q.drop_last() =~= p.drop_last());
        assert((p.last() + d).push(s[k - 1]) =~= p.last() + t);
    }
}

/// Parting what was joined gives the parts back.
pub proof fn lemma_segments_join(v: Seq<Seq<char>>)
    requires
        v.len() > 0,
        flat(v),
    ensures
        segments(joined(v, newline())) == v,
    decreases v.len(),
{
    let s = joined(v, newline());
    if v.len() == 1 {
        assert(!v[0].contains('\n'));
        assert(s.subrange(0, s.len() as int) =~= v[0]);
        lemma_parted_more(s, 0, s.len());
        assert(seq![] + s.subrange(0, s.len() as int) =~= v[0]);
        assert(segments(s) =~= v);
    } else {
        let d = v.drop_last();
        assert forall|i: int| 0 <= i < d.len() implies !#[trigger] d[i].contains('\n') by {
            assert(!v[i].contains('\n'));
        }
        lemma_segments_join(d);
        let head = joined(d, newline());
        let a = head.len();
        assert(!v[v.len() - 1].contains('\n'));
        lemma_parted_prefix(s, head, a);
        assert(s[a as int] == '\n');
        assert(parted(s, (a + 1) as nat) == d.push(seq![]));
        assert(s.subrange((a + 1) as int, s.len() as int) =~= v.last());
        lemma_parted_more(s, (a + 1) as nat, s.len());
        assert(d.push(seq![]).drop_last() =~= d);
        assert(seq![] + v.last() =~= v.last());
        assert(segments(s) =~= v);
    }
}

/// A blank: a character with the Unicode property `White_Space`.
pub open spec fn blank(c: char) -> bool {
    ||| '\u{9}' <= c <= '\u{d}'
    ||| c == ' '
    ||| c == '\u{85}'
    ||| c == '\u{a0}'
    ||| c == '\u{1680}'
    ||| '\u{2000}' <= c <= '\u{200a}'
    ||| c == '\u{2028}'
    ||| c == '\u{2029}'
    ||| c == '\u{202f}'
    ||| c == '\u{205f}'
    ||| c == '\u{3000}'
}

/// Whether the character is a blank.
pub fn is_blank(c: char) -> (r: bool)
    ensures
        r == blank(c),
{
    ('\u{9}' <= c && c <= '\u{d}') || c == ' ' || c == '\u{85}' || c == '\u{a0}' || c == '\u{1680}'
        || ('\u{2000}' <= c && c <= '\u{200a}') || c == '\u{2028}' || c == '\u{2029}' || c
        == '\u{202f}' || c == '\u{205f}' || c == '\u{3000}'
}

/// How many blanks the text starts with.
pub open spec fn leading(s: Seq<char>) -> nat
    decreases s.len(),
{
    if s.len() > 0 && blank(s[0]) {
        1 + leading(s.skip(1))
    } else {
        0
    }
}

} // verus!
