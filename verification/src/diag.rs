//! Diagnostics with a caret under the place in the source.
use vstd::prelude::*;

use crate::error::{newlines, Span};
use crate::lines::{chars_of, parted, segments, split_lines};
use crate::resize::{bytes_of, spaces};
use crate::text::{natural_text, push_natural, push_text, texts};

verus! {

/// How many characters stand before a byte, counted from character `k` on.
pub open spec fn chars_before(s: Seq<char>, offset: nat, k: nat) -> nat
    decreases s.len() - k,
{
    if k >= s.len() || bytes_of(s.take(k as int)) >= offset {
        k
    } else {
        chars_before(s, offset, k + 1)
    }
}

/// A character starts at the byte, or the text ends before it.
pub open spec fn at_char(s: Seq<char>, offset: nat) -> bool {
    offset >= bytes_of(s) || bytes_of(s.take(chars_before(s, offset, 0) as int)) == offset
}

/// A line without the carriage returns that it ends with.
pub open spec fn without_returns(s: Seq<char>) -> Seq<char>
    decreases s.len(),
{
    if s.len() > 0 && s.last() == '\r' {
        without_returns(s.drop_last())
    } else {
        s
    }
}

/// Where a place in the source is: its line and its column, both from 1, and the text of
/// the line.
pub open spec fn place(s: Seq<char>, offset: nat) -> (nat, nat, Seq<char>) {
    let before = parted(s, chars_before(s, offset, 0));
    (
        before.len(),
        before.last().len() + 1,
        without_returns(segments(s)[before.len() - 1]),
    )
}

/// How many carets are drawn: one for each byte of the place, but no more than one behind
/// the line, and at least one.
pub open spec fn carets(span: Span, col: nat, line_len: nat) -> nat {
    let len = if span.end >= span.start {
        (span.end - span.start) as nat
    } else {
        0
    };
    let room = if line_len >= col - 1 {
        (line_len - (col - 1) + 1) as nat
    } else {
        1
    };
    let n = if len <= room {
        len
    } else {
        room
    };
    if n >= 1 {
        n
    } else {
        1
    }
}

/// The same character several times.
pub open spec fn repeated(c: char, n: nat) -> Seq<char> {
    Seq::new(n, |i: int| c)
}

/// A number with spaces before it, so that it takes at least `w` characters.
pub open spec fn right_aligned(n: nat, w: nat) -> Seq<char> {
    let t = natural_text(n);
    if t.len() < w {
        spaces((w - t.len()) as nat) + t
    } else {
        t
    }
}

/// A diagnostic as it is shown.
pub open spec fn shown(source: Seq<char>, filename: Seq<char>, span: Span, msg: Seq<char>) -> Seq<
    char,
> {
    let (line, col, text) = place(source, span.start as nat);
    "error: "@ + msg + "\n  --> "@ + filename + ":"@ + natural_text(line) + ":"@ + natural_text(col)
        + "\n   |\n"@ + right_aligned(line, 4) + " | "@ + text + "\n   | "@ + spaces(
        (col - 1) as nat,
    ) + repeated('^', carets(span, col, text.len())) + "\n"@
}

/// One character more takes as many bytes as it is wide.
pub proof fn lemma_bytes_step(s: Seq<char>, k: int)
    requires
        0 <= k < s.len(),
    ensures
        vstd::utf8::encode_utf8(s.take(k + 1)) == vstd::utf8::encode_utf8(s.take(k))
            + vstd::utf8::encode_scalar(s[k] as u32),
        bytes_of(s.take(k + 1)) == bytes_of(s.take(k)) + vstd::utf8::encode_scalar(
            s[k] as u32,
        ).len(),
    decreases k,
{
    if k == 0 {
        reveal_with_fuel(vstd::utf8::encode_utf8, 2);
        assert(s.take(1).drop_first() =~= seq![]);
        assert(s.take(0) =~= seq![]);
        let one = vstd::utf8::encode_scalar(s[0] as u32);
        assert(one + seq![] =~= one);
        assert(seq![] + one =~= one);
    } else {
        let t = s.drop_first();
        lemma_bytes_step(t, k - 1);
        assert(s.take(k + 1).drop_first() =~= t.take(k));
        assert(s.take(k).drop_first() =~= t.take(k - 1));
        let one = vstd::utf8::encode_scalar(s[0] as u32);
        let last = vstd::utf8::encode_scalar(s[k] as u32);
        let mid = vstd::utf8::encode_utf8(t.take(k - 1));
        assert(one + (mid + last) =~= (one + mid) + last);
    }
}

/// More characters take no fewer bytes.
proof fn lemma_bytes_grow(s: Seq<char>, a: int, b: int)
    requires
        0 <= a <= b <= s.len(),
    ensures
        bytes_of(s.take(a)) <= bytes_of(s.take(b)),
    decreases b - a,
{
    if a < b {
        lemma_bytes_grow(s, a, b - 1);
        lemma_bytes_step(s, b - 1);
    }
}

/// How many bytes a character takes.
fn char_width(c: char) -> (r: usize)
    ensures
        r == vstd::utf8::encode_scalar(c as u32).len(),
{
    let v: u32 = c as u32;
    if v <= 0x7f {
        1
    } else if v <= 0x7ff {
        2
    } else if v <= 0xffff {
        3
    } else {
        4
    }
}

/// How many characters stand before a byte.
fn count_before(source: &str, chars: &Vec<char>, offset: u32) -> (r: usize)
    requires
        chars@ == source@,
    ensures
        r == chars_before(source@, offset as nat, 0),
        r <= source@.len(),
{
    let mut pos: usize = 0;
    let mut k: usize = 0;
    let ghost all = source@;
    let size: usize = source.as_bytes().len();
    proof {
        assert(all.take(0) =~= seq![]);
        assert(all.take(all.len() as int) =~= all);
    }
    while k < chars.len() && pos < offset as usize
        invariant
            chars@ == all,
            all == source@,
            k <= all.len(),
            size == bytes_of(all),
            pos == bytes_of(all.take(k as int)),
            chars_before(all, offset as nat, 0) == chars_before(all, offset as nat, k as nat),
        decreases all.len() - k,
    {
        proof {
            lemma_bytes_step(all, k as int);
            lemma_bytes_grow(all, k + 1, all.len() as int);
            assert(all.take(all.len() as int) =~= all);
        }
        pos = pos + char_width(chars[k]);
        k = k + 1;
    }
    k
}

/// A line without the carriage returns that it ends with.
fn drop_returns(line: &str) -> (r: String)
    ensures
        r@ == without_returns(line@),
{
    let c = chars_of(line);
    let mut n: usize = c.len();
    assert(c@.take(n as int) =~= c@);
    while n > 0 && c[n - 1] == '\r'
        invariant
            n <= c@.len(),
            without_returns(c@) == without_returns(c@.take(n as int)),
        decreases n,
    {
        proof {
            let t = c@.take(n as int);
            assert(t.last() == c@[n - 1]);
            assert(t.drop_last() =~= c@.take(n - 1));
        }
        n = n - 1;
    }
    proof {
        let t = c@.take(n as int);
        if n > 0 {
            assert(t.last() == c@[n - 1]);
        }
        assert(line@.subrange(0, n as int) =~= t);
    }
    line.substring_char(0, n).to_owned()
}

/// Appends the same text several times.
fn push_repeated(s: &mut String, one: &str, n: usize)
    requires
        one@.len() == 1,
    ensures
        final(s)@ == old(s)@ + repeated(one@[0], n as nat),
{
    let ghost c = one@[0];
    assert(s@ + repeated(c, 0) =~= s@);
    let mut k: usize = 0;
    while k < n
        invariant
            k <= n,
            one@.len() == 1,
            c == one@[0],
            s@ == old(s)@ + repeated(c, k as nat),
        decreases n - k,
    {
        push_text(s, one);
        proof {
            assert(s@ =~= old(s)@ + repeated(c, (k + 1) as nat));
        }
        k = k + 1;
    }
}

/// The prefix of a text has no more lines than the text.
proof fn lemma_parts_grow(s: Seq<char>, a: nat, b: nat)
    requires
        a <= b <= s.len(),
    ensures
        1 <= parted(s, a).len() <= parted(s, b).len(),
    decreases b,
{
    crate::lines::lemma_segments_flat(s, a);
    if a < b {
        lemma_parts_grow(s, a, (b - 1) as nat);
        crate::lines::lemma_segments_flat(s, (b - 1) as nat);
    }
}

/// A prefix parts as the text does up to there.
proof fn lemma_prefix_parts(s: Seq<char>, n: nat, k: nat)
    requires
        k <= n <= s.len(),
    ensures
        parted(s.take(n as int), k) == parted(s, k),
    decreases k,
{
    if k > 0 {
        lemma_prefix_parts(s, n, (k - 1) as nat);
    }
}

/// Shows a diagnostic with a caret under its place in the source.
pub fn render(source: &str, filename: &str, span: Span, msg: &str) -> (r: String)
    requires
        at_char(source@, span.start as nat),
    ensures
        r@ == shown(source@, filename@, span, msg@),
{
    let chars = chars_of(source);
    let n: usize = count_before(source, &chars, span.start);
    let ghost s = source@;
    let head = split_lines(source.substring_char(0, n));
    let all = split_lines(source);
    proof {
        assert(s.subrange(0, n as int) =~= s.take(n as int));
        lemma_prefix_parts(s, n as nat, n as nat);
        lemma_parts_grow(s, n as nat, s.len());
        assert(texts(head@) == parted(s, n as nat));
        assert(texts(head@).len() == head@.len());
        assert(texts(all@).len() == all@.len());
        assert(texts(head@)[head@.len() - 1] == head@[head@.len() - 1]@);
        assert(texts(all@)[head@.len() - 1] == all@[head@.len() - 1]@);
    }
    let line: usize = head.len();
    let before: usize = head[line - 1].as_str().unicode_len();
    let text = drop_returns(all[line - 1].as_str());
    let len: usize = text.as_str().unicode_len();
    let want: usize = if span.end >= span.start {
        (span.end - span.start) as usize
    } else {
        0
    };
    // one caret may stand behind the line
    let left: usize = if len >= before {
        len - before
    } else {
        0
    };
    let mut count: usize = want;
    if count > left && count - left > 1 {
        count = left + 1;
    }
    if count < 1 {
        count = 1;
    }
    let mut out = "error: ".to_owned();
    push_text(&mut out, msg);
    push_text(&mut out, "\n  --> ");
    push_text(&mut out, filename);
    push_text(&mut out, ":");
    push_natural(&mut out, line as u128);
    push_text(&mut out, ":");
    push_natural(&mut out, before as u128 + 1);
    push_text(&mut out, "\n   |\n");
    let mut number = String::new();
    push_natural(&mut number, line as u128);
    assert(number@ =~= natural_text(line as nat));
    let digits: usize = number.as_str().unicode_len();
    proof {
        reveal_strlit(" ");
        reveal_strlit("^");
    }
    let ghost o1 = out@;
    if digits < 4 {
        push_repeated(&mut out, " ", 4 - digits);
    }
    push_text(&mut out, number.as_str());
    proof {
        assert(repeated(' ', (4 - digits) as nat) =~= spaces((4 - digits) as nat));
        assert(out@ =~= o1 + right_aligned(line as nat, 4));
    }
    push_text(&mut out, " | ");
    push_text(&mut out, text.as_str());
    push_text(&mut out, "\n   | ");
    push_repeated(&mut out, " ", before);
    push_repeated(&mut out, "^", count);
    push_text(&mut out, "\n");
    proof {
        let (l, c, t) = place(s, span.start as nat);
        assert(l == line && c == before + 1 && t == text@);
        assert(repeated(' ', before as nat) =~= spaces((c - 1) as nat));
        assert(count == carets(span, c, t.len()));
        assert(out@ =~= shown(s, filename@, span, msg@));
    }
    out
}

/// Line ends of two texts, one behind the other.
proof fn lemma_newlines_join(a: Seq<u8>, b: Seq<u8>)
    ensures
        newlines(a + b) == newlines(a) + newlines(b),
    decreases b.len(),
{
    if b.len() == 0 {
        assert(a + b =~= a);
    } else {
        assert((a + b).drop_last() =~= a + b.drop_last());
        lemma_newlines_join(a, b.drop_last());
    }
}

/// Only a line end is written with the byte of a line end.
proof fn lemma_newline_byte(c: char)
    ensures
        newlines(vstd::utf8::encode_scalar(c as u32)) == if c == '\n' {
            1nat
        } else {
            0
        },
{
    reveal_with_fuel(newlines, 5);
    let v = c as u32;
    let b = vstd::utf8::encode_scalar(v);
    assert(v <= 0x7f ==> (vstd::utf8::leading_byte_width_1(v) == 10u8 <==> v == 10u32))
        by (bit_vector);
    assert(vstd::utf8::leading_byte_width_2(v) >= 0x80u8) by (bit_vector);
    assert(vstd::utf8::leading_byte_width_3(v) >= 0x80u8) by (bit_vector);
    assert(vstd::utf8::leading_byte_width_4(v) >= 0x80u8) by (bit_vector);
    assert(vstd::utf8::last_continuation_byte(v) >= 0x80u8) by (bit_vector);
    assert(vstd::utf8::second_last_continuation_byte(v) >= 0x80u8) by (bit_vector);
    assert(vstd::utf8::third_last_continuation_byte(v) >= 0x80u8) by (bit_vector);
}

/// One character more adds a line end only where it is one.
proof fn lemma_newlines_step(s: Seq<char>, k: int)
    requires
        0 <= k < s.len(),
    ensures
        newlines(vstd::utf8::encode_utf8(s.take(k + 1))) == newlines(
            vstd::utf8::encode_utf8(s.take(k)),
        ) + if s[k] == '\n' {
            1nat
        } else {
            0
        },
{
    lemma_bytes_step(s, k);
    lemma_newlines_join(
        vstd::utf8::encode_utf8(s.take(k)),
        vstd::utf8::encode_scalar(s[k] as u32),
    );
    lemma_newline_byte(s[k]);
}

/// The place of a diagnostic is on the line that it names: the line that a runtime error
/// at the same byte would name.
pub proof fn law_lines_are_those_of_errors(s: Seq<char>, k: nat)
    requires
        k <= s.len(),
    ensures
        parted(s, k).len() == newlines(vstd::utf8::encode_utf8(s.take(k as int)))
            + 1,
    decreases k,
{
    crate::lines::lemma_segments_flat(s, k);
    if k > 0 {
        law_lines_are_those_of_errors(s, (k - 1) as nat);
        lemma_newlines_step(s, k - 1);
        crate::lines::lemma_segments_flat(s, (k - 1) as nat);
    } else {
        assert(s.take(0) =~= seq![]);
    }
}

} // verus!
