//! Runtime errors and their places in the source.
//!
//! An error carries the byte range of the node that failed. A line map turns the start
//! of the range into a line number.
use vstd::prelude::*;
use vstd::string::*;

use crate::text::{integer_text, natural_text, push_integer, push_natural, push_text};

verus! {

/// A range of bytes in the source.
#[derive(Clone, Copy, Debug, PartialEq, Eq, Structural)]
pub struct Span {
    pub start: u32,
    pub end: u32,
}

/// What went wrong.
#[allow(inconsistent_fields)]
#[derive(Clone, Debug)]
pub enum RunErrorKind {
    /// An index that is negative or not below the length.
    Bounds { len: usize, idx: i64 },
    /// Integer `/` or `%` with divisor 0.
    DivByZero,
    /// The least integer divided by -1.
    IdivOverflow,
    /// An array of negative length.
    NegativeZeros { n: i64 },
    /// Calls nest too deeply.
    StackExhausted,
    /// A program that does not hold together.
    Internal(String),
}

/// What went wrong, as a mathematical value.
#[allow(inconsistent_fields)]
pub enum KindV {
    Bounds { len: usize, idx: i64 },
    DivByZero,
    IdivOverflow,
    NegativeZeros { n: i64 },
    StackExhausted,
    Internal(Seq<char>),
}

impl View for RunErrorKind {
    type V = KindV;

    open spec fn view(&self) -> KindV {
        match *self {
            RunErrorKind::Bounds { len, idx } => KindV::Bounds { len, idx },
            RunErrorKind::DivByZero => KindV::DivByZero,
            RunErrorKind::IdivOverflow => KindV::IdivOverflow,
            RunErrorKind::NegativeZeros { n } => KindV::NegativeZeros { n },
            RunErrorKind::StackExhausted => KindV::StackExhausted,
            RunErrorKind::Internal(m) => KindV::Internal(m@),
        }
    }
}

impl KindV {
    /// The message of the error.
    pub open spec fn text(self) -> Seq<char> {
        match self {
            KindV::Bounds { len, idx } => "index "@ + integer_text(idx as int)
                + " out of bounds for array of length "@ + natural_text(len as nat),
            KindV::DivByZero => "integer division by zero"@,
            KindV::IdivOverflow => "integer division overflow (i64::MIN / -1)"@,
            KindV::NegativeZeros { n } => "zeros("@ + integer_text(n as int)
                + "): array length must be non-negative"@,
            KindV::StackExhausted => "call stack exhausted (recursion deeper than the interpreter limit)"@,
            KindV::Internal(m) => "internal interpreter inconsistency: "@ + m,
        }
    }
}

impl RunErrorKind {
    /// The message of the error.
    pub fn message(&self) -> (r: String)
        ensures
            r@ == self@.text(),
    {
        match self {
            RunErrorKind::Bounds { len, idx } => {
                let mut s = "index ".to_owned();
                push_integer(&mut s, *idx as i128);
                push_text(&mut s, " out of bounds for array of length ");
                push_natural(&mut s, *len as u128);
                s
            },
            RunErrorKind::DivByZero => "integer division by zero".to_owned(),
            RunErrorKind::IdivOverflow => "integer division overflow (i64::MIN / -1)".to_owned(),
            RunErrorKind::NegativeZeros { n } => {
                let mut s = "zeros(".to_owned();
                push_integer(&mut s, *n as i128);
                push_text(&mut s, "): array length must be non-negative");
                s
            },
            RunErrorKind::StackExhausted => {
                "call stack exhausted (recursion deeper than the interpreter limit)".to_owned()
            },
            RunErrorKind::Internal(m) => {
                let mut s = "internal interpreter inconsistency: ".to_owned();
                push_text(&mut s, m.as_str());
                s
            },
        }
    }
}

/// A failure: what happened, where, and what was printed before it.
#[derive(Debug)]
pub struct RunError {
    pub kind: RunErrorKind,
    pub span: Span,
    pub printed_so_far: Vec<String>,
}

impl RunError {
    /// An error before anything was printed.
    pub fn new(kind: RunErrorKind, span: Span) -> (r: Self)
        ensures
            r.kind@ == kind@,
            r.span == span,
            r.printed_so_far@.len() == 0,
    {
        RunError { kind, span, printed_so_far: Vec::new() }
    }

    /// The error with the line it happened at.
    pub open spec fn rendered(self, src: Seq<char>) -> Seq<char> {
        "runtime error: "@ + self.kind@.text() + " at line "@ + natural_text(
            line_at(vstd::utf8::encode_utf8(src), self.span.start as int),
        )
    }

    /// The error with the line it happened at.
    pub fn render(&self, src: &str) -> (r: String)
        requires
            src.spec_bytes().len() < u32::MAX,
        ensures
            r@ == self.rendered(src@),
    {
        let lines = LineMap::new(src);
        proof {
            law_lines_count_newlines(src.spec_bytes(), self.span.start);
        }
        self.render_with(Some(&lines))
    }

    /// The error with the line it happened at, or with the byte where there is no map.
    pub fn render_with(&self, lines: Option<&LineMap>) -> (r: String)
        requires
            lines matches Some(l) ==> l@.len() <= u32::MAX,
        ensures
            r@ == (match lines {
                Some(l) => "runtime error: "@ + self.kind@.text() + " at line "@ + natural_text(
                    below(l@, self.span.start as int, l@.len()),
                ),
                None => "runtime error: "@ + self.kind@.text() + " (at byte offset "@
                    + natural_text(self.span.start as nat) + ")"@,
            }),
    {
        let mut s = "runtime error: ".to_owned();
        let m = self.kind.message();
        push_text(&mut s, m.as_str());
        match lines {
            Some(l) => {
                push_text(&mut s, " at line ");
                push_natural(&mut s, l.line_of(self.span.start) as u128);
                s
            },
            None => {
                push_text(&mut s, " (at byte offset ");
                push_natural(&mut s, self.span.start as u128);
                push_text(&mut s, ")");
                s
            },
        }
    }

    /// The error without a line.
    pub fn text(&self) -> (r: String)
        ensures
            r@ == "runtime error: "@ + self.kind@.text() + " (at byte offset "@ + natural_text(
                self.span.start as nat,
            ) + ")"@,
    {
        self.render_with(None)
    }
}

// ---------------------------------------------------------------------------
// Lines
// ---------------------------------------------------------------------------

/// How many newlines there are.
pub open spec fn newlines(bytes: Seq<u8>) -> nat
    decreases bytes.len(),
{
    if bytes.len() == 0 {
        0
    } else {
        newlines(bytes.drop_last()) + if bytes.last() == 10 {
            1nat
        } else {
            0
        }
    }
}

/// The line that byte `offset` lies on, from 1; past the end the last line.
pub open spec fn line_at(bytes: Seq<u8>, offset: int) -> nat {
    1 + newlines(
        bytes.take(
            if offset < bytes.len() {
                offset
            } else {
                bytes.len() as int
            },
        ),
    )
}

/// Where the lines among the first `k` bytes start.
pub open spec fn starts_below(bytes: Seq<u8>, k: nat) -> Seq<u32>
    decreases k,
{
    if k == 0 {
        seq![0u32]
    } else {
        let before = starts_below(bytes, (k - 1) as nat);
        if bytes[k - 1] == 10 {
            before.push(k as u32)
        } else {
            before
        }
    }
}

/// Where the lines start.
pub open spec fn line_starts(bytes: Seq<u8>) -> Seq<u32> {
    starts_below(bytes, bytes.len())
}

/// How many of the first `k` numbers are not above `offset`.
pub open spec fn below(s: Seq<u32>, offset: int, k: nat) -> nat
    decreases k,
{
    if k == 0 {
        0
    } else {
        below(s, offset, (k - 1) as nat) + if s[k - 1] <= offset {
            1nat
        } else {
            0
        }
    }
}

/// Where the lines of a source start.
#[derive(Debug)]
pub struct LineMap {
    line_starts: Vec<u32>,
}

impl View for LineMap {
    type V = Seq<u32>;

    closed spec fn view(&self) -> Seq<u32> {
        self.line_starts@
    }
}

impl LineMap {
    /// Finds the lines of a source.
    pub fn new(src: &str) -> (r: Self)
        requires
            src.spec_bytes().len() < u32::MAX,
        ensures
            r@ == line_starts(src.spec_bytes()),
            r@.len() <= u32::MAX,
    {
        let bytes = src.as_bytes();
        let ghost all = src.spec_bytes();
        let mut line_starts: Vec<u32> = vec![0];
        assert(line_starts@ =~= seq![0u32]);
        let mut i: usize = 0;
        while i < bytes.len()
            invariant
                all == bytes@,
                all.len() < u32::MAX,
                i <= all.len(),
                line_starts@ == starts_below(all, i as nat),
                line_starts@.len() <= i + 1,
            decreases all.len() - i,
        {
            if bytes[i] == 10 {
                line_starts.push(i as u32 + 1);
            }
            i = i + 1;
        }
        LineMap { line_starts }
    }

    /// The line of a byte: how many lines start at or before it.
    pub fn line_of(&self, offset: u32) -> (r: u32)
        requires
            self@.len() <= u32::MAX,
        ensures
            r == below(self@, offset as int, self@.len()),
    {
        let mut n: u32 = 0;
        let mut k: usize = 0;
        while k < self.line_starts.len()
            invariant
                self@.len() <= u32::MAX,
                self@ == self.line_starts@,
                k <= self@.len(),
                n <= k,
                n == below(self@, offset as int, k as nat),
            decreases self@.len() - k,
        {
            if self.line_starts[k] <= offset {
                n = n + 1;
            }
            k = k + 1;
        }
        n
    }

    /// Where the lines start.
    pub fn starts(&self) -> (r: &[u32])
        ensures
            r@ == self@,
    {
        self.line_starts.as_slice()
    }
}

/// The line map numbers lines by the newlines before a byte: the first line is 1, a
/// newline belongs to the line it ends, and what lies past the end belongs to the last
/// line.
pub proof fn law_lines_count_newlines(bytes: Seq<u8>, offset: u32)
    requires
        bytes.len() < u32::MAX,
    ensures
        below(line_starts(bytes), offset as int, line_starts(bytes).len()) == line_at(
            bytes,
            offset as int,
        ),
{
    lemma_below(bytes, offset as int, bytes.len());
    assert(bytes.take(bytes.len() as int) =~= bytes);
}

/// The same for the first `k` bytes.
proof fn lemma_below(bytes: Seq<u8>, offset: int, k: nat)
    requires
        k <= bytes.len() < u32::MAX,
        offset >= 0,
    ensures
        below(starts_below(bytes, k), offset, starts_below(bytes, k).len()) == line_at(
            bytes.take(k as int),
            offset,
        ),
    decreases k,
{
    if k == 0 {
        assert(bytes.take(0) =~= seq![]);
        assert(bytes.take(0).take(0) =~= seq![]);
        reveal_with_fuel(below, 2);
    } else {
        lemma_below(bytes, offset, (k - 1) as nat);
        let before = bytes.take(k - 1);
        let now = bytes.take(k as int);
        let starts = starts_below(bytes, k);
        let earlier = starts_below(bytes, (k - 1) as nat);
        if offset < k {
            // Nothing that starts at `k` counts.
            if offset < k - 1 {
                assert(now.take(offset) =~= before.take(offset));
            } else {
                assert(now.take(offset) =~= before);
                assert(before.take(before.len() as int) =~= before);
            }
        } else {
            assert(now.take(k as int) =~= now);
            assert(now.drop_last() =~= before);
            assert(before.take(k - 1) =~= before);
        }
        if bytes[k - 1] == 10 {
            lemma_below_push(earlier, k as u32, offset);
        }
    }
}

/// One number more.
proof fn lemma_below_push(s: Seq<u32>, x: u32, offset: int)
    ensures
        below(s.push(x), offset, s.len() + 1) == below(s, offset, s.len()) + if x <= offset {
            1nat
        } else {
            0
        },
{
    lemma_below_prefix(s, s.push(x), offset, s.len());
}

/// Only the first numbers count.
proof fn lemma_below_prefix(a: Seq<u32>, b: Seq<u32>, offset: int, k: nat)
    requires
        k <= a.len(),
        k <= b.len(),
        forall|i: int| 0 <= i < k ==> a[i] == b[i],
    ensures
        below(a, offset, k) == below(b, offset, k),
    decreases k,
{
    if k > 0 {
        lemma_below_prefix(a, b, offset, (k - 1) as nat);
    }
}

} // verus!
