//! State of the host behind compiled code: the sink of runtime errors, printed lines,
//! array records and captured values.
use std::collections::HashMap;

use vstd::prelude::*;

use crate::floats::{prints, Precision, PrintModel};
use crate::ir::ElemTy;
use crate::text::{integer_text, push_integer, push_text, texts};

verus! {

broadcast use vstd::std_specs::hash::group_hash_axioms;

/// Array index outside the array.
pub const BOUNDS_CODE: i64 = 1;

/// Integer `/` or `%` with divisor 0.
pub const DIV_ZERO_CODE: i64 = 2;

/// The least integer divided by -1.
pub const DIV_OVERFLOW_CODE: i64 = 3;

/// An array of negative length.
pub const NEG_ZEROS_CODE: i64 = 4;

/// Why compiled code stopped.
#[derive(Clone, Copy, Debug, PartialEq, Eq, Structural)]
pub enum PanicCode {
    Bounds,
    DivZero,
    DivOverflow,
    NegZeros,
}

impl PanicCode {
    /// The number that stands for the code.
    pub open spec fn number(self) -> i64 {
        match self {
            PanicCode::Bounds => BOUNDS_CODE,
            PanicCode::DivZero => DIV_ZERO_CODE,
            PanicCode::DivOverflow => DIV_OVERFLOW_CODE,
            PanicCode::NegZeros => NEG_ZEROS_CODE,
        }
    }

    /// The number that stands for the code.
    pub fn raw(self) -> (r: i64)
        ensures
            r == self.number(),
    {
        match self {
            PanicCode::Bounds => BOUNDS_CODE,
            PanicCode::DivZero => DIV_ZERO_CODE,
            PanicCode::DivOverflow => DIV_OVERFLOW_CODE,
            PanicCode::NegZeros => NEG_ZEROS_CODE,
        }
    }

    /// The code that a number stands for.
    pub open spec fn of_number(v: i64) -> Option<PanicCode> {
        if v == BOUNDS_CODE {
            Some(PanicCode::Bounds)
        } else if v == DIV_ZERO_CODE {
            Some(PanicCode::DivZero)
        } else if v == DIV_OVERFLOW_CODE {
            Some(PanicCode::DivOverflow)
        } else if v == NEG_ZEROS_CODE {
            Some(PanicCode::NegZeros)
        } else {
            None
        }
    }

    /// The code that a number stands for; `None` for other numbers.
    pub fn from_raw(v: i64) -> (r: Option<PanicCode>)
        ensures
            r == PanicCode::of_number(v),
    {
        if v == BOUNDS_CODE {
            Some(PanicCode::Bounds)
        } else if v == DIV_ZERO_CODE {
            Some(PanicCode::DivZero)
        } else if v == DIV_OVERFLOW_CODE {
            Some(PanicCode::DivOverflow)
        } else if v == NEG_ZEROS_CODE {
            Some(PanicCode::NegZeros)
        } else {
            None
        }
    }
}

/// Numbers and codes are one to one.
pub proof fn law_codes_round_trip(c: PanicCode, v: i64)
    ensures
        PanicCode::of_number(c.number()) == Some(c),
        PanicCode::of_number(v) matches Some(d) ==> d.number() == v,
{
}

/// The message of a code.
pub open spec fn code_text(code: i64) -> Seq<char> {
    match PanicCode::of_number(code) {
        Some(PanicCode::Bounds) => "array index out of bounds"@,
        Some(PanicCode::DivZero) => "integer division by zero"@,
        Some(PanicCode::DivOverflow) => "integer division overflow (i64::MIN / -1)"@,
        Some(PanicCode::NegZeros) => "negative zeros() length"@,
        None => "unknown panic code "@ + integer_text(code as int),
    }
}

/// The message of a code.
pub fn message_for(code: i64) -> (r: String)
    ensures
        r@ == code_text(code),
{
    match PanicCode::from_raw(code) {
        Some(PanicCode::Bounds) => "array index out of bounds".to_owned(),
        Some(PanicCode::DivZero) => "integer division by zero".to_owned(),
        Some(PanicCode::DivOverflow) => "integer division overflow (i64::MIN / -1)".to_owned(),
        Some(PanicCode::NegZeros) => "negative zeros() length".to_owned(),
        None => {
            let mut s = "unknown panic code ".to_owned();
            push_integer(&mut s, code as i128);
            s
        },
    }
}

/// Where a runtime error goes.
#[derive(Debug)]
pub enum PanicRoute {
    /// To the hook that is installed; compiled code goes on with a defined return.
    Hook,
    /// The text is printed and the program exits with status 1.
    Exit(String),
}

/// The hook for runtime errors, of any type that the host can call.
#[derive(Debug)]
pub struct PanicHook<H> {
    pub hook: Option<H>,
}

impl<H> PanicHook<H> {
    /// No hook.
    pub fn new() -> (r: Self)
        ensures
            r.hook is None,
    {
        PanicHook { hook: None }
    }

    /// Installs a hook and gives back the one before.
    pub fn set_panic_hook(&mut self, hook: H) -> (r: Option<H>)
        ensures
            r == old(self).hook,
            final(self).hook == Some(hook),
    {
        let r = self.hook.take();
        self.hook = Some(hook);
        r
    }

    /// Removes the hook.
    pub fn clear_panic_hook(&mut self)
        ensures
            final(self).hook is None,
    {
        self.hook = None;
    }

    /// Where a runtime error at the line goes.
    pub fn helix_panic(&self, code: i64, line: i64) -> (r: PanicRoute)
        ensures
            self.hook is Some ==> r is Hook,
            self.hook is None ==> (r matches PanicRoute::Exit(s) && s@ == "runtime error: "@
                + code_text(code) + " at line "@ + integer_text(line as int)),
    {
        if self.hook.is_some() {
            return PanicRoute::Hook;
        }
        let mut s = "runtime error: ".to_owned();
        let text = message_for(code);
        push_text(&mut s, text.as_str());
        push_text(&mut s, " at line ");
        push_integer(&mut s, line as i128);
        PanicRoute::Exit(s)
    }
}

/// A value that compiled code prints. Floating-point numbers are bit patterns.
pub enum Printed {
    I64(i64),
    F64(u64),
    F32(u64),
    Bool(i64),
}

/// The line of a printed value; `fmt` writes floating-point numbers.
pub open spec fn line_of(v: Printed, fmt: PrintModel) -> Seq<char> {
    match v {
        Printed::I64(n) => integer_text(n as int),
        Printed::F64(bits) => fmt(Precision::Double, bits),
        Printed::F32(bits) => fmt(Precision::Single, bits),
        Printed::Bool(b) => bool_text(b),
    }
}

/// The lines in a buffer after some values were printed.
pub open spec fn after_prints(lines: Seq<Seq<char>>, values: Seq<Printed>, fmt: PrintModel) -> Seq<
    Seq<char>,
>
    decreases values.len(),
{
    if values.len() == 0 {
        lines
    } else {
        after_prints(lines, values.drop_last(), fmt).push(line_of(values.last(), fmt))
    }
}

/// What is printed after a buffer was drained is what it holds: one line for each value,
/// in order.
pub proof fn law_drained_buffers_collect(values: Seq<Printed>, fmt: PrintModel)
    ensures
        after_prints(seq![], values, fmt) == values.map_values(|v: Printed| line_of(v, fmt)),
    decreases values.len(),
{
    if values.len() > 0 {
        law_drained_buffers_collect(values.drop_last(), fmt);
    }
    assert(after_prints(seq![], values, fmt) =~= values.map_values(|v: Printed| line_of(v, fmt)));
}

/// Lines that compiled code printed, collected until they are drained.
#[derive(Debug)]
pub struct PrintBuffer {
    lines: Vec<String>,
}

impl View for PrintBuffer {
    type V = Seq<Seq<char>>;

    closed spec fn view(&self) -> Seq<Seq<char>> {
        texts(self.lines@)
    }
}

impl PrintBuffer {
    /// Nothing was printed.
    pub fn new() -> (r: Self)
        ensures
            r@ == Seq::<Seq<char>>::empty(),
    {
        let lines: Vec<String> = Vec::new();
        assert(texts(lines@) =~= seq![]);
        PrintBuffer { lines }
    }

    /// Drains everything printed so far. What is printed next is collected again.
    pub fn take_prints(&mut self) -> (r: Vec<String>)
        ensures
            texts(r@) == old(self)@,
            final(self)@ == Seq::<Seq<char>>::empty(),
    {
        let mut lines: Vec<String> = Vec::new();
        assert(texts(lines@) =~= seq![]);
        std::mem::swap(&mut self.lines, &mut lines);
        lines
    }

    /// Adds a line.
    fn push_line(&mut self, line: String)
        ensures
            final(self)@ == old(self)@.push(line@),
    {
        let ghost before = self.lines@;
        self.lines.push(line);
        assert(texts(self.lines@) =~= texts(before).push(line@));
    }

    /// Prints an integer.
    pub fn helix_print_i64(&mut self, v: i64)
        ensures
            forall|fmt: PrintModel|
                final(self)@ == old(self)@.push(#[trigger] line_of(Printed::I64(v), fmt)),
            final(self)@ == old(self)@.push(integer_text(v as int)),
    {
        let mut s = String::new();
        push_integer(&mut s, v as i128);
        assert(s@ =~= integer_text(v as int));
        self.push_line(s);
    }

    /// Prints a number of double precision.
    pub fn helix_print_f64<P: Fn(Precision, u64) -> String>(&mut self, bits: u64, text: &P)
        requires
            text.requires((Precision::Double, bits)),
        ensures
            exists|line: String| #[trigger]
                text.ensures((Precision::Double, bits), line) && final(self)@ == old(self)@.push(line@),
            forall|fmt: PrintModel|
                prints(*text, fmt) ==> final(self)@ == old(self)@.push(
                    #[trigger] line_of(Printed::F64(bits), fmt),
                ),
    {
        let line = text(Precision::Double, bits);
        assert(text.ensures((Precision::Double, bits), line));
        self.push_line(line);
    }

    /// Prints a number of single precision, at single precision.
    pub fn helix_print_f32<P: Fn(Precision, u64) -> String>(&mut self, bits: u64, text: &P)
        requires
            text.requires((Precision::Single, bits)),
        ensures
            exists|line: String| #[trigger]
                text.ensures((Precision::Single, bits), line) && final(self)@ == old(self)@.push(line@),
            forall|fmt: PrintModel|
                prints(*text, fmt) ==> final(self)@ == old(self)@.push(
                    #[trigger] line_of(Printed::F32(bits), fmt),
                ),
    {
        let line = text(Precision::Single, bits);
        assert(text.ensures((Precision::Single, bits), line));
        self.push_line(line);
    }

    /// Prints a boolean that crossed the boundary as a number.
    pub fn helix_print_bool(&mut self, v: i64)
        ensures
            forall|fmt: PrintModel|
                final(self)@ == old(self)@.push(#[trigger] line_of(Printed::Bool(v), fmt)),
            final(self)@ == old(self)@.push(bool_text(v)),
    {
        self.push_line(bool_line(v));
    }
}

/// Lines that compiled code printed: they are kept while a capture is installed, and
/// handed out to be printed otherwise.
#[derive(Debug)]
pub struct PrintSink {
    pub capture: Option<Vec<String>>,
}

/// What a capture holds.
pub open spec fn captured(c: Option<Vec<String>>) -> Option<Seq<Seq<char>>> {
    match c {
        Some(v) => Some(texts(v@)),
        None => None,
    }
}

impl PrintSink {
    /// Nothing is captured.
    pub fn new() -> (r: Self)
        ensures
            r.capture is None,
    {
        PrintSink { capture: None }
    }

    /// Captures lines from here on, starting with none.
    pub fn capture_prints(&mut self)
        ensures
            captured(final(self).capture) == Some(Seq::<Seq<char>>::empty()),
    {
        let lines: Vec<String> = Vec::new();
        assert(texts(lines@) =~= seq![]);
        self.capture = Some(lines);
    }

    /// The lines since the capture was installed, in order; it ends.
    pub fn end_capture(&mut self) -> (r: Vec<String>)
        ensures
            texts(r@) == (match captured(old(self).capture) {
                Some(v) => v,
                None => seq![],
            }),
            final(self).capture is None,
    {
        match self.capture.take() {
            Some(lines) => lines,
            None => {
                let lines: Vec<String> = Vec::new();
                assert(texts(lines@) =~= seq![]);
                lines
            },
        }
    }

    /// Takes one line: it is kept by the capture, or comes back to be printed.
    pub fn emit_line(&mut self, line: String) -> (r: Option<String>)
        ensures
            match captured(old(self).capture) {
                Some(v) => r is None && captured(final(self).capture) == Some(v.push(line@)),
                None => r == Some(line) && final(self).capture is None,
            },
    {
        match self.capture.take() {
            Some(lines) => {
                let ghost before = lines@;
                let mut lines = lines;
                lines.push(line);
                assert(texts(lines@) =~= texts(before).push(line@));
                self.capture = Some(lines);
                None
            },
            None => Some(line),
        }
    }
}

/// The text of a boolean that crossed the boundary as a number.
pub open spec fn bool_text(v: i64) -> Seq<char> {
    if v != 0 {
        "true"@
    } else {
        "false"@
    }
}

/// The text of a boolean that crossed the boundary as a number.
pub fn bool_line(v: i64) -> (r: String)
    ensures
        r@ == bool_text(v),
{
    if v != 0 {
        "true".to_owned()
    } else {
        "false".to_owned()
    }
}

/// The size of an array element in memory of the host.
pub fn elem_size(e: ElemTy) -> (r: i64)
    ensures
        r == (match e {
            ElemTy::I32 => 4i64,
            ElemTy::F32 => 4,
            ElemTy::I64 => 8,
            ElemTy::F64 => 8,
            ElemTy::Bool => 8,
        }),
{
    match e {
        ElemTy::I32 => 4,
        ElemTy::F32 => 4,
        ElemTy::I64 => 8,
        ElemTy::F64 => 8,
        ElemTy::Bool => 8,
    }
}

/// What an allocation comes to.
#[derive(Clone, Copy, Debug, PartialEq, Eq, Structural)]
pub enum AllocAction {
    /// A runtime error: the length is negative.
    Trap(i64),
    /// The array is empty: no data and no length.
    Null,
    /// Zeroed memory of this many bytes, aligned to 8.
    Bytes(usize),
}

/// The size in bytes, rounded up to a multiple of 8.
pub open spec fn rounded_bytes(len: int, elem_size: int) -> int {
    let bytes = if len * elem_size > i64::MAX {
        i64::MAX as int
    } else {
        len * elem_size
    };
    if bytes > usize::MAX - 7 || bytes == 0 {
        8
    } else {
        (bytes + 7) / 8 * 8
    }
}

/// Array records and captured values.
pub struct HostTables {
    arrays: HashMap<i64, (i64, i64)>,
    next_buf: i64,
    caps_i: Vec<i64>,
    caps_f: Vec<u64>,
}

/// Array records and captured values, as mathematical values.
#[verifier::ext_equal]
pub struct HostTablesV {
    pub arrays: Map<i64, (i64, i64)>,
    pub next_buf: i64,
    pub caps_i: Seq<i64>,
    pub caps_f: Seq<u64>,
}

impl View for HostTables {
    type V = HostTablesV;

    closed spec fn view(&self) -> HostTablesV {
        HostTablesV {
            arrays: self.arrays@,
            next_buf: self.next_buf,
            caps_i: self.caps_i@,
            caps_f: self.caps_f@,
        }
    }
}

/// Nothing recorded.
pub open spec fn empty_tables() -> HostTablesV {
    HostTablesV { arrays: Map::empty(), next_buf: 1, caps_i: seq![], caps_f: seq![] }
}

/// The position of a capture; one that is negative counts as 0.
pub open spec fn capture_index(idx: i64) -> int {
    if idx < 0 {
        0
    } else {
        idx as int
    }
}

/// The list with `v` at the position; zeros fill the gap before it.
pub open spec fn placed<T>(s: Seq<T>, i: int, zero: T, v: T) -> Seq<T> {
    if i < s.len() {
        s.update(i, v)
    } else {
        s + Seq::new((i - s.len()) as nat, |k: int| zero) + seq![v]
    }
}

impl HostTables {
    /// Nothing recorded.
    pub fn new() -> (r: Self)
        ensures
            r@ == empty_tables(),
    {
        let t = HostTables {
            arrays: HashMap::new(),
            next_buf: 1,
            caps_i: Vec::new(),
            caps_f: Vec::new(),
        };
        assert(t@ =~= empty_tables());
        t
    }

    /// Forgets everything.
    pub fn reset_tables(&mut self)
        ensures
            final(self)@ == empty_tables(),
    {
        self.arrays.clear();
        self.next_buf = 1;
        self.caps_i = Vec::new();
        self.caps_f = Vec::new();
        assert(self@ =~= empty_tables());
    }

    /// Records data and length of an array.
    pub fn arr_record(&mut self, tag: i64, ptr: i64, len: i64)
        ensures
            final(self)@ == (HostTablesV {
                arrays: old(self)@.arrays.insert(tag, (ptr, len)),
                ..old(self)@
            }),
    {
        self.arrays.insert(tag, (ptr, len));
    }

    /// Data and length of an array; zeros where there is no record.
    pub fn arr_lookup(&self, tag: i64) -> (r: (i64, i64))
        ensures
            r == (if self@.arrays.dom().contains(tag) {
                self@.arrays[tag]
            } else {
                (0, 0)
            }),
    {
        match self.arrays.get(&tag) {
            Some(a) => *a,
            None => (0, 0),
        }
    }

    /// What an allocation of `len` elements comes to. An empty array is recorded at once.
    pub fn plan_alloc_zeros(&mut self, len: i64, elem_size: i64, tag: i64) -> (r: AllocAction)
        ensures
            r == (if len < 0 {
                AllocAction::Trap(NEG_ZEROS_CODE)
            } else if len == 0 || elem_size <= 0 {
                AllocAction::Null
            } else {
                AllocAction::Bytes(rounded_bytes(len as int, elem_size as int) as usize)
            }),
            final(self)@ == (if r is Null {
                HostTablesV { arrays: old(self)@.arrays.insert(tag, (0, 0)), ..old(self)@ }
            } else {
                old(self)@
            }),
            r matches AllocAction::Bytes(n) ==> n == rounded_bytes(len as int, elem_size as int)
                && n >= 8 && n % 8 == 0,
    {
        if len < 0 {
            return AllocAction::Trap(PanicCode::NegZeros.raw());
        }
        if len == 0 || elem_size <= 0 {
            self.arr_record(tag, 0, 0);
            return AllocAction::Null;
        }
        proof {
            assert(len * elem_size > 0) by (nonlinear_arith)
                requires
                    len > 0,
                    elem_size > 0,
            ;
        }
        let bytes: i64 = match len.checked_mul(elem_size) {
            Some(b) => b,
            None => i64::MAX,
        };
        if bytes as u64 > (usize::MAX - 7) as u64 {
            return AllocAction::Bytes(8);
        }
        let n: usize = bytes as usize;
        let rounded: usize = (n + 7) / 8 * 8;
        AllocAction::Bytes(rounded)
    }

    /// Records an array that was allocated.
    pub fn finish_alloc_zeros(&mut self, tag: i64, ptr: i64, len: i64)
        requires
            old(self)@.next_buf < i64::MAX,
        ensures
            final(self)@ == (HostTablesV {
                arrays: old(self)@.arrays.insert(tag, (ptr, len)),
                next_buf: (old(self)@.next_buf + 1) as i64,
                ..old(self)@
            }),
    {
        self.arr_record(tag, ptr, len);
        self.next_buf = self.next_buf + 1;
    }

    /// Keeps the captured integer of a position.
    pub fn helix_stash_i64(&mut self, idx: i64, v: i64)
        requires
            capture_index(idx) < usize::MAX,
        ensures
            final(self)@ == (HostTablesV {
                caps_i: placed(old(self)@.caps_i, capture_index(idx), 0, v),
                ..old(self)@
            }),
    {
        let i: usize = if idx < 0 { 0 } else { idx as usize };
        let ghost start = self.caps_i@;
        if i < self.caps_i.len() {
            self.caps_i.set(i, v);
            return;
        }
        while self.caps_i.len() < i
            invariant
                start.len() <= self.caps_i@.len() <= i,
                self.caps_i@ == start + Seq::new(
                    (self.caps_i@.len() - start.len()) as nat,
                    |k: int| 0i64,
                ),
                self@ == (HostTablesV { caps_i: self.caps_i@, ..old(self)@ }),
            decreases i - self.caps_i@.len(),
        {
            let ghost before = self.caps_i@;
            self.caps_i.push(0);
            assert(self.caps_i@ =~= start + Seq::new(
                (self.caps_i@.len() - start.len()) as nat,
                |k: int| 0i64,
            ));
        }
        let ghost filled = self.caps_i@;
        self.caps_i.push(v);
        assert(self.caps_i@ =~= filled + seq![v]);
    }

    /// Keeps the bits of the captured floating-point number of a position.
    pub fn helix_stash_f64(&mut self, idx: i64, bits: u64)
        requires
            capture_index(idx) < usize::MAX,
        ensures
            final(self)@ == (HostTablesV {
                caps_f: placed(old(self)@.caps_f, capture_index(idx), 0, bits),
                ..old(self)@
            }),
    {
        let i: usize = if idx < 0 { 0 } else { idx as usize };
        let ghost start = self.caps_f@;
        if i < self.caps_f.len() {
            self.caps_f.set(i, bits);
            return;
        }
        while self.caps_f.len() < i
            invariant
                start.len() <= self.caps_f@.len() <= i,
                self.caps_f@ == start + Seq::new(
                    (self.caps_f@.len() - start.len()) as nat,
                    |k: int| 0u64,
                ),
                self@ == (HostTablesV { caps_f: self.caps_f@, ..old(self)@ }),
            decreases i - self.caps_f@.len(),
        {
            self.caps_f.push(0);
            assert(self.caps_f@ =~= start + Seq::new(
                (self.caps_f@.len() - start.len()) as nat,
                |k: int| 0u64,
            ));
        }
        let ghost filled = self.caps_f@;
        self.caps_f.push(bits);
        assert(self.caps_f@ =~= filled + seq![bits]);
    }

    /// Forgets all captured values.
    pub fn clear_captures(&mut self)
        ensures
            final(self)@ == (HostTablesV { caps_i: seq![], caps_f: seq![], ..old(self)@ }),
    {
        self.caps_i = Vec::new();
        self.caps_f = Vec::new();
        assert(self.caps_i@ =~= seq![]);
        assert(self.caps_f@ =~= seq![]);
    }

    /// Hands out all captured values.
    pub fn take_captures(&mut self) -> (r: (Vec<i64>, Vec<u64>))
        ensures
            r.0@ == old(self)@.caps_i,
            r.1@ == old(self)@.caps_f,
            final(self)@ == (HostTablesV { caps_i: seq![], caps_f: seq![], ..old(self)@ }),
    {
        let mut ints: Vec<i64> = Vec::new();
        let mut floats: Vec<u64> = Vec::new();
        assert(ints@ =~= seq![]);
        assert(floats@ =~= seq![]);
        std::mem::swap(&mut ints, &mut self.caps_i);
        std::mem::swap(&mut floats, &mut self.caps_f);
        (ints, floats)
    }
}

/// The number whose little-endian bytes are the given ones.
pub open spec fn le_value(bytes: Seq<u8>) -> nat
    decreases bytes.len(),
{
    if bytes.len() == 0 {
        0
    } else {
        bytes[0] as nat + 256 * le_value(bytes.skip(1))
    }
}

/// Reads `width` little-endian bytes at an offset.
pub fn ctx_read(bytes: &Vec<u8>, offset: usize, width: usize) -> (r: u64)
    requires
        width <= 8,
        offset + width <= bytes@.len(),
    ensures
        r == le_value(bytes@.subrange(offset as int, offset + width)),
    decreases width,
{
    if width == 0 {
        return 0;
    }
    let total: usize = bytes.len();
    assert(offset < total);
    let rest: u64 = ctx_read(bytes, offset + 1, width - 1);
    proof {
        let here = bytes@.subrange(offset as int, offset + width);
        assert(here.skip(1) =~= bytes@.subrange(offset + 1, offset + width));
        lemma_le_bound(here.skip(1));
        lemma_le_bound(here);
        assert(pow256((width - 1) as nat) * 256 == pow256(width as nat));
        assert(pow256(width as nat) <= 0x1_0000_0000_0000_0000) by {
            reveal_with_fuel(pow256, 9);
        }
    }
    bytes[offset] as u64 + 256 * rest
}

/// `256` to the `n`.
pub open spec fn pow256(n: nat) -> nat
    decreases n,
{
    if n == 0 {
        1
    } else {
        pow256((n - 1) as nat) * 256
    }
}

/// Bytes make a number below the power of their count.
proof fn lemma_le_bound(bytes: Seq<u8>)
    ensures
        le_value(bytes) < pow256(bytes.len()),
    decreases bytes.len(),
{
    if bytes.len() > 0 {
        lemma_le_bound(bytes.skip(1));
    }
}

} // verus!
