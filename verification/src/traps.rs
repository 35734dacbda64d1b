//! Runtime errors of compiled code: their codes, their messages, and the recorder
//! that keeps the last one for a caller that must survive it.
use vstd::prelude::*;

use crate::text::{integer_text, push_integer, push_text};

verus! {

/// Integer `/` or `%` with divisor 0.
pub const DIV_BY_ZERO: i64 = 0;

/// The least integer divided by -1.
pub const DIV_OVERFLOW: i64 = 1;

/// Array index outside the array; carries the index and the length.
pub const BOUNDS: i64 = 2;

/// An array of negative length; carries the length.
pub const NEG_ZEROS: i64 = 3;

/// Why compiled code stopped.
#[derive(Clone, Copy, Debug, PartialEq, Eq, Structural)]
pub enum PanicCode {
    /// Integer `/` or `%` with divisor 0.
    DivByZero,
    /// The least integer divided by -1, at either width.
    IdivOverflow,
    /// Array index outside the array.
    Bounds,
    /// An array of negative length.
    NegativeZeros,
}

impl PanicCode {
    /// The number that compiled code hands to the host.
    pub open spec fn number(self) -> i64 {
        match self {
            PanicCode::DivByZero => DIV_BY_ZERO,
            PanicCode::IdivOverflow => DIV_OVERFLOW,
            PanicCode::Bounds => BOUNDS,
            PanicCode::NegativeZeros => NEG_ZEROS,
        }
    }

    /// The text of the error without its details.
    pub open spec fn text(self) -> Seq<char> {
        match self {
            PanicCode::DivByZero => "integer division by zero"@,
            PanicCode::IdivOverflow => "integer division overflow (i64::MIN / -1)"@,
            PanicCode::Bounds => "index out of bounds for array"@,
            PanicCode::NegativeZeros => "array length must be non-negative"@,
        }
    }

    /// The text of the error without its details.
    pub fn message(self) -> (r: &'static str)
        ensures
            r@ == self.text(),
    {
        match self {
            PanicCode::DivByZero => "integer division by zero",
            PanicCode::IdivOverflow => "integer division overflow (i64::MIN / -1)",
            PanicCode::Bounds => "index out of bounds for array",
            PanicCode::NegativeZeros => "array length must be non-negative",
        }
    }

    /// The number that compiled code hands to the host.
    pub fn code(self) -> (r: i64)
        ensures
            r == self.number(),
    {
        match self {
            PanicCode::DivByZero => DIV_BY_ZERO,
            PanicCode::IdivOverflow => DIV_OVERFLOW,
            PanicCode::Bounds => BOUNDS,
            PanicCode::NegativeZeros => NEG_ZEROS,
        }
    }
}

/// The message of a runtime error with its details.
pub open spec fn trap_text(code: i64, a: i64, b: i64) -> Seq<char> {
    if code == DIV_BY_ZERO {
        "integer division by zero"@
    } else if code == DIV_OVERFLOW {
        "integer division overflow (i64::MIN / -1)"@
    } else if code == BOUNDS {
        "index "@ + integer_text(a as int) + " out of bounds for array of length "@ + integer_text(
            b as int,
        )
    } else if code == NEG_ZEROS {
        "zeros("@ + integer_text(a as int) + "): array length must be non-negative"@
    } else {
        "unknown helix panic code "@ + integer_text(code as int)
    }
}

/// The message of a runtime error with its details.
pub fn panic_message(code: i64, a: i64, b: i64) -> (r: String)
    ensures
        r@ == trap_text(code, a, b),
{
    if code == DIV_BY_ZERO {
        "integer division by zero".to_owned()
    } else if code == DIV_OVERFLOW {
        "integer division overflow (i64::MIN / -1)".to_owned()
    } else if code == BOUNDS {
        let mut s = "index ".to_owned();
        push_integer(&mut s, a as i128);
        push_text(&mut s, " out of bounds for array of length ");
        push_integer(&mut s, b as i128);
        s
    } else if code == NEG_ZEROS {
        let mut s = "zeros(".to_owned();
        push_integer(&mut s, a as i128);
        push_text(&mut s, "): array length must be non-negative");
        s
    } else {
        let mut s = "unknown helix panic code ".to_owned();
        push_integer(&mut s, code as i128);
        s
    }
}

/// What the host does after a runtime error.
#[derive(Debug)]
pub enum TrapAction {
    /// Return to compiled code, which leaves the function with a zero.
    Resume,
    /// Print the text and exit with status 1.
    Exit(String),
}

/// The last runtime error. An armed recorder keeps its details and lets compiled code
/// return; otherwise the program ends.
#[derive(Debug)]
pub struct TrapRecorder {
    pub armed: bool,
    pub last: Option<(i64, i64, i64)>,
    pub message: Option<String>,
}

/// The text of an optional message.
pub open spec fn text_of(m: Option<String>) -> Option<Seq<char>> {
    match m {
        Some(s) => Some(s@),
        None => None,
    }
}

impl TrapRecorder {
    /// A recorder that is not armed and holds nothing.
    pub fn new() -> (r: Self)
        ensures
            !r.armed,
            r.last is None,
            r.message is None,
    {
        TrapRecorder { armed: false, last: None, message: None }
    }

    /// Arms the recorder and forgets what it held.
    pub fn arm_trap_recorder(&mut self)
        ensures
            final(self).armed,
            final(self).last is None,
            final(self).message == old(self).message,
    {
        self.armed = true;
        self.last = None;
    }

    /// Disarms the recorder and forgets what it held.
    pub fn disarm_trap_recorder(&mut self)
        ensures
            !final(self).armed,
            final(self).last is None,
            final(self).message == old(self).message,
    {
        self.armed = false;
        self.last = None;
    }

    /// The details of the last error since the recorder was armed; forgets them.
    pub fn take_last_trap(&mut self) -> (r: Option<(i64, i64, i64)>)
        ensures
            r == old(self).last,
            final(self).last is None,
            final(self).armed == old(self).armed,
            final(self).message == old(self).message,
    {
        let r = self.last;
        self.last = None;
        r
    }

    /// The message of the last error; forgets it.
    pub fn take_last_panic(&mut self) -> (r: Option<String>)
        ensures
            r == old(self).message,
            final(self).message is None,
            final(self).armed == old(self).armed,
            final(self).last == old(self).last,
    {
        self.message.take()
    }

    /// Records a runtime error and says how the host goes on.
    pub fn helix_panic(&mut self, code: i64, a: i64, b: i64) -> (r: TrapAction)
        ensures
            final(self).armed == old(self).armed,
            text_of(final(self).message) == Some(trap_text(code, a, b)),
            final(self).last == (if old(self).armed {
                Some((code, a, b))
            } else {
                old(self).last
            }),
            old(self).armed ==> r is Resume,
            !old(self).armed ==> (r matches TrapAction::Exit(s) && s@ == "runtime error: "@
                + trap_text(code, a, b)),
    {
        let msg = panic_message(code, a, b);
        if self.armed {
            self.last = Some((code, a, b));
            self.message = Some(msg);
            return TrapAction::Resume;
        }
        let mut line = "runtime error: ".to_owned();
        push_text(&mut line, msg.as_str());
        self.message = Some(msg);
        TrapAction::Exit(line)
    }

    /// Forgets messages and details between two runs; an armed recorder stays armed.
    pub fn reset(&mut self)
        ensures
            final(self).armed == old(self).armed,
            final(self).last is None,
            final(self).message is None,
    {
        self.last = None;
        self.message = None;
    }
}

/// How many bytes an array of `n` elements takes: at least one, so that its address is
/// its own.
pub open spec fn zeros_bytes(n: i64, elem_size: i64) -> int {
    let bytes = if i64::MIN <= n * elem_size <= i64::MAX {
        n * elem_size
    } else {
        i64::MAX as int
    };
    if bytes < 0 {
        usize::MAX - 1
    } else if bytes > usize::MAX {
        usize::MAX - 1
    } else if bytes == 0 {
        1
    } else {
        bytes
    }
}

/// How many bytes an array of `n` elements takes.
pub fn bytes_for_zeros(n: i64, elem_size: i64) -> (r: usize)
    ensures
        r == zeros_bytes(n, elem_size),
{
    let bytes: i64 = match n.checked_mul(elem_size) {
        Some(b) => b,
        None => i64::MAX,
    };
    if bytes < 0 || bytes as u64 > usize::MAX as u64 {
        usize::MAX - 1
    } else if bytes == 0 {
        1
    } else {
        bytes as usize
    }
}

/// The number tells the errors apart.
pub proof fn law_codes_are_distinct(a: PanicCode, b: PanicCode)
    ensures
        a.number() == b.number() <==> a == b,
{
}

} // verus!
