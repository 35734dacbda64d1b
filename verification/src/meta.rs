//! Where and when a campaign ran.
//!
//! Dates are those of the Gregorian calendar, counted in days from the first of January
//! 1970.
use vstd::prelude::*;

use crate::lines::{segments, split_lines};
use crate::numbers::{is_word, lower, parse_u64, trim, trimmed, u64_value};
use crate::text::{natural_text, push_natural, push_text};

verus! {

/// A leap year.
pub open spec fn leap(y: int) -> bool {
    y % 4 == 0 && (y % 100 != 0 || y % 400 == 0)
}

/// How many days a month has.
pub open spec fn month_days(y: int, m: int) -> int {
    if m == 2 {
        if leap(y) {
            29
        } else {
            28
        }
    } else if m == 4 || m == 6 || m == 9 || m == 11 {
        30
    } else {
        31
    }
}

/// A day of the calendar.
pub open spec fn valid_date(y: int, m: int, d: int) -> bool {
    1 <= m <= 12 && 1 <= d <= month_days(y, m)
}

/// How many days pass from the start of the year 0 to the start of a year.
pub open spec fn days_to_year(y: int) -> int {
    365 * y + (y - 1) / 4 - (y - 1) / 100 + (y - 1) / 400 + 1
}

/// How many days of a year pass before a month.
pub open spec fn days_to_month(y: int, m: int) -> int
    decreases m,
{
    if m <= 1 {
        0
    } else {
        days_to_month(y, m - 1) + month_days(y, m - 1)
    }
}

/// The number of a day; the first of January 1970 has number 0.
pub open spec fn day_number(y: int, m: int, d: int) -> int {
    days_to_year(y) - days_to_year(1970) + days_to_month(y, m) + d - 1
}

/// A year takes as many days as its months.
pub proof fn law_years_take_their_days(y: int)
    ensures
        days_to_year(y + 1) - days_to_year(y) == days_to_month(y, 12) + month_days(y, 12),
        days_to_year(y + 1) - days_to_year(y) == if leap(y) {
            366int
        } else {
            365
        },
{
    reveal_with_fuel(days_to_month, 13);
    lemma_one_year(y, 4);
    lemma_one_year(y, 100);
    lemma_one_year(y, 400);
    if y % 400 == 0 {
        assert(y % 100 == 0 && y % 4 == 0);
    }
    if y % 100 == 0 {
        assert(y % 4 == 0);
    }
}

/// A quotient grows where the number is divided without rest.
proof fn lemma_one_year(y: int, k: int)
    requires
        k > 1,
    ensures
        y / k - (y - 1) / k == if y % k == 0 {
            1int
        } else {
            0
        },
{
    assert(y / k - (y - 1) / k == if y % k == 0 {
        1int
    } else {
        0
    }) by (nonlinear_arith)
        requires
            k > 1,
    ;
}

/// How many days pass from the first of March of the year 0 to the first of March.
spec fn march(y: int) -> int {
    365 * y + y / 4 - y / 100 + y / 400
}

/// The first of March within its year.
proof fn lemma_march(y: int)
    ensures
        days_to_year(y) + days_to_month(y, 3) == march(y) + 60,
{
    reveal_with_fuel(days_to_month, 4);
    lemma_one_year(y, 4);
    lemma_one_year(y, 100);
    lemma_one_year(y, 400);
    if y % 400 == 0 {
        assert(y % 100 == 0 && y % 4 == 0);
    }
    if y % 100 == 0 {
        assert(y % 4 == 0);
    }
}

/// The year within its four centuries that a day falls in, counted from March.
proof fn lemma_year_of_era(doe: int)
    requires
        0 <= doe < 146097,
    ensures
        ({
            let yoe = (doe - doe / 1460 + doe / 36524 - doe / 146096) / 365;
            let doy = doe - (365 * yoe + yoe / 4 - yoe / 100);
            &&& 0 <= yoe < 400
            &&& 0 <= doy <= 365
            &&& doy == 365 ==> (yoe + 1) % 4 == 0 && ((yoe + 1) % 100 != 0 || yoe + 1 == 400)
        }),
{
    let a = doe / 1460;
    let b = doe / 36524;
    let c = doe / 146096;
    let t = doe - a + b - c;
    let yoe = t / 365;
    if b == 0 {
    } else if b == 1 {
    } else if b == 2 {
    } else if b == 3 {
    } else {
        assert(b == 4);
        assert(doe == 146096);
    }
}

/// Months counted from March.
proof fn lemma_month(y: int, mp: int)
    requires
        0 <= mp <= 11,
    ensures
        mp < 10 ==> days_to_month(y, mp + 3) == days_to_month(y, 3) + (153 * mp + 2) / 5,
        mp >= 10 ==> days_to_year(y + 1) + days_to_month(y + 1, mp - 9) == days_to_year(y)
            + days_to_month(y, 3) + (153 * mp + 2) / 5,
        mp < 10 ==> month_days(y, mp + 3) == (153 * (mp + 1) + 2) / 5 - (153 * mp + 2) / 5,
        mp == 10 ==> month_days(y + 1, 1) == (153 * 11 + 2) / 5 - (153 * 10 + 2) / 5,
{
    law_years_take_their_days(y);
    reveal_with_fuel(days_to_month, 13);
}

/// Quotients of a year, from its place within four centuries.
proof fn lemma_quotients(yoe: int, era: int)
    requires
        0 <= yoe < 400,
    ensures
        (yoe + era * 400) / 4 == yoe / 4 + era * 100,
        (yoe + era * 400) / 100 == yoe / 100 + era * 4,
        (yoe + era * 400) / 400 == era,
        leap(yoe + era * 400 + 1) == ((yoe + 1) % 4 == 0 && ((yoe + 1) % 100 != 0 || yoe + 1
            == 400)),
{
}

/// The date of a day that is given by its year, counted from March, and its place in it.
proof fn lemma_date(y: int, doy: int)
    requires
        0 <= doy <= 365,
        doy == 365 ==> leap(y + 1),
    ensures
        ({
            let mp = (5 * doy + 2) / 153;
            let d = doy - (153 * mp + 2) / 5 + 1;
            let m = if mp < 10 {
                mp + 3
            } else {
                mp - 9
            };
            let year = if m <= 2 {
                y + 1
            } else {
                y
            };
            &&& 0 <= mp <= 11
            &&& valid_date(year, m, d)
            &&& day_number(year, m, d) == march(y) + doy - 719468
        }),
{
    let mp = (5 * doy + 2) / 153;
    lemma_march(y);
    lemma_month(y, mp);
    assert(days_to_year(1970) == 719528);
}

/// The date of a day, and its parts on the way.
proof fn lemma_civil(z: int, era: int)
    requires
        era == (z + 719468) / 146097,
    ensures
        ({
            let doe = z + 719468 - era * 146097;
            let yoe = (doe - doe / 1460 + doe / 36524 - doe / 146096) / 365;
            let y = yoe + era * 400;
            let doy = doe - (365 * yoe + yoe / 4 - yoe / 100);
            let mp = (5 * doy + 2) / 153;
            let d = doy - (153 * mp + 2) / 5 + 1;
            let m = if mp < 10 {
                mp + 3
            } else {
                mp - 9
            };
            let year = if m <= 2 {
                y + 1
            } else {
                y
            };
            &&& 0 <= doe < 146097
            &&& 0 <= yoe < 400
            &&& 0 <= doy <= 365
            &&& 0 <= mp <= 11
            &&& valid_date(year, m, d)
            &&& day_number(year, m, d) == z
        }),
{
    let doe = z + 719468 - era * 146097;
    assert(0 <= doe < 146097) by (nonlinear_arith)
        requires
            era == (z + 719468) / 146097,
            doe == z + 719468 - era * 146097,
    ;
    lemma_year_of_era(doe);
    let yoe = (doe - doe / 1460 + doe / 36524 - doe / 146096) / 365;
    let y = yoe + era * 400;
    let doy = doe - (365 * yoe + yoe / 4 - yoe / 100);
    lemma_quotients(yoe, era);
    lemma_date(y, doy);
    assert(march(y) == 365 * yoe + yoe / 4 - yoe / 100 + era * 146097);
}

/// The date of a day.
pub fn civil_from_days(z: i64) -> (r: (i64, u32, u32))
    requires
        z <= i64::MAX - 719468,
    ensures
        valid_date(r.0 as int, r.1 as int, r.2 as int),
        day_number(r.0 as int, r.1 as int, r.2 as int) == z,
{
    let s: i64 = z + 719468;
    let era: i64 = if s >= 0 {
        s / 146097
    } else {
        -((146096 - s) / 146097)
    };
    proof {
        if s < 0 {
            lemma_floor(s as int);
        }
        lemma_civil(z as int, era as int);
        assert(s - era * 146097 >= 0);
    }
    let part: i64 = era * 146097;
    let doe: i64 = s - part;
    let yoe: i64 = (doe - doe / 1460 + doe / 36524 - doe / 146096) / 365;
    let y: i64 = yoe + era * 400;
    let doy: i64 = doe - (365 * yoe + yoe / 4 - yoe / 100);
    let mp: i64 = (5 * doy + 2) / 153;
    let d: u32 = (doy - (153 * mp + 2) / 5 + 1) as u32;
    let m: u32 = if mp < 10 {
        (mp + 3) as u32
    } else {
        (mp - 9) as u32
    };
    if m <= 2 {
        (y + 1, m, d)
    } else {
        (y, m, d)
    }
}

/// Rounding down a negative quotient.
proof fn lemma_floor(s: int)
    requires
        s < 0,
    ensures
        -((146096 - s) / 146097) == s / 146097,
{
}

/// No two dates have the same number.
pub proof fn law_dates_are_told_apart(y1: int, m1: int, d1: int, y2: int, m2: int, d2: int)
    requires
        valid_date(y1, m1, d1),
        valid_date(y2, m2, d2),
        day_number(y1, m1, d1) == day_number(y2, m2, d2),
    ensures
        y1 == y2,
        m1 == m2,
        d1 == d2,
{
    lemma_within_year(y1, m1, d1);
    lemma_within_year(y2, m2, d2);
    if y1 < y2 {
        lemma_years_grow(y1 + 1, y2);
    } else if y2 < y1 {
        lemma_years_grow(y2 + 1, y1);
    } else if m1 < m2 {
        lemma_months_grow(y1, m1 + 1, m2);
    } else if m2 < m1 {
        lemma_months_grow(y1, m2 + 1, m1);
    }
}

/// A date falls into its year.
proof fn lemma_within_year(y: int, m: int, d: int)
    requires
        valid_date(y, m, d),
    ensures
        days_to_year(y) <= day_number(y, m, d) + days_to_year(1970) < days_to_year(y + 1),
{
    law_years_take_their_days(y);
    lemma_months_grow(y, 1, m);
    if m < 12 {
        lemma_months_grow(y, m + 1, 12);
    }
}

/// Later years start later.
proof fn lemma_years_grow(a: int, b: int)
    requires
        a <= b,
    ensures
        days_to_year(a) <= days_to_year(b),
    decreases b - a,
{
    if a < b {
        lemma_years_grow(a, b - 1);
        law_years_take_their_days(b - 1);
    }
}

/// Later months start later.
proof fn lemma_months_grow(y: int, a: int, b: int)
    requires
        1 <= a <= b,
    ensures
        0 <= days_to_month(y, a) <= days_to_month(y, b),
        a < b ==> days_to_month(y, a) + month_days(y, a) <= days_to_month(y, b),
    decreases b,
{
    if a < b {
        lemma_months_grow(y, a, b - 1);
    } else if a > 1 {
        lemma_months_grow(y, a - 1, b - 1);
    }
}

/// Zeros.
pub open spec fn zeros_text(n: nat) -> Seq<char> {
    Seq::new(n, |i: int| '0')
}

/// A number with zeros before it, so that it has at least `w` digits.
pub open spec fn padded(n: nat, w: nat) -> Seq<char> {
    let t = natural_text(n);
    if t.len() < w {
        zeros_text((w - t.len()) as nat) + t
    } else {
        t
    }
}

/// Appends a number with at least `w` digits.
fn push_padded(s: &mut String, n: u64, w: usize)
    ensures
        final(s)@ == old(s)@ + padded(n as nat, w as nat),
{
    let mut t = String::new();
    push_natural(&mut t, n as u128);
    assert(t@ =~= natural_text(n as nat));
    let len: usize = t.as_str().unicode_len();
    proof {
        reveal_strlit("0");
        assert(s@ + zeros_text(0) =~= s@);
    }
    let mut k: usize = len;
    while k < w
        invariant
            len == natural_text(n as nat).len(),
            len <= k,
            k <= w || k == len,
            s@ == old(s)@ + zeros_text((k - len) as nat),
            "0"@ == seq!['0'],
        decreases w - k,
    {
        push_text(s, "0");
        proof {
            assert(s@ =~= old(s)@ + zeros_text((k + 1 - len) as nat));
        }
        k = k + 1;
    }
    push_text(s, t.as_str());
    proof {
        assert(s@ =~= old(s)@ + padded(n as nat, w as nat));
    }
}

/// A time of day and a date are those of a second, counted from the start of 1970.
pub open spec fn is_moment(secs: u64, y: int, m: int, d: int, text: Seq<char>) -> bool {
    let rem = secs % 86400;
    &&& valid_date(y, m, d)
    &&& day_number(y, m, d) == secs / 86400
    &&& y >= 0
    &&& text == padded(y as nat, 4) + "-"@ + padded(m as nat, 2) + "-"@ + padded(d as nat, 2)
        + "T"@ + padded((rem / 3600) as nat, 2) + ":"@ + padded(((rem % 3600) / 60) as nat, 2)
        + ":"@ + padded((rem % 60) as nat, 2) + "Z"@
}

/// The date and time of a second, counted from the start of 1970.
pub fn timestamp_utc(secs: u64) -> (r: String)
    ensures
        exists|y: int, m: int, d: int| #[trigger] is_moment(secs, y, m, d, r@),
{
    let days: i64 = (secs / 86400) as i64;
    let rem: u64 = secs % 86400;
    let (y, m, d) = civil_from_days(days);
    proof {
        if y < 1970 {
            lemma_within_year(y as int, m as int, d as int);
            lemma_years_grow(y + 1, 1970);
        }
    }
    let mut s = String::new();
    push_padded(&mut s, y as u64, 4);
    push_text(&mut s, "-");
    push_padded(&mut s, m as u64, 2);
    push_text(&mut s, "-");
    push_padded(&mut s, d as u64, 2);
    push_text(&mut s, "T");
    push_padded(&mut s, rem / 3600, 2);
    push_text(&mut s, ":");
    push_padded(&mut s, (rem % 3600) / 60, 2);
    push_text(&mut s, ":");
    push_padded(&mut s, rem % 60, 2);
    push_text(&mut s, "Z");
    proof {
        let t = padded(y as nat, 4) + "-"@ + padded(m as nat, 2) + "-"@ + padded(d as nat, 2) + "T"@
            + padded((rem / 3600) as nat, 2) + ":"@ + padded(((rem % 3600) / 60) as nat, 2) + ":"@
            + padded((rem % 60) as nat, 2) + "Z"@;
        assert(s@ =~= t);
        assert(is_moment(secs, y as int, m as int, d as int, s@));
    }
    s
}

/// Where a campaign ran.
#[derive(Debug)]
pub struct SystemMeta {
    /// What the processor calls itself.
    pub cpu_brand: String,
    pub logical_cores: usize,
    pub physical_cores: Option<usize>,
    pub total_ram_bytes: u64,
    pub os: String,
    pub rustc_version: String,
    /// The revision of the sources.
    pub git_rev: Option<String>,
    pub timestamp_utc: String,
    /// The greatest number of threads, where the environment sets one.
    pub helix_nthreads_env: Option<u64>,
    /// How threads are started, where the environment says so.
    pub helix_runtime_env: Option<String>,
    /// Native code can be run.
    pub jit_available: bool,
}

impl SystemMeta {
    /// One line about the machine; `ram` is its memory in units of 2^30 bytes, with one
    /// decimal.
    pub open spec fn line(self, ram: Seq<char>) -> Seq<char> {
        let physical = match self.physical_cores {
            Some(p) => " ("@ + natural_text(p as nat) + "P)"@,
            None => seq![],
        };
        let rev = match self.git_rev {
            Some(r) => r@,
            None => "?"@,
        };
        self.cpu_brand@ + " | "@ + natural_text(self.logical_cores as nat) + "L cores"@ + physical
            + " | "@ + ram + " GiB | "@ + self.os@ + " | "@ + self.rustc_version@ + " | rev "@ + rev
    }

    /// One line about the machine.
    pub fn banner(&self, ram: &str) -> (r: String)
        ensures
            r@ == self.line(ram@),
    {
        let mut s = self.cpu_brand.as_str().to_owned();
        push_text(&mut s, " | ");
        push_natural(&mut s, self.logical_cores as u128);
        push_text(&mut s, "L cores");
        if let Some(p) = self.physical_cores {
            push_text(&mut s, " (");
            push_natural(&mut s, p as u128);
            push_text(&mut s, "P)");
        }
        push_text(&mut s, " | ");
        push_text(&mut s, ram);
        push_text(&mut s, " GiB | ");
        push_text(&mut s, self.os.as_str());
        push_text(&mut s, " | ");
        push_text(&mut s, self.rustc_version.as_str());
        push_text(&mut s, " | rev ");
        match &self.git_rev {
            Some(rev) => push_text(&mut s, rev.as_str()),
            None => push_text(&mut s, "?"),
        }
        assert(s@ =~= self.line(ram@));
        s
    }
}

/// The name of a processor: what it calls itself, without blanks around it.
pub fn brand_or_unknown(brand: Option<&str>) -> (r: String)
    ensures
        r@ == match brand {
            Some(b) => if trimmed(b@).len() > 0 {
                trimmed(b@)
            } else {
                "unknown"@
            },
            None => "unknown"@,
        },
{
    match brand {
        Some(b) => {
            let t = trim(b);
            if t.as_str().unicode_len() > 0 {
                t
            } else {
                "unknown".to_owned()
            }
        },
        None => "unknown".to_owned(),
    }
}

/// A number from the environment; one that cannot be read counts as not set.
pub fn env_u64(value: Option<&str>) -> (r: Option<u64>)
    ensures
        r == match value {
            Some(v) => u64_value(trimmed(v@)),
            None => None,
        },
{
    match value {
        Some(v) => {
            let t = trim(v);
            parse_u64(t.as_str())
        },
        None => None,
    }
}

/// A way of starting threads that there is.
pub open spec fn is_stage(v: Seq<char>) -> bool {
    let word = trimmed(v).map_values(|c: char| lower(c));
    word == "scope"@ || word == "pool"@
}

/// The way of starting threads that the environment asks for, as it was written; another
/// word counts as not set.
pub fn stage_choice(value: Option<&str>) -> (r: Option<String>)
    ensures
        match value {
            Some(v) => if is_stage(v@) {
                r is Some && r->0@ == v@
            } else {
                r is None
            },
            None => r is None,
        },
{
    match value {
        Some(v) => {
            let t = trim(v);
            if is_word(t.as_str(), "scope") || is_word(t.as_str(), "pool") {
                Some(v.to_owned())
            } else {
                None
            }
        },
        None => None,
    }
}

/// The version that a compiler prints on its first line.
pub fn version_line(output: &str) -> (r: Option<String>)
    ensures
        r is Some <==> output@.len() > 0,
        r is Some ==> r->0@ == trimmed(segments(output@)[0]),
{
    if output.unicode_len() == 0 {
        return None;
    }
    let v = split_lines(output);
    proof {
        crate::lines::lemma_segments_flat(output@, output@.len());
        assert(crate::text::texts(v@)[0] == v@[0]@);
    }
    Some(trim(v[0].as_str()))
}

/// The revision that a version control system prints.
pub fn revision(output: &str) -> (r: Option<String>)
    ensures
        r is Some <==> trimmed(output@).len() > 0,
        r is Some ==> r->0@ == trimmed(output@),
{
    let t = trim(output);
    if t.as_str().unicode_len() > 0 {
        Some(t)
    } else {
        None
    }
}

} // verus!
