//! Numbers and words out of text that comes from outside.
use vstd::prelude::*;

use crate::lines::{blank, chars_of, is_blank, leading};
use crate::text::{digit, natural_text};

verus! {

/// The number that digits write, most significant first; nothing where a character is
/// no digit.
pub open spec fn digits_value(s: Seq<char>) -> Option<nat>
    decreases s.len(),
{
    if s.len() == 0 {
        Some(0)
    } else {
        match digits_value(s.drop_last()) {
            Some(v) => if '0' <= s.last() <= '9' {
                Some((10 * v + (s.last() as nat - '0' as nat)) as nat)
            } else {
                None
            },
            None => None,
        }
    }
}

/// The number that a text writes: digits, at least one, after at most one plus sign.
pub open spec fn natural_value(s: Seq<char>) -> Option<nat> {
    let d = if s.len() > 0 && s[0] == '+' {
        s.skip(1)
    } else {
        s
    };
    if d.len() == 0 {
        None
    } else {
        digits_value(d)
    }
}

/// The number that a text writes, if it fits.
pub open spec fn u64_value(s: Seq<char>) -> Option<u64> {
    match natural_value(s) {
        Some(v) => if v <= u64::MAX {
            Some(v as u64)
        } else {
            None
        },
        None => None,
    }
}

/// A number with more digits is no smaller; without a number there is none with more.
proof fn lemma_digits_grow(s: Seq<char>, k: int)
    requires
        0 <= k <= s.len(),
    ensures
        digits_value(s.take(k)) is None ==> digits_value(s) is None,
        digits_value(s) is Some ==> digits_value(s.take(k)) is Some && digits_value(s)->0
            >= digits_value(s.take(k))->0,
    decreases s.len(),
{
    if k == s.len() {
        assert(s.take(k) =~= s);
    } else {
        lemma_digits_grow(s.drop_last(), k);
        assert(s.drop_last().take(k) =~= s.take(k));
    }
}

/// Reads a number.
pub fn parse_u64(text: &str) -> (r: Option<u64>)
    ensures
        r == u64_value(text@),
{
    let c = chars_of(text);
    let first: usize = if c.len() > 0 && c[0] == '+' {
        1
    } else {
        0
    };
    let ghost d = c@.skip(first as int);
    assert(c@.skip(0) =~= c@);
    if c.len() == first {
        return None;
    }
    let mut v: u64 = 0;
    let mut k: usize = first;
    assert(d.take(0) =~= seq![]);
    while k < c.len()
        invariant
            first <= k <= c@.len(),
            d == c@.skip(first as int),
            d.len() > 0,
            c@ == text@,
            natural_value(text@) == digits_value(d),
            digits_value(d.take(k - first)) == Some(v as nat),
        decreases c@.len() - k,
    {
        let ch: char = c[k];
        let ghost now = d.take(k - first + 1);
        proof {
            assert(now.drop_last() =~= d.take(k - first));
            assert(now.last() == ch);
            lemma_digits_grow(d, k - first + 1);
        }
        if ch < '0' || ch > '9' {
            return None;
        }
        let digit: u64 = (ch as u32 - '0' as u32) as u64;
        if v > (u64::MAX - digit) / 10 {
            return None;
        }
        v = 10 * v + digit;
        k = k + 1;
    }
    assert(d.take(k - first) =~= d);
    Some(v)
}

/// How a number is written is how it is read.
pub proof fn law_numbers_are_read_as_written(n: nat)
    ensures
        natural_value(natural_text(n)) == Some(n),
{
    lemma_digits(n);
    crate::text::lemma_natural_text_nonempty(n);
    let t = natural_text(n);
    if t[0] == '+' {
        lemma_digits_grow(t, 1);
        assert(t.take(1).drop_last() =~= seq![]);
        assert(t.take(1).last() == '+');
    }
}

/// The digits of a number have its value.
proof fn lemma_digits(n: nat)
    ensures
        digits_value(natural_text(n)) == Some(n),
    decreases n,
{
    let t = natural_text(n);
    if n < 10 {
        reveal_with_fuel(digits_value, 2);
        assert(t.drop_last() =~= seq![]);
        assert(t.last() == digit(n as int));
    } else {
        lemma_digits(n / 10);
        assert(t.drop_last() =~= natural_text(n / 10));
        assert(t.last() == digit((n % 10) as int));
    }
}

/// How many blanks a text ends with.
pub open spec fn trailing(s: Seq<char>) -> nat
    decreases s.len(),
{
    if s.len() > 0 && blank(s.last()) {
        1 + trailing(s.drop_last())
    } else {
        0
    }
}

/// A text without the blanks around it.
pub open spec fn trimmed(s: Seq<char>) -> Seq<char> {
    let rest = s.skip(leading(s) as int);
    rest.take(rest.len() - trailing(rest))
}

/// A text without the blanks around it.
pub fn trim(text: &str) -> (r: String)
    ensures
        r@ == trimmed(text@),
{
    let c = chars_of(text);
    let mut a: usize = 0;
    assert(c@.skip(0) =~= c@);
    while a < c.len() && is_blank(c[a])
        invariant
            a <= c@.len(),
            leading(c@) == a + leading(c@.skip(a as int)),
        decreases c@.len() - a,
    {
        proof {
            assert(c@.skip(a as int).skip(1) =~= c@.skip(a + 1));
        }
        a = a + 1;
    }
    let ghost rest = c@.skip(a as int);
    let mut b: usize = c.len();
    assert(rest.take(rest.len() as int) =~= rest);
    while b > a && is_blank(c[b - 1])
        invariant
            a <= b <= c@.len(),
            rest == c@.skip(a as int),
            trailing(rest) == (rest.len() - (b - a)) + trailing(rest.take(b - a)),
        decreases b,
    {
        proof {
            let now = rest.take(b - a);
            assert(now.last() == c@[b - 1]);
            assert(now.drop_last() =~= rest.take(b - a - 1));
        }
        b = b - 1;
    }
    proof {
        if b > a {
            assert(rest.take(b - a).last() == c@[b - 1]);
        }
        assert(trailing(rest) == rest.len() - (b - a));
        assert(text@.subrange(a as int, b as int) =~= rest.take(b - a));
    }
    text.substring_char(a, b).to_owned()
}

/// A letter of the English alphabet in lower case; other characters stay.
pub open spec fn lower(c: char) -> char {
    if 'A' <= c <= 'Z' {
        ((c as u8 + 32) as u8) as char
    } else {
        c
    }
}

/// Whether a text is a word, whatever the case of its letters. The word is written in
/// small letters.
pub fn is_word(text: &str, word: &str) -> (r: bool)
    ensures
        r == (text@.map_values(|c: char| lower(c)) == word@),
{
    let a = chars_of(text);
    let b = chars_of(word);
    let ghost low = text@.map_values(|c: char| lower(c));
    if a.len() != b.len() {
        assert(low.len() != word@.len());
        return false;
    }
    let mut k: usize = 0;
    while k < a.len()
        invariant
            k <= a@.len(),
            a@ == text@,
            b@ == word@,
            a@.len() == b@.len(),
            low == text@.map_values(|c: char| lower(c)),
            forall|j: int| 0 <= j < k ==> low[j] == word@[j],
        decreases a@.len() - k,
    {
        let c: char = a[k];
        let l: char = if 'A' <= c && c <= 'Z' {
            (c as u8 + 32) as char
        } else {
            c
        };
        assert(low[k as int] == l);
        if l != b[k] {
            assert(low != word@);
            return false;
        }
        k = k + 1;
    }
    assert(low =~= word@);
    true
}

} // verus!
