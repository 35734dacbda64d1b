//! Text helpers: comparison and decimal rendering.
use vstd::prelude::*;
use vstd::string::*;

verus! {

/// Whether the text is `t`.
pub fn is_text(s: &String, t: &str) -> (r: bool)
    ensures
        r == (s@ == t@),
{
    *s == t.to_owned()
}

/// The character of a decimal digit.
pub open spec fn digit(d: int) -> char {
    if d == 0 {
        '0'
    } else if d == 1 {
        '1'
    } else if d == 2 {
        '2'
    } else if d == 3 {
        '3'
    } else if d == 4 {
        '4'
    } else if d == 5 {
        '5'
    } else if d == 6 {
        '6'
    } else if d == 7 {
        '7'
    } else if d == 8 {
        '8'
    } else {
        '9'
    }
}

/// The decimal spelling of a natural number, without leading zeros.
pub open spec fn natural_text(n: nat) -> Seq<char>
    decreases n,
{
    if n < 10 {
        seq![digit(n as int)]
    } else {
        natural_text(n / 10).push(digit((n % 10) as int))
    }
}

/// The decimal spelling of an integer, with a sign where it is negative.
pub open spec fn integer_text(n: int) -> Seq<char> {
    if n < 0 {
        seq!['-'] + natural_text((-n) as nat)
    } else {
        natural_text(n as nat)
    }
}

/// The text of one digit.
fn digit_text(d: u128) -> (r: &'static str)
    requires
        d < 10,
    ensures
        r@ == seq![digit(d as int)],
{
    proof {
        reveal_strlit("0");
        reveal_strlit("1");
        reveal_strlit("2");
        reveal_strlit("3");
        reveal_strlit("4");
        reveal_strlit("5");
        reveal_strlit("6");
        reveal_strlit("7");
        reveal_strlit("8");
        reveal_strlit("9");
    }
    let r = if d == 0 {
        "0"
    } else if d == 1 {
        "1"
    } else if d == 2 {
        "2"
    } else if d == 3 {
        "3"
    } else if d == 4 {
        "4"
    } else if d == 5 {
        "5"
    } else if d == 6 {
        "6"
    } else if d == 7 {
        "7"
    } else if d == 8 {
        "8"
    } else {
        "9"
    };
    assert(r@ =~= seq![digit(d as int)]);
    r
}

/// Appends the decimal spelling of `n`.
pub fn push_natural(s: &mut String, n: u128)
    ensures
        final(s)@ == old(s)@ + natural_text(n as nat),
    decreases n,
{
    if n >= 10 {
        push_natural(s, n / 10);
    }
    let ghost before = s@;
    s.append(digit_text(n % 10));
    proof {
        let all = natural_text(n as nat);
        if n >= 10 {
            assert(before == old(s)@ + natural_text(n as nat / 10));
            assert(all == natural_text(n as nat / 10).push(digit((n as nat % 10) as int)));
            assert(s@ =~= old(s)@ + all);
        } else {
            assert(s@ =~= old(s)@ + all);
        }
    }
}

/// Appends the decimal spelling of `n`.
pub fn push_integer(s: &mut String, n: i128)
    ensures
        final(s)@ == old(s)@ + integer_text(n as int),
{
    if n < 0 {
        proof {
            reveal_strlit("-");
        }
        s.append("-");
        assert(s@ =~= old(s)@ + seq!['-']);
        let magnitude: u128 = (-(n + 1)) as u128 + 1;
        push_natural(s, magnitude);
        assert(s@ =~= old(s)@ + integer_text(n as int));
    } else {
        push_natural(s, n as u128);
    }
}

/// Appends a text.
pub fn push_text(s: &mut String, t: &str)
    ensures
        final(s)@ == old(s)@ + t@,
{
    s.append(t);
}

/// The texts of a list.
pub open spec fn texts(v: Seq<String>) -> Seq<Seq<char>> {
    v.map_values(|s: String| s@)
}

/// The texts one after another, with `sep` between each two.
pub open spec fn joined(v: Seq<Seq<char>>, sep: Seq<char>) -> Seq<char>
    decreases v.len(),
{
    if v.len() == 0 {
        seq![]
    } else if v.len() == 1 {
        v[0]
    } else {
        joined(v.drop_last(), sep) + sep + v.last()
    }
}

/// Joins the texts with `sep` between each two.
pub fn join(v: &Vec<String>, sep: &str) -> (r: String)
    ensures
        r@ == joined(texts(v@), sep@),
{
    let mut out = String::new();
    let mut k: usize = 0;
    let ghost all = texts(v@);
    while k < v.len()
        invariant
            all == texts(v@),
            k <= v@.len(),
            out@ == joined(all.take(k as int), sep@),
        decreases v@.len() - k,
    {
        let ghost now = all.take(k + 1);
        proof {
            assert(now.drop_last() =~= all.take(k as int));
            assert(now.last() == v@[k as int]@);
        }
        if k > 0 {
            push_text(&mut out, sep);
        }
        push_text(&mut out, v[k].as_str());
        proof {
            if k == 0 {
                assert(out@ =~= now[0]);
            }
        }
        k = k + 1;
    }
    assert(all.take(k as int) =~= all);
    out
}

/// Adding one text to a list adds it to the list of texts.
pub proof fn lemma_texts_push(v: Seq<String>, s: String)
    ensures
        texts(v.push(s)) =~= texts(v).push(s@),
{
}

/// Digits are told apart by their characters.
proof fn lemma_digit_injective(a: int, b: int)
    requires
        0 <= a < 10,
        0 <= b < 10,
        digit(a) == digit(b),
    ensures
        a == b,
{
}

/// Different numbers have different spellings.
pub proof fn lemma_natural_text_injective(a: nat, b: nat)
    requires
        natural_text(a) == natural_text(b),
    ensures
        a == b,
    decreases a,
{
    lemma_natural_text_nonempty(a / 10);
    lemma_natural_text_nonempty(b / 10);
    let s = natural_text(a);
    let t = natural_text(b);
    assert(s.last() == digit((a % 10) as int));
    assert(t.last() == digit((b % 10) as int));
    lemma_digit_injective((a % 10) as int, (b % 10) as int);
    if a >= 10 && b >= 10 {
        assert(s.drop_last() =~= natural_text(a / 10));
        assert(t.drop_last() =~= natural_text(b / 10));
        lemma_natural_text_injective(a / 10, b / 10);
    }
}

/// A number is written in digits.
pub proof fn lemma_natural_text_digits(n: nat, i: int)
    requires
        0 <= i < natural_text(n).len(),
    ensures
        '0' <= natural_text(n)[i] <= '9',
    decreases n,
{
    if n >= 10 && i < natural_text(n).len() - 1 {
        lemma_natural_text_digits(n / 10, i);
    }
}

/// Every number has at least one digit.
pub proof fn lemma_natural_text_nonempty(n: nat)
    ensures
        natural_text(n).len() > 0,
    decreases n,
{
    if n >= 10 {
        lemma_natural_text_nonempty(n / 10);
    }
}

} // verus!
