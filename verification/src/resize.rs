//! Problem sizes inside the source of a program.
//!
//! A size is declared once, by `let n = 1000;` or by `const N: i64 = 512;`. Changing it
//! rewrites the first line that declares the name, and nothing else.
use vstd::prelude::*;

use crate::lines::{
    blank, chars_of, flat, is_blank, leading, newline, segments, split_lines,
};
use crate::search::first_where;
use crate::text::{integer_text, join, joined, push_integer, push_text, texts};

verus! {

/// The two ways in which a size is declared.
#[derive(Clone, Copy, Debug, PartialEq, Eq, Structural)]
pub enum Declared {
    Let,
    Const,
}

/// What a declaration of the name starts with.
pub open spec fn head(d: Declared, name: Seq<char>) -> Seq<char> {
    match d {
        Declared::Let => "let "@ + name + " = "@,
        Declared::Const => "const "@ + name + ": i64 = "@,
    }
}

/// The text starts with `p`.
pub open spec fn starts(s: Seq<char>, p: Seq<char>) -> bool {
    p.len() <= s.len() && s.take(p.len() as int) == p
}

/// A line declares a name: after its blanks it starts with `p`.
pub open spec fn declares(p: Seq<char>) -> spec_fn(Seq<char>) -> bool {
    |line: Seq<char>| starts(line.skip(leading(line) as int), p)
}

/// Spaces.
pub open spec fn spaces(n: nat) -> Seq<char> {
    Seq::new(n, |i: int| ' ')
}

/// How many bytes a text takes.
pub open spec fn bytes_of(s: Seq<char>) -> nat {
    vstd::utf8::encode_utf8(s).len()
}

/// What a line ends with that is kept.
pub open spec fn ending(line: Seq<char>) -> Seq<char> {
    if line.len() > 0 && line.last() == '\r' {
        "\r"@
    } else {
        seq![]
    }
}

/// The line with another value: as many spaces as its blanks take bytes, the
/// declaration, and the carriage return where it had one.
pub open spec fn redeclared(line: Seq<char>, p: Seq<char>, value: int) -> Seq<char> {
    spaces(bytes_of(line.take(leading(line) as int))) + p + integer_text(value) + ";"@ + ending(line)
}

/// The lines with the first one that starts with `p` rewritten.
pub open spec fn rewritten(v: Seq<Seq<char>>, p: Seq<char>, value: int) -> Seq<Seq<char>> {
    match first_where(v, declares(p)) {
        Some(i) => v.update(i, redeclared(v[i], p, value)),
        None => v,
    }
}

/// A text with one size changed.
pub open spec fn resized_once(s: Seq<char>, name: Seq<char>, value: int) -> Seq<char> {
    joined(
        rewritten(
            rewritten(segments(s), head(Declared::Let, name), value),
            head(Declared::Const, name),
            value,
        ),
        newline(),
    )
}

/// A text with the first `k` sizes changed, one after another.
pub open spec fn resized(s: Seq<char>, sizes: Seq<(&str, i64)>, k: nat) -> Seq<char>
    decreases k,
{
    if k == 0 {
        s
    } else {
        resized_once(resized(s, sizes, (k - 1) as nat), sizes[k - 1].0@, sizes[k - 1].1 as int)
    }
}

/// How many blanks the characters start with.
fn count_leading(c: &Vec<char>) -> (r: usize)
    ensures
        r == leading(c@),
        r <= c@.len(),
{
    let mut k: usize = 0;
    assert(c@.skip(0) =~= c@);
    while k < c.len() && is_blank(c[k])
        invariant
            k <= c@.len(),
            leading(c@) == k + leading(c@.skip(k as int)),
        decreases c@.len() - k,
    {
        proof {
            assert(c@.skip(k as int).skip(1) =~= c@.skip(k + 1));
        }
        k = k + 1;
    }
    k
}

/// Whether the characters go on with `p` from position `at`.
fn goes_on(c: &Vec<char>, at: usize, p: &Vec<char>) -> (r: bool)
    requires
        at <= c@.len(),
    ensures
        r == starts(c@.skip(at as int), p@),
{
    let n: usize = c.len();
    if p.len() > n - at {
        return false;
    }
    let ghost rest = c@.skip(at as int).take(p@.len() as int);
    let mut k: usize = 0;
    while k < p.len()
        invariant
            k <= p@.len(),
            n == c@.len(),
            at <= n,
            p@.len() <= n - at,
            rest == c@.skip(at as int).take(p@.len() as int),
            forall|j: int| 0 <= j < k ==> rest[j] == p@[j],
        decreases p@.len() - k,
    {
        assert(rest[k as int] == c@[at + k]);
        if c[at + k] != p[k] {
            assert(rest != p@);
            return false;
        }
        k = k + 1;
    }
    assert(rest =~= p@);
    true
}

/// Appends spaces.
fn push_spaces(s: &mut String, n: usize)
    ensures
        final(s)@ == old(s)@ + spaces(n as nat),
{
    proof {
        reveal_strlit(" ");
        assert(s@ + spaces(0) =~= s@);
    }
    let mut k: usize = 0;
    while k < n
        invariant
            k <= n,
            s@ == old(s)@ + spaces(k as nat),
            " "@ == seq![' '],
        decreases n - k,
    {
        push_text(s, " ");
        proof {
            assert(s@ =~= old(s)@ + spaces((k + 1) as nat));
        }
        k = k + 1;
    }
}

/// What a text starts with is blank.
proof fn lemma_leading(s: Seq<char>)
    ensures
        leading(s) <= s.len(),
        forall|i: int| 0 <= i < leading(s) ==> blank(#[trigger] s[i]),
        leading(s) < s.len() ==> !blank(s[leading(s) as int]),
    decreases s.len(),
{
    if s.len() > 0 && blank(s[0]) {
        let t = s.skip(1);
        lemma_leading(t);
        assert forall|i: int| 0 <= i < leading(s) implies blank(#[trigger] s[i]) by {
            if i > 0 {
                assert(s[i] == t[i - 1]);
            }
        }
        if leading(s) < s.len() {
            assert(s[leading(s) as int] == t[leading(t) as int]);
        }
    }
}

/// Rewrites the first line that starts with `p`.
fn rewrite(v: &mut Vec<String>, p: &str, value: i64)
    ensures
        texts(final(v)@) == rewritten(texts(old(v)@), p@, value as int),
{
    let want = chars_of(p);
    let ghost all = texts(v@);
    let ghost found = declares(p@);
    let mut i: usize = 0;
    while i < v.len()
        invariant
            i <= v@.len(),
            want@ == p@,
            all == texts(v@),
            all == texts(old(v)@),
            found == declares(p@),
            forall|j: int| 0 <= j < i ==> !found(#[trigger] all[j]),
        decreases v@.len() - i,
    {
        let line = chars_of(v[i].as_str());
        proof {
            assert(all[i as int] == v@[i as int]@);
            lemma_leading(line@);
        }
        let at = count_leading(&line);
        if goes_on(&line, at, &want) {
            proof {
                assert(found(all[i as int]));
                crate::search::lemma_first_where_is(all, found, i as int);
            }
            let mut out = String::new();
            let n: usize = v[i].as_str().substring_char(0, at).as_bytes().len();
            proof {
                assert(line@.subrange(0, at as int) =~= line@.take(at as int));
            }
            push_spaces(&mut out, n);
            push_text(&mut out, p);
            push_integer(&mut out, value as i128);
            push_text(&mut out, ";");
            let size: usize = line.len();
            let carriage = size > 0 && line[size - 1] == '\r';
            if carriage {
                push_text(&mut out, "\r");
            }
            proof {
                let r = redeclared(all[i as int], p@, value as int);
                assert(out@ =~= r);
            }
            v.set(i, out);
            proof {
                assert(texts(v@) =~= all.update(i as int, out@));
            }
            return;
        }
        proof {
            assert(!found(all[i as int]));
        }
        i = i + 1;
    }
    proof {
        crate::search::lemma_first_where_none(all, found);
    }
}

/// Changes the sizes that a source declares. Names that it does not declare change
/// nothing.
pub fn resize_source(src: &str, replacements: &[(&str, i64)]) -> (r: String)
    ensures
        r@ == resized(src@, replacements@, replacements@.len()),
{
    let mut out = src.to_owned();
    let mut k: usize = 0;
    while k < replacements.len()
        invariant
            k <= replacements@.len(),
            out@ == resized(src@, replacements@, k as nat),
        decreases replacements@.len() - k,
    {
        let name = replacements[k].0;
        let value = replacements[k].1;
        let mut v = split_lines(out.as_str());
        let mut p = "let ".to_owned();
        push_text(&mut p, name);
        push_text(&mut p, " = ");
        rewrite(&mut v, p.as_str(), value);
        let mut p = "const ".to_owned();
        push_text(&mut p, name);
        push_text(&mut p, ": i64 = ");
        rewrite(&mut v, p.as_str(), value);
        proof {
            reveal_strlit("\n");
            assert("\n"@ =~= newline());
        }
        out = join(&v, "\n");
        k = k + 1;
    }
    out
}

/// Names that a source does not declare change nothing.
pub proof fn law_unknown_names_change_nothing(s: Seq<char>, name: Seq<char>, value: int)
    requires
        forall|i: int, d: Declared|
            0 <= i < segments(s).len() ==> !(#[trigger] declares(head(d, name))(
                #[trigger] segments(s)[i],
            )),
    ensures
        resized_once(s, name, value) == s,
{
    let v = segments(s);
    let a = declares(head(Declared::Let, name));
    let b = declares(head(Declared::Const, name));
    assert forall|i: int| 0 <= i < v.len() implies !a(#[trigger] v[i]) by {
        assert(!declares(head(Declared::Let, name))(segments(s)[i]));
    }
    assert forall|i: int| 0 <= i < v.len() implies !b(#[trigger] v[i]) by {
        assert(!declares(head(Declared::Const, name))(segments(s)[i]));
    }
    crate::search::lemma_first_where_none(v, a);
    crate::search::lemma_first_where_none(v, b);
    crate::lines::lemma_join_segments(s, s.len());
    assert(s.take(s.len() as int) =~= s);
}

/// A rewritten line still declares the name, and rewriting it again only changes the
/// value.
proof fn lemma_redeclared(line: Seq<char>, p: Seq<char>, value: int, other: int)
    requires
        p.len() > 0,
        !blank(p[0]),
    ensures
        declares(p)(redeclared(line, p, value)),
        redeclared(redeclared(line, p, value), p, other) == redeclared(line, p, other),
{
    reveal_strlit(";");
    reveal_strlit("\r");
    let n = bytes_of(line.take(leading(line) as int));
    let out = redeclared(line, p, value);
    lemma_spaces(n, out);
    assert(leading(out) == n);
    let rest = out.skip(n as int);
    assert(rest =~= p + integer_text(value) + ";"@ + ending(line));
    assert(rest.take(p.len() as int) =~= p);
    assert(out.take(n as int) =~= spaces(n));
    vstd::utf8::is_ascii_chars_encode_utf8(spaces(n));
    if line.len() > 0 && line.last() == '\r' {
        assert(out.last() == '\r');
    } else {
        assert(out.last() == ';');
    }
}

/// Spaces before something that is not blank are the blanks that a text starts with.
pub proof fn lemma_spaces(n: nat, s: Seq<char>)
    requires
        n < s.len(),
        forall|i: int| 0 <= i < n ==> s[i] == ' ',
        !blank(s[n as int]),
    ensures
        leading(s) == n,
    decreases n,
{
    if n > 0 {
        lemma_spaces((n - 1) as nat, s.skip(1));
    }
}

/// Neither of two texts starts with the other.
pub open spec fn apart(p: Seq<char>, q: Seq<char>) -> bool {
    !starts(p, q) && !starts(q, p)
}

/// No line starts with two texts of which neither starts with the other.
proof fn lemma_declares_one(line: Seq<char>, p: Seq<char>, q: Seq<char>)
    requires
        apart(p, q),
    ensures
        !(declares(p)(line) && declares(q)(line)),
{
    let rest = line.skip(leading(line) as int);
    if starts(rest, p) && starts(rest, q) {
        if p.len() <= q.len() {
            assert(q.take(p.len() as int) =~= rest.take(p.len() as int));
        } else {
            assert(p.take(q.len() as int) =~= rest.take(q.len() as int));
        }
    }
}

/// Rewriting the line that the search finds leaves it the one that the search finds: the
/// last value stays.
proof fn lemma_rewritten_again(v: Seq<Seq<char>>, p: Seq<char>, value: int, other: int)
    requires
        p.len() > 0,
        !blank(p[0]),
    ensures
        rewritten(rewritten(v, p, value), p, other) == rewritten(v, p, other),
{
    let f = declares(p);
    crate::search::lemma_first_where(v, f);
    match first_where(v, f) {
        Some(i) => {
            let w = rewritten(v, p, value);
            lemma_redeclared(v[i], p, value, other);
            assert forall|j: int| 0 <= j < i implies !f(#[trigger] w[j]) by {
                assert(!f(v[j]));
            }
            crate::search::lemma_first_where_is(w, f, i);
            assert(w.update(i, redeclared(w[i], p, other)) =~= v.update(
                i,
                redeclared(v[i], p, other),
            ));
        },
        None => {},
    }
}

/// Rewriting one declaration leaves the other one where it is, and as it is.
proof fn lemma_rewritten_apart(v: Seq<Seq<char>>, p: Seq<char>, q: Seq<char>, value: int)
    requires
        p.len() > 0,
        !blank(p[0]),
        apart(p, q),
    ensures
        first_where(rewritten(v, p, value), declares(q)) == first_where(v, declares(q)),
        first_where(v, declares(q)) matches Some(k) ==> first_where(v, declares(p)) != Some(k)
            && rewritten(v, p, value)[k] == v[k],
{
    let f = declares(p);
    let g = declares(q);
    let w = rewritten(v, p, value);
    crate::search::lemma_first_where(v, f);
    crate::search::lemma_first_where(v, g);
    match first_where(v, f) {
        Some(i) => {
            lemma_redeclared(v[i], p, value, value);
            lemma_declares_one(v[i], p, q);
            lemma_declares_one(w[i], p, q);
            assert(!g(v[i]));
            assert(!g(w[i]));
            match first_where(v, g) {
                Some(k) => {
                    assert(w[k] == v[k]);
                    assert forall|j: int| 0 <= j < k implies !g(#[trigger] w[j]) by {
                        assert(!g(v[j]));
                    }
                    crate::search::lemma_first_where_is(w, g, k);
                },
                None => {
                    assert forall|j: int| 0 <= j < w.len() implies !g(#[trigger] w[j]) by {
                        assert(!g(v[j]));
                    }
                    crate::search::lemma_first_where_none(w, g);
                },
            }
        },
        None => {},
    }
}

/// Two declarations can be rewritten in either order.
proof fn lemma_rewritten_commute(
    v: Seq<Seq<char>>,
    p: Seq<char>,
    a: int,
    q: Seq<char>,
    b: int,
)
    requires
        p.len() > 0,
        !blank(p[0]),
        q.len() > 0,
        !blank(q[0]),
        apart(p, q),
    ensures
        rewritten(rewritten(v, p, a), q, b) == rewritten(rewritten(v, q, b), p, a),
{
    crate::search::lemma_first_where(v, declares(p));
    crate::search::lemma_first_where(v, declares(q));
    lemma_rewritten_apart(v, p, q, a);
    lemma_rewritten_apart(v, q, p, b);
    assert(rewritten(rewritten(v, p, a), q, b) =~= rewritten(rewritten(v, q, b), p, a));
}

/// What declarations start with is not blank.
proof fn lemma_heads_start(name: Seq<char>)
    ensures
        forall|d: Declared| #[trigger] head(d, name).len() > 0 && !blank(head(d, name)[0]),
{
    reveal_strlit("let ");
    reveal_strlit("const ");
}

/// A rewritten line holds no line end.
proof fn lemma_rewritten_flat(v: Seq<Seq<char>>, p: Seq<char>, value: int)
    requires
        flat(v),
    ensures
        flat(rewritten(v, p, value)),
{
    reveal_strlit(";");
    reveal_strlit("\r");
    let f = declares(p);
    crate::search::lemma_first_where(v, f);
    match first_where(v, f) {
        Some(i) => {
            let w = rewritten(v, p, value);
            let line = v[i];
            assert(!line.contains('\n'));
            let rest = line.skip(leading(line) as int);
            assert(!p.contains('\n')) by {
                if p.contains('\n') {
                    let j = choose|j: int| 0 <= j < p.len() && p[j] == '\n';
                    lemma_leading(line);
                    assert(rest.take(p.len() as int)[j] == '\n');
                    assert(line[leading(line) + j] == '\n');
                }
            }
            lemma_integer_text_flat(value);
            assert forall|k: int| 0 <= k < w.len() implies !#[trigger] w[k].contains('\n') by {
                if k == i {
                    let sp = spaces(bytes_of(line.take(leading(line) as int)));
                    let num = integer_text(value);
                    if w[k].contains('\n') {
                        let j = choose|j: int| 0 <= j < w[k].len() && w[k][j] == '\n';
                        let a = sp.len();
                        let b = a + p.len();
                        let c = b + num.len();
                        if j < a {
                            assert(w[k][j] == sp[j]);
                        } else if j < b {
                            assert(w[k][j] == p[j - a]);
                        } else if j < c {
                            assert(w[k][j] == num[j - b]);
                        }
                    }
                } else {
                    assert(w[k] == v[k]);
                }
            }
        },
        None => {},
    }
}

/// A number is written without line ends.
proof fn lemma_integer_text_flat(n: int)
    ensures
        !integer_text(n).contains('\n'),
{
    if n < 0 {
        lemma_natural_text_flat((-n) as nat);
        let t = crate::text::natural_text((-n) as nat);
        assert forall|j: int| 0 <= j < integer_text(n).len() implies integer_text(n)[j] != '\n' by {
            if j > 0 {
                assert(integer_text(n)[j] == t[j - 1]);
            }
        }
    } else {
        lemma_natural_text_flat(n as nat);
    }
}

/// A natural number is written without line ends.
proof fn lemma_natural_text_flat(n: nat)
    ensures
        !crate::text::natural_text(n).contains('\n'),
    decreases n,
{
    let t = crate::text::natural_text(n);
    if n >= 10 {
        lemma_natural_text_flat(n / 10);
        let d = crate::text::natural_text(n / 10);
        assert forall|j: int| 0 <= j < t.len() implies t[j] != '\n' by {
            if j < d.len() {
                assert(t[j] == d[j]);
            }
        }
    }
}

/// What step `m` of changing sizes looks for: each size is declared in two ways.
pub open spec fn step_head(sizes: Seq<(&str, i64)>, m: nat) -> Seq<char> {
    head(
        if m % 2 == 0 {
            Declared::Let
        } else {
            Declared::Const
        },
        sizes[(m / 2) as int].0@,
    )
}

/// The lines after the first `m` steps.
pub open spec fn stepped(v: Seq<Seq<char>>, sizes: Seq<(&str, i64)>, m: nat) -> Seq<Seq<char>>
    decreases m,
{
    if m == 0 {
        v
    } else {
        rewritten(
            stepped(v, sizes, (m - 1) as nat),
            step_head(sizes, (m - 1) as nat),
            sizes[((m - 1) / 2) as int].1 as int,
        )
    }
}

/// The declaration of no name starts that of another one.
pub open spec fn names_apart(sizes: Seq<(&str, i64)>) -> bool {
    forall|i: int, j: int, d: Declared|
        0 <= i < sizes.len() && 0 <= j < sizes.len() && sizes[i].0@ != sizes[j].0@
            ==> !#[trigger] starts(head(d, sizes[i].0@), head(d, sizes[j].0@))
}

/// Changing sizes is taking the steps, line by line.
proof fn lemma_steps(s: Seq<char>, sizes: Seq<(&str, i64)>, k: nat)
    requires
        k <= sizes.len(),
    ensures
        segments(resized(s, sizes, k)) == stepped(segments(s), sizes, 2 * k),
        flat(stepped(segments(s), sizes, 2 * k)),
        k > 0 ==> resized(s, sizes, k) == joined(stepped(segments(s), sizes, 2 * k), newline()),
    decreases k,
{
    crate::lines::lemma_segments_flat(s, s.len());
    if k > 0 {
        lemma_steps(s, sizes, (k - 1) as nat);
        let name = sizes[k - 1].0@;
        let value = sizes[k - 1].1 as int;
        let p = head(Declared::Let, name);
        let q = head(Declared::Const, name);
        let v = stepped(segments(s), sizes, (2 * (k - 1)) as nat);
        assert((2 * (k - 1)) as nat / 2 == k - 1 && (2 * (k - 1)) as nat % 2 == 0);
        assert((2 * k - 1) as nat / 2 == k - 1 && (2 * k - 1) as nat % 2 == 1);
        let w = rewritten(v, p, value);
        let x = rewritten(w, q, value);
        assert(stepped(segments(s), sizes, (2 * k - 1) as nat) == w);
        assert(stepped(segments(s), sizes, 2 * k) == x);
        lemma_rewritten_flat(v, p, value);
        lemma_rewritten_flat(w, q, value);
        crate::lines::lemma_segments_flat(
            resized(s, sizes, (k - 1) as nat),
            resized(s, sizes, (k - 1) as nat).len(),
        );
        crate::search::lemma_first_where(v, declares(p));
        crate::search::lemma_first_where(w, declares(q));
        crate::lines::lemma_segments_join(x);
    }
}

/// Two steps look for the same, or for texts of which neither starts with the other.
proof fn lemma_step_heads(sizes: Seq<(&str, i64)>, a: nat, b: nat)
    requires
        names_apart(sizes),
        a / 2 < sizes.len(),
        b / 2 < sizes.len(),
    ensures
        step_head(sizes, a) == step_head(sizes, b) || apart(
            step_head(sizes, a),
            step_head(sizes, b),
        ),
        step_head(sizes, a).len() > 0,
        !blank(step_head(sizes, a)[0]),
{
    let n = sizes[(a / 2) as int].0@;
    let m = sizes[(b / 2) as int].0@;
    lemma_heads_start(n);
    lemma_heads_start(m);
    reveal_strlit("let ");
    reveal_strlit("const ");
    let p = step_head(sizes, a);
    let q = step_head(sizes, b);
    if a % 2 == b % 2 {
        if n != m {
            let d = if a % 2 == 0 {
                Declared::Let
            } else {
                Declared::Const
            };
            assert(!starts(head(d, n), head(d, m)));
            assert(!starts(head(d, m), head(d, n)));
        }
    } else {
        assert(p[0] != q[0]);
        if starts(p, q) {
            assert(p.take(q.len() as int)[0] == q[0]);
        }
        if starts(q, p) {
            assert(q.take(p.len() as int)[0] == p[0]);
        }
    }
}

/// A step that is taken ahead of earlier ones is as if taken after them, or is undone by
/// one of them.
proof fn lemma_step_ahead(v: Seq<Seq<char>>, sizes: Seq<(&str, i64)>, m: nat, k: nat)
    requires
        names_apart(sizes),
        m < 2 * sizes.len(),
        k <= m,
    ensures
        ({
            let first = rewritten(v, step_head(sizes, m), sizes[(m / 2) as int].1 as int);
            let after = stepped(v, sizes, k);
            ||| stepped(first, sizes, k) == after
            ||| stepped(first, sizes, k) == rewritten(
                after,
                step_head(sizes, m),
                sizes[(m / 2) as int].1 as int,
            )
        }),
    decreases k,
{
    if k > 0 {
        let l = (k - 1) as nat;
        lemma_step_ahead(v, sizes, m, l);
        lemma_step_heads(sizes, l, m);
        lemma_step_heads(sizes, m, l);
        let p = step_head(sizes, l);
        let q = step_head(sizes, m);
        let a = sizes[(l / 2) as int].1 as int;
        let b = sizes[(m / 2) as int].1 as int;
        let after = stepped(v, sizes, l);
        if p == q {
            lemma_rewritten_again(after, p, b, a);
        } else {
            lemma_rewritten_commute(after, q, b, p, a);
        }
    }
}

/// A step that is taken before all of them changes nothing.
proof fn lemma_step_before(v: Seq<Seq<char>>, sizes: Seq<(&str, i64)>, m: nat, n: nat)
    requires
        names_apart(sizes),
        m < n <= 2 * sizes.len(),
    ensures
        stepped(
            rewritten(v, step_head(sizes, m), sizes[(m / 2) as int].1 as int),
            sizes,
            n,
        ) == stepped(v, sizes, n),
    decreases n,
{
    if n == m + 1 {
        lemma_step_ahead(v, sizes, m, m);
        lemma_step_heads(sizes, m, m);
        let b = sizes[(m / 2) as int].1 as int;
        lemma_rewritten_again(stepped(v, sizes, m), step_head(sizes, m), b, b);
    } else {
        lemma_step_before(v, sizes, m, (n - 1) as nat);
    }
}

/// Steps that are taken before all of them change nothing.
proof fn lemma_steps_before(v: Seq<Seq<char>>, sizes: Seq<(&str, i64)>, m: nat, n: nat)
    requires
        names_apart(sizes),
        m <= n <= 2 * sizes.len(),
    ensures
        stepped(stepped(v, sizes, m), sizes, n) == stepped(v, sizes, n),
    decreases m,
{
    if m > 0 {
        lemma_steps_before(v, sizes, (m - 1) as nat, n);
        lemma_step_before(stepped(v, sizes, (m - 1) as nat), sizes, (m - 1) as nat, n);
    }
}

/// Changing sizes to the same values once more changes nothing, where the declaration of
/// no name starts that of another one.
pub proof fn law_resizing_twice_is_resizing_once(s: Seq<char>, sizes: Seq<(&str, i64)>)
    requires
        names_apart(sizes),
    ensures
        resized(resized(s, sizes, sizes.len()), sizes, sizes.len()) == resized(
            s,
            sizes,
            sizes.len(),
        ),
{
    let n = sizes.len();
    let once = resized(s, sizes, n);
    lemma_steps(s, sizes, n);
    lemma_steps(once, sizes, n);
    lemma_steps_before(segments(s), sizes, 2 * n, 2 * n);
}

} // verus!
