//! The affine dependence battery. Each subscript dimension goes through the
//! cheapest applicable test first, and the first test that proves independence
//! kills the dependence of the pair. Tests that do not prove independence refine
//! distance and direction; anything unproven is the conservative `*`.
//!
//! All arithmetic is done in `i128`, and the contracts admit every input whose
//! intermediate values fit there.
use vstd::prelude::*;

verus! {

/// Magnitude up to which the battery accepts coefficients, offsets and bounds.
pub const BATTERY_LIMIT: i128 = 0x1fff_ffff_ffff_ffff_ffff_ffff_ffff_ffff;

/// One dimension of a subscript: the value `a*i + b` at iteration `i`.
#[derive(Clone, Copy, Debug, PartialEq, Eq, Structural)]
pub struct Affine {
    pub a: i128,
    pub b: i128,
}

impl Affine {
    /// The element touched at iteration `i`.
    pub open spec fn at(self, i: int) -> int {
        self.a * i + self.b
    }

    /// A subscript that does not move with the loop.
    pub fn const_val(v: i64) -> (r: Self)
        ensures
            r.a == 0,
            r.b == v,
    {
        Affine { a: 0, b: v as i128 }
    }
}

/// A set of directions between the source and the sink iteration.
#[derive(Clone, Copy, Debug, PartialEq, Eq, Structural)]
pub struct DirVec {
    pub lt: bool,
    pub eq: bool,
    pub gt: bool,
}

/// One direction: how the source iteration compares with the sink iteration.
#[derive(Clone, Copy, Debug, PartialEq, Eq, Structural)]
pub enum Dir {
    Lt,
    Eq,
    Gt,
}

impl Default for DirVec {
    /// The empty set of directions.
    fn default() -> (r: Self)
        ensures
            !r.lt && !r.eq && !r.gt,
    {
        DirVec { lt: false, eq: false, gt: false }
    }
}

impl DirVec {
    /// Whether `dir` is a member of the set.
    pub open spec fn has(self, dir: Dir) -> bool {
        match dir {
            Dir::Lt => self.lt,
            Dir::Eq => self.eq,
            Dir::Gt => self.gt,
        }
    }

    /// The set that holds `dir` alone.
    pub open spec fn only(dir: Dir) -> DirVec {
        DirVec { lt: dir is Lt, eq: dir is Eq, gt: dir is Gt }
    }

    /// The set of all directions.
    pub open spec fn all() -> DirVec {
        DirVec { lt: true, eq: true, gt: true }
    }

    /// The members common to both sets.
    pub open spec fn meet(self, other: DirVec) -> DirVec {
        DirVec {
            lt: self.lt && other.lt,
            eq: self.eq && other.eq,
            gt: self.gt && other.gt,
        }
    }

    /// The spelling of the set: its members in the order `<`, `=`, `>`.
    pub open spec fn spelling(self) -> Seq<char> {
        let s0 = if self.lt { seq!['<'] } else { Seq::<char>::empty() };
        let s1 = if self.eq { s0.push('=') } else { s0 };
        if self.gt { s1.push('>') } else { s1 }
    }

    /// The set of all directions.
    pub fn star() -> (r: Self)
        ensures
            r == DirVec::all(),
    {
        DirVec { lt: true, eq: true, gt: true }
    }

    /// The set that holds `dir` alone.
    pub fn exact(dir: Dir) -> (r: Self)
        ensures
            r == DirVec::only(dir),
            forall|d: Dir| #[trigger] r.has(d) <==> d == dir,
    {
        match dir {
            Dir::Lt => DirVec { lt: true, eq: false, gt: false },
            Dir::Eq => DirVec { lt: false, eq: true, gt: false },
            Dir::Gt => DirVec { lt: false, eq: false, gt: true },
        }
    }

    /// Whether every direction is possible.
    pub fn is_star(&self) -> (r: bool)
        ensures
            r == (*self == DirVec::all()),
            r == (forall|d: Dir| self.has(d)),
    {
        proof {
            if forall|d: Dir| self.has(d) {
                assert(self.has(Dir::Lt) && self.has(Dir::Eq) && self.has(Dir::Gt));
            }
        }
        self.lt && self.eq && self.gt
    }

    /// Keeps only the directions that `other` has too.
    pub fn intersect(&mut self, other: &DirVec)
        ensures
            *final(self) == old(self).meet(*other),
            forall|d: Dir| #[trigger] final(self).has(d) <==> old(self).has(d) && other.has(d),
    {
        self.lt = self.lt && other.lt;
        self.eq = self.eq && other.eq;
        self.gt = self.gt && other.gt;
    }

    /// The members of the set, spelled `<`, `=`, `>`.
    pub fn describe(&self) -> (r: String)
        ensures
            r@ == self.spelling(),
    {
        proof {
            reveal_strlit("<");
            reveal_strlit("=");
            reveal_strlit(">");
        }
        let mut s = String::new();
        if self.lt {
            s.append("<");
        }
        assert(s@ =~= if self.lt { seq!['<'] } else { Seq::<char>::empty() });
        if self.eq {
            let ghost before = s@;
            s.append("=");
            assert(s@ =~= before.push('='));
        }
        if self.gt {
            let ghost before = s@;
            s.append(">");
            assert(s@ =~= before.push('>'));
        }
        s
    }
}

/// What is known of one pair of accesses.
#[derive(Clone, Debug, PartialEq)]
pub enum DepOutcome {
    /// No dependence can exist.
    Independent,
    /// A dependence may exist.
    Dependence {
        /// Source iteration minus sink iteration, where it is the same for every pair.
        distance: Option<i64>,
        dirs: Vec<DirVec>,
    },
}

/// Loop bounds of the analyzed level: iterations `lo..=hi`.
#[derive(Clone, Copy, Debug)]
pub struct IterRange {
    pub lo: i128,
    pub hi: i128,
}

impl IterRange {
    /// Whether `i` is an iteration of the loop.
    pub open spec fn has(self, i: int) -> bool {
        self.lo <= i <= self.hi
    }
}

/// Iteration `i` of the source and iteration `j` of the sink touch one element.
pub open spec fn same_element(src: Affine, dst: Affine, i: int, j: int) -> bool {
    src.at(i) == dst.at(j)
}

/// Some two iterations of the loop touch one element.
pub open spec fn collides(src: Affine, dst: Affine, range: IterRange) -> bool {
    exists|i: int, j: int|
        range.has(i) && range.has(j) && #[trigger] same_element(src, dst, i, j)
}

/// For equal nonzero coefficients: the source iteration minus the sink iteration
/// of every pair that touches one element.
pub open spec fn siv_distance(src: Affine, dst: Affine) -> int {
    (dst.b - src.b) / (src.a as int)
}

/// Whether the battery reports a dependence in one dimension.
///
/// Subscripts that ignore the loop depend exactly when they are equal, whatever
/// the bounds. Elsewhere a dependence is reported exactly when two iterations in
/// bounds collide; a constant distance must also be an `i64`.
pub open spec fn dimension_depends(src: Affine, dst: Affine, range: IterRange) -> bool {
    if src.a == 0 && dst.a == 0 {
        src.b == dst.b
    } else {
        &&& collides(src, dst, range)
        &&& src.a == dst.a ==> i64::MIN <= siv_distance(src, dst) <= i64::MAX
    }
}

/// The distance that a dependence in one dimension carries.
pub open spec fn dimension_distance(src: Affine, dst: Affine) -> Option<i64> {
    if src.a == 0 && dst.a == 0 {
        Some(0)
    } else if src.a == dst.a {
        Some(siv_distance(src, dst) as i64)
    } else {
        None
    }
}

/// The directions that a dependence in one dimension carries.
pub open spec fn dimension_dirs(src: Affine, dst: Affine) -> DirVec {
    if src.a == 0 && dst.a == 0 {
        DirVec::only(Dir::Eq)
    } else if src.a == dst.a {
        let d = siv_distance(src, dst);
        DirVec::only(
            if d < 0 {
                Dir::Lt
            } else if d == 0 {
                Dir::Eq
            } else {
                Dir::Gt
            },
        )
    } else {
        DirVec::all()
    }
}

/// The magnitude of an integer.
pub open spec fn magnitude(x: int) -> int {
    if x < 0 {
        -x
    } else {
        x
    }
}

/// Whether one value is within the limit of the battery.
pub open spec fn in_limit(x: int) -> bool {
    -BATTERY_LIMIT <= x <= BATTERY_LIMIT
}

/// Whether every intermediate value of the battery fits in `i128`.
///
/// The product of the coefficients matters only where neither is zero and they
/// differ in magnitude: there a Diophantine equation is solved.
pub open spec fn battery_fits(src: Affine, dst: Affine, range: IterRange) -> bool {
    &&& in_limit(src.a as int)
    &&& in_limit(src.b as int)
    &&& in_limit(dst.a as int)
    &&& in_limit(dst.b as int)
    &&& in_limit(range.lo as int)
    &&& in_limit(range.hi as int)
    &&& (src.a != 0 && dst.a != 0 && src.a != dst.a && src.a != -dst.a)
        ==> magnitude(src.a as int) * magnitude(dst.a as int) <= BATTERY_LIMIT
}

/// Whether one value is within the limit of the battery.
fn within_limit(x: i128) -> (r: bool)
    ensures
        r == in_limit(x as int),
{
    -BATTERY_LIMIT <= x && x <= BATTERY_LIMIT
}

/// Whether every intermediate value of the battery fits in `i128`.
pub fn fits_battery(src: Affine, dst: Affine, range: IterRange) -> (r: bool)
    ensures
        r == battery_fits(src, dst, range),
{
    let each = within_limit(src.a) && within_limit(src.b) && within_limit(dst.a) && within_limit(
        dst.b,
    ) && within_limit(range.lo) && within_limit(range.hi);
    if !each {
        return false;
    }
    if src.a == 0 || dst.a == 0 || src.a == dst.a || src.a == -dst.a {
        return true;
    }
    let x: i128 = if src.a < 0 { -src.a } else { src.a };
    let y: i128 = if dst.a < 0 { -dst.a } else { dst.a };
    match x.checked_mul(y) {
        Some(p) => p <= BATTERY_LIMIT,
        None => {
            proof {
                assert(x * y >= 0) by (nonlinear_arith)
                    requires
                        x >= 0,
                        y >= 0,
                ;
            }
            false
        },
    }
}

/// Euclidean quotient.
fn floor_div(a: i128, b: i128) -> (q: i128)
    requires
        b > 0,
    ensures
        q == a as int / b as int,
        b * q <= a < b * q + b,
{
    proof {
        vstd::arithmetic::div_mod::lemma_fundamental_div_mod(a as int, b as int);
        vstd::arithmetic::div_mod::lemma_mod_bound(a as int, b as int);
        let q = a as int / b as int;
        assert(i128::MIN <= q <= i128::MAX) by (nonlinear_arith)
            requires
                b >= 1,
                b * q <= a < b * q + b,
                i128::MIN <= a <= i128::MAX,
        ;
    }
    a.checked_div_euclid(b).unwrap()
}

/// Least integer not below the quotient.
fn ceil_div(a: i128, b: i128) -> (q: i128)
    requires
        b > 0,
        a > i128::MIN,
    ensures
        b * q - b < a <= b * q,
{
    let m: i128 = floor_div(-a, b);
    proof {
        assert(m > i128::MIN) by (nonlinear_arith)
            requires
                b >= 1,
                -a >= -i128::MAX,
                -a < b * m + b,
                m >= i128::MIN,
        ;
        assert(b * (-m) == -(b * m)) by (nonlinear_arith);
    }
    -m
}

/// `g` divides `a`.
pub open spec fn divides(g: int, a: int) -> bool {
    exists|p: int| a == #[trigger] (g * p)
}

/// `g` is the greatest common divisor of `a` and `b`, with `s` the factor of `a`
/// in a combination of `a` and `b` that gives `g`.
spec fn bezout(a: int, b: int, g: int, s: int) -> bool {
    &&& g > 0
    &&& divides(g, a)
    &&& divides(g, b)
    &&& exists|t: int| g == a * s + #[trigger] (b * t)
}

/// One step of the Euclidean algorithm on the combination that makes a remainder.
proof fn lemma_combination_step(
    a: int,
    b: int,
    r0: int,
    s0: int,
    t0: int,
    r1: int,
    s1: int,
    t1: int,
    q: int,
    m: int,
    s2: int,
    t2: int,
)
    requires
        r0 == a * s0 + b * t0,
        r1 == a * s1 + b * t1,
        s0 - q * s1 == m * b + s2,
        t2 == t0 - q * t1 + m * a,
    ensures
        r0 - q * r1 == a * s2 + b * t2,
{
    assert(q * r1 == a * (q * s1) + b * (q * t1)) by (nonlinear_arith)
        requires
            r1 == a * s1 + b * t1,
    ;
    assert(a * (s0 - q * s1) == a * s0 - a * (q * s1)) by (nonlinear_arith);
    assert(b * (t0 - q * t1) == b * t0 - b * (q * t1)) by (nonlinear_arith);
    assert(a * (m * b + s2) == a * m * b + a * s2) by (nonlinear_arith);
    assert(b * (t0 - q * t1 + m * a) == b * (t0 - q * t1) + a * m * b) by (nonlinear_arith);
}

/// One step of the Euclidean algorithm on the factors that rebuild an argument.
proof fn lemma_rebuild_step(a: int, x: int, y: int, r0: int, r1: int, q: int, r2: int)
    by (nonlinear_arith)
    requires
        a == x * r0 + y * r1,
        r2 == r0 - q * r1,
    ensures
        a == (x * q + y) * r1 + x * r2,
{
}

/// Euclidean quotient by a divisor of either sign.
fn quot(a: i128, b: i128) -> (q: i128)
    requires
        b != 0,
        -3 * BATTERY_LIMIT <= a <= 3 * BATTERY_LIMIT,
    ensures
        q == a as int / b as int,
        a == b * q + a as int % b as int,
        0 <= a as int % b as int,
        (a as int % b as int) < magnitude(b as int),
        magnitude(q as int) <= magnitude(a as int),
{
    proof {
        let q = a as int / b as int;
        let r = a as int % b as int;
        assert(a == b * q + r && 0 <= r && r < magnitude(b as int)) by (nonlinear_arith)
            requires
                b != 0,
                q == a as int / b as int,
                r == a as int % b as int,
        ;
        assert(magnitude(q) <= magnitude(a as int)) by (nonlinear_arith)
            requires
                b != 0,
                a == b * q + r,
                0 <= r < magnitude(b as int),
        ;
    }
    a.checked_div_euclid(b).unwrap()
}

/// Euclidean remainder.
fn rem(a: i128, b: i128) -> (r: i128)
    requires
        b != 0,
        a > i128::MIN,
    ensures
        r == a as int % b as int,
        0 <= r < magnitude(b as int),
        a == b * (a as int / b as int) + r,
{
    proof {
        let q = a as int / b as int;
        let r = a as int % b as int;
        assert(a == b * q + r && 0 <= r && r < magnitude(b as int)) by (nonlinear_arith)
            requires
                b != 0,
                q == a as int / b as int,
                r == a as int % b as int,
        ;
    }
    a.checked_rem_euclid(b).unwrap()
}

/// Greatest common divisor of two numbers that are not zero, and the factor of the
/// first, reduced below the magnitude of the second, in a combination that gives it.
#[verifier::rlimit(40)]
fn gcd(a: i128, b: i128) -> (r: (i128, i128))
    requires
        a != 0,
        b != 0,
        in_limit(a as int),
        in_limit(b as int),
        magnitude(b as int) <= magnitude(a as int),
        magnitude(a as int) * magnitude(b as int) <= BATTERY_LIMIT,
    ensures
        bezout(a as int, b as int, r.0 as int, r.1 as int),
        0 <= r.1 < magnitude(b as int),
        r.0 <= BATTERY_LIMIT,
{
    let m: i128 = if b < 0 { -b } else { b };
    let mut old_r: i128 = a;
    let mut r: i128 = b;
    let mut old_s: i128 = rem(1, m);
    let mut s: i128 = 0;
    let ghost mut old_t: int = 0;
    let ghost mut t: int = 1;
    let ghost mut x: int = 1;
    let ghost mut y: int = 0;
    let ghost mut z: int = 0;
    let ghost mut w: int = 1;
    proof {
        let k = 1int / (m as int);
        old_t = if b < 0 { -(k * a) } else { k * a };
        assert(a == a * old_s + b * old_t) by (nonlinear_arith)
            requires
                1 == m * k + old_s,
                m == -b && old_t == -(k * a) || m == b && old_t == k * a,
        ;
    }
    while r != 0
        invariant
            in_limit(a as int),
            magnitude(b as int) <= magnitude(a as int),
            magnitude(a as int) * magnitude(b as int) <= BATTERY_LIMIT,
            0 < m == magnitude(b as int),
            magnitude(old_r as int) <= magnitude(a as int),
            magnitude(r as int) <= magnitude(b as int),
            old_r != 0,
            0 <= old_s < m,
            0 <= s < m,
            old_r == a * old_s + b * old_t,
            r == a * s + b * t,
            a == x * old_r + y * r,
            b == z * old_r + w * r,
        decreases magnitude(r as int),
    {
        let q: i128 = quot(old_r, r);
        let r2: i128 = rem(old_r, r);
        proof {
            assert(r * q == q * r) by (nonlinear_arith);
            assert(magnitude(q * s) <= BATTERY_LIMIT) by (nonlinear_arith)
                requires
                    0 <= s <= magnitude(b as int),
                    magnitude(q as int) <= magnitude(a as int),
                    magnitude(a as int) * magnitude(b as int) <= BATTERY_LIMIT,
            ;
        }
        let raw: i128 = old_s - q * s;
        let s2: i128 = rem(raw, m);
        proof {
            let k = raw as int / m as int;
            let kb = if b < 0 { -k } else { k };
            let t2 = old_t - q * t + kb * a;
            assert(m * k == kb * b) by (nonlinear_arith)
                requires
                    m == -b && kb == -k || m == b && kb == k,
            ;
            lemma_combination_step(
                a as int,
                b as int,
                old_r as int,
                old_s as int,
                old_t,
                r as int,
                s as int,
                t,
                q as int,
                kb,
                s2 as int,
                t2,
            );
            lemma_rebuild_step(a as int, x, y, old_r as int, r as int, q as int, r2 as int);
            lemma_rebuild_step(b as int, z, w, old_r as int, r as int, q as int, r2 as int);
            old_t = t;
            t = t2;
            let x2 = x * q + y;
            y = x;
            x = x2;
            let z2 = z * q + w;
            w = z;
            z = z2;
        }
        old_r = r;
        r = r2;
        old_s = s;
        s = s2;
    }
    proof {
        assert(y * r == 0 && w * r == 0) by (nonlinear_arith)
            requires
                r == 0,
        ;
    }
    if old_r > 0 {
        proof {
            assert(a == old_r * x && b == old_r * z) by (nonlinear_arith)
                requires
                    a == x * old_r,
                    b == z * old_r,
            ;
            assert(old_r == a * old_s + b * old_t);
        }
        return (old_r, old_s);
    }
    let s3: i128 = rem(-old_s, m);
    proof {
        let g = -old_r;
        assert(a == g * (-x) && b == g * (-z)) by (nonlinear_arith)
            requires
                a == x * old_r,
                b == z * old_r,
                g == -old_r,
        ;
        let k = (-old_s) as int / m as int;
        let kb = if b < 0 { -k } else { k };
        let t3 = -old_t + kb * a;
        assert(g == a * s3 + b * t3) by (nonlinear_arith)
            requires
                g == -old_r,
                old_r == a * old_s + b * old_t,
                -old_s == m * k + s3,
                m == -b && kb == -k || m == b && kb == k,
                t3 == -old_t + kb * a,
        ;
    }
    (-old_r, s3)
}

/// The points `(i0 + si*t, j0 + sj*t)` for every integer `t`.
#[derive(Clone, Copy)]
struct Family {
    i0: i128,
    j0: i128,
    si: i128,
    sj: i128,
}

impl Family {
    /// Whether `(i, j)` is the point at `t`.
    spec fn at(self, i: int, j: int, t: int) -> bool {
        i == self.i0 + self.si * t && j == self.j0 + self.sj * t
    }

    /// Whether `(i, j)` is one of the points.
    spec fn has(self, i: int, j: int) -> bool {
        exists|t: int| self.at(i, j, t)
    }
}

/// `(i, j)` solves `lhs*i - rhs*j == k`.
spec fn solves(lhs: int, rhs: int, k: int, i: int, j: int) -> bool {
    lhs * i - rhs * j == k
}

/// Every solution of the equation lies on the family through one of them.
proof fn lemma_family_complete(
    l: int,
    r: int,
    s: int,
    t: int,
    g: int,
    i0: int,
    j0: int,
    k: int,
    i: int,
    j: int,
)
    requires
        g > 0,
        r != 0,
        g == (g * l) * s + (g * r) * t,
        solves(g * l, g * r, k, i0, j0),
        solves(g * l, g * r, k, i, j),
    ensures
        i == i0 + r * (s * (j - j0) + t * (i - i0)),
        j == j0 + l * (s * (j - j0) + t * (i - i0)),
{
    let u = i - i0;
    let v = j - j0;
    let w = s * v + t * u;
    assert((g * l) * u == (g * r) * v) by (nonlinear_arith)
        requires
            (g * l) * i0 - (g * r) * j0 == k,
            (g * l) * i - (g * r) * j == k,
            u == i - i0,
            v == j - j0,
    ;
    assert(l * u == r * v) by (nonlinear_arith)
        requires
            (g * l) * u == (g * r) * v,
            g > 0,
    ;
    assert(1 == l * s + r * t) by (nonlinear_arith)
        requires
            g == (g * l) * s + (g * r) * t,
            g > 0,
    ;
    assert(u == (l * s + r * t) * u) by (nonlinear_arith)
        requires
            1 == l * s + r * t,
    ;
    assert((l * s + r * t) * u == s * (l * u) + r * (t * u)) by (nonlinear_arith);
    assert(s * (r * v) + r * (t * u) == r * w) by (nonlinear_arith)
        requires
            w == s * v + t * u,
    ;
    assert(u == r * w);
    assert(v == l * w) by (nonlinear_arith)
        requires
            l * u == r * v,
            u == r * w,
            r != 0,
    ;
}

/// Every point of the family solves the equation.
proof fn lemma_family_sound(l: int, r: int, g: int, i0: int, j0: int, k: int, t: int)
    requires
        solves(g * l, g * r, k, i0, j0),
    ensures
        solves(g * l, g * r, k, i0 + r * t, j0 + l * t),
{
    assert((g * l) * (i0 + r * t) == (g * l) * i0 + g * (l * r * t)) by (nonlinear_arith);
    assert((g * r) * (j0 + l * t) == (g * r) * j0 + g * (l * r * t)) by (nonlinear_arith);
}

/// All integer solutions of `lhs*i - rhs*j == k`, where the second coefficient is
/// not the larger one; `None` when there is none.
#[verifier::rlimit(40)]
fn solve_ordered(lhs: i128, rhs: i128, k: i128) -> (f: Option<Family>)
    requires
        lhs != 0,
        rhs != 0,
        in_limit(lhs as int),
        in_limit(rhs as int),
        magnitude(rhs as int) <= magnitude(lhs as int),
        magnitude(lhs as int) * magnitude(rhs as int) <= BATTERY_LIMIT,
        -2 * BATTERY_LIMIT <= k <= 2 * BATTERY_LIMIT,
    ensures
        f is None ==> forall|i: int, j: int|
            !#[trigger] solves(lhs as int, rhs as int, k as int, i, j),
        f matches Some(fam) ==> {
            &&& solves(lhs as int, rhs as int, k as int, fam.i0 as int, fam.j0 as int)
            &&& forall|i: int, j: int| #[trigger]
                solves(lhs as int, rhs as int, k as int, i, j) <==> fam.has(i, j)
            &&& in_limit(fam.si as int)
            &&& in_limit(fam.sj as int)
            &&& magnitude(fam.i0 as int) <= 3 * BATTERY_LIMIT
            &&& magnitude(fam.j0 as int) <= 3 * BATTERY_LIMIT
        },
{
    let (g, s): (i128, i128) = gcd(lhs, rhs);
    let ghost l = choose|p: int| lhs == #[trigger] (g * p);
    let ghost r = choose|p: int| rhs == #[trigger] (g * p);
    let ghost t = choose|t: int| g == lhs * s + #[trigger] (rhs * t);
    if rem(k, g) != 0 {
        proof {
            assert forall|i: int, j: int| !#[trigger]
                solves(lhs as int, rhs as int, k as int, i, j) by {
                if solves(lhs as int, rhs as int, k as int, i, j) {
                    let c = l * i - r * j;
                    assert(k == g * c) by (nonlinear_arith)
                        requires
                            lhs * i - rhs * j == k,
                            lhs == g * l,
                            rhs == g * r,
                            c == l * i - r * j,
                    ;
                    assert(k as int % g as int == 0) by (nonlinear_arith)
                        requires
                            k == g * c,
                            g > 0,
                    ;
                }
            }
        }
        return None;
    }
    let m: i128 = if rhs < 0 { -rhs } else { rhs };
    let scale: i128 = quot(k, g);
    let sc: i128 = rem(scale, m);
    proof {
        assert(s * sc <= BATTERY_LIMIT && 0 <= s * sc) by (nonlinear_arith)
            requires
                0 <= s < m,
                0 <= sc < m,
                m == magnitude(rhs as int),
                magnitude(rhs as int) <= magnitude(lhs as int),
                magnitude(lhs as int) * magnitude(rhs as int) <= BATTERY_LIMIT,
        ;
    }
    let prod: i128 = s * sc;
    let i0: i128 = rem(prod, m);
    proof {
        assert(magnitude(lhs * i0) <= BATTERY_LIMIT) by (nonlinear_arith)
            requires
                0 <= i0 <= magnitude(rhs as int),
                magnitude(lhs as int) * magnitude(rhs as int) <= BATTERY_LIMIT,
        ;
    }
    let j_num: i128 = lhs * i0 - k;
    let j0: i128 = quot(j_num, rhs);
    let si: i128 = quot(rhs, g);
    let sj: i128 = quot(lhs, g);
    proof {
        let k1 = scale as int / m as int;
        let k2 = prod as int / m as int;
        // i0 == s*scale - m*(s*k1 + k2)
        let e = s * k1 + k2;
        assert(i0 == s * scale - m * e) by (nonlinear_arith)
            requires
                scale == m * k1 + sc,
                prod == s * sc,
                prod == m * k2 + i0,
                e == s * k1 + k2,
        ;
        let me = if rhs < 0 { -e } else { e };
        assert(m * e == rhs * me) by (nonlinear_arith)
            requires
                m == -rhs && me == -e || m == rhs && me == e,
        ;
        let jj = -(t * scale) - lhs * me;
        assert(lhs * i0 - k == rhs * jj) by {
            assert(lhs * i0 == lhs * s * scale - lhs * (rhs * me)) by (nonlinear_arith)
                requires
                    i0 == s * scale - rhs * me,
            ;
            assert(lhs * s * scale == g * scale - rhs * t * scale) by (nonlinear_arith)
                requires
                    g == lhs * s + rhs * t,
            ;
            assert(rhs * jj == -(rhs * t * scale) - lhs * (rhs * me)) by (nonlinear_arith)
                requires
                    jj == -(t * scale) - lhs * me,
            ;
        }
        assert(j0 == jj) by (nonlinear_arith)
            requires
                j_num == rhs * jj,
                j_num == rhs * j0 + j_num as int % rhs as int,
                0 <= j_num as int % rhs as int,
                (j_num as int % rhs as int) < magnitude(rhs as int),
                rhs != 0,
        ;
        assert(solves(lhs as int, rhs as int, k as int, i0 as int, j0 as int));
        assert(si == r) by (nonlinear_arith)
            requires
                rhs == g * r,
                rhs == g * si + rhs as int % g as int,
                0 <= rhs as int % g as int,
                (rhs as int % g as int) < g,
                g > 0,
        ;
        assert(sj == l) by (nonlinear_arith)
            requires
                lhs == g * l,
                lhs == g * sj + lhs as int % g as int,
                0 <= lhs as int % g as int,
                (lhs as int % g as int) < g,
                g > 0,
        ;
        assert(r != 0) by (nonlinear_arith)
            requires
                rhs == g * r,
                rhs != 0,
        ;
        let fam = Family { i0, j0, si, sj };
        assert forall|i: int, j: int| #[trigger]
            solves(lhs as int, rhs as int, k as int, i, j) <==> fam.has(i, j) by {
            if solves(lhs as int, rhs as int, k as int, i, j) {
                lemma_family_complete(
                    l,
                    r,
                    s as int,
                    t,
                    g as int,
                    i0 as int,
                    j0 as int,
                    k as int,
                    i,
                    j,
                );
                assert(fam.at(i, j, s * (j - j0) + t * (i - i0)));
            }
            if fam.has(i, j) {
                let w = choose|w: int| fam.at(i, j, w);
                lemma_family_sound(l, r, g as int, i0 as int, j0 as int, k as int, w);
            }
        }
    }
    Some(Family { i0, j0, si, sj })
}

/// All integer solutions of `-rhs*j == k`, with any first coordinate; `None` when there
/// is none.
fn solve_for_j(rhs: i128, k: i128) -> (f: Option<Family>)
    requires
        rhs != 0,
        in_limit(rhs as int),
        -2 * BATTERY_LIMIT <= k <= 2 * BATTERY_LIMIT,
    ensures
        f is None ==> forall|i: int, j: int| !#[trigger] solves(0, rhs as int, k as int, i, j),
        f matches Some(fam) ==> {
            &&& solves(0, rhs as int, k as int, fam.i0 as int, fam.j0 as int)
            &&& forall|i: int, j: int| #[trigger]
                solves(0, rhs as int, k as int, i, j) <==> fam.has(i, j)
            &&& fam.i0 == 0
            &&& fam.si == 1
            &&& fam.sj == 0
            &&& magnitude(fam.j0 as int) <= 3 * BATTERY_LIMIT
        },
{
    let n: i128 = -k;
    let j0: i128 = quot(n, rhs);
    if rem(n, rhs) != 0 {
        proof {
            assert forall|i: int, j: int| !#[trigger] solves(0, rhs as int, k as int, i, j) by {
                if solves(0, rhs as int, k as int, i, j) {
                    assert(0 * i == 0);
                    assert(n as int % rhs as int == 0) by (nonlinear_arith)
                        requires
                            n == rhs * j,
                            rhs != 0,
                    ;
                }
            }
        }
        return None;
    }
    let fam = Family { i0: 0, j0, si: 1, sj: 0 };
    proof {
        assert(n == rhs * j0);
        assert(magnitude(j0 as int) <= magnitude(n as int)) by (nonlinear_arith)
            requires
                n == rhs * j0,
                rhs != 0,
        ;
        assert forall|i: int, j: int| #[trigger]
            solves(0, rhs as int, k as int, i, j) <==> fam.has(i, j) by {
            assert(0 * i == 0);
            if solves(0, rhs as int, k as int, i, j) {
                assert(j == j0) by (nonlinear_arith)
                    requires
                        rhs * j == rhs * j0,
                        rhs != 0,
                ;
                assert(fam.at(i, j, i));
            }
            if fam.has(i, j) {
                let t = choose|t: int| fam.at(i, j, t);
                assert(0 * t == 0);
            }
        }
        assert(0 * (fam.i0 as int) == 0);
    }
    Some(fam)
}

/// All integer solutions of `lhs*i - rhs*j == k`; `None` when there is none.
fn solve_diophantine(lhs: i128, rhs: i128, k: i128) -> (f: Option<Family>)
    requires
        rhs != 0,
        in_limit(lhs as int),
        in_limit(rhs as int),
        magnitude(lhs as int) * magnitude(rhs as int) <= BATTERY_LIMIT,
        -2 * BATTERY_LIMIT <= k <= 2 * BATTERY_LIMIT,
    ensures
        f is None ==> forall|i: int, j: int|
            !#[trigger] solves(lhs as int, rhs as int, k as int, i, j),
        f matches Some(fam) ==> {
            &&& solves(lhs as int, rhs as int, k as int, fam.i0 as int, fam.j0 as int)
            &&& forall|i: int, j: int| #[trigger]
                solves(lhs as int, rhs as int, k as int, i, j) <==> fam.has(i, j)
            &&& in_limit(fam.si as int)
            &&& in_limit(fam.sj as int)
            &&& magnitude(fam.i0 as int) <= 3 * BATTERY_LIMIT
            &&& magnitude(fam.j0 as int) <= 3 * BATTERY_LIMIT
        },
{
    if lhs == 0 {
        return solve_for_j(rhs, k);
    }
    let la: i128 = if lhs < 0 { -lhs } else { lhs };
    let ra: i128 = if rhs < 0 { -rhs } else { rhs };
    if ra <= la {
        return solve_ordered(lhs, rhs, k);
    }
    // The same equation with the roles of the unknowns exchanged:
    // (-rhs)*j - (-lhs)*i == k.
    proof {
        assert(ra * la == la * ra) by (nonlinear_arith);
        assert forall|i: int, j: int| #[trigger]
            solves(lhs as int, rhs as int, k as int, i, j) <==> solves(
                -rhs,
                -lhs,
                k as int,
                j,
                i,
            ) by {
            assert((-rhs) * j == -(rhs * j) && (-lhs) * i == -(lhs * i)) by (nonlinear_arith);
        }
    }
    match solve_ordered(-rhs, -lhs, k) {
        None => None,
        Some(g) => {
            let fam = Family { i0: g.j0, j0: g.i0, si: g.sj, sj: g.si };
            proof {
                assert(solves(lhs as int, rhs as int, k as int, fam.i0 as int, fam.j0 as int));
                assert forall|i: int, j: int| #[trigger]
                    solves(lhs as int, rhs as int, k as int, i, j) <==> fam.has(i, j) by {
                    if g.has(j, i) {
                        let t = choose|t: int| g.at(j, i, t);
                        assert(fam.at(i, j, t));
                    }
                    if fam.has(i, j) {
                        let t = choose|t: int| fam.at(i, j, t);
                        assert(g.at(j, i, t));
                    }
                }
            }
            Some(fam)
        },
    }
}

/// Values of the parameter of a family.
enum Feasible {
    Never,
    Always,
    Between(i128, i128),
}

impl Feasible {
    /// Whether the value is one of them.
    spec fn has(self, t: int) -> bool {
        match self {
            Feasible::Never => false,
            Feasible::Always => true,
            Feasible::Between(lower, upper) => lower <= t <= upper,
        }
    }
}

/// The values of `t` that keep `c + step*t` within the range.
fn feasible_interval(range: IterRange, c: i128, step: i128) -> (r: Feasible)
    requires
        in_limit(range.lo as int),
        in_limit(range.hi as int),
        magnitude(c as int) <= 3 * BATTERY_LIMIT,
        in_limit(step as int),
    ensures
        forall|t: int| #[trigger] range.has(c + step * t) <==> r.has(t),
        r matches Feasible::Between(lower, upper) ==> lower <= upper,
{
    let lo: i128 = range.lo;
    let hi: i128 = range.hi;
    if step == 0 {
        assert(forall|t: int| #[trigger] range.has(c + step * t) <==> range.has(c as int)) by {
            assert forall|t: int| #[trigger] range.has(c + step * t) <==> range.has(c as int) by {
                assert(0 * t == 0);
            }
        }
        return if lo <= c && c <= hi {
            Feasible::Always
        } else {
            Feasible::Never
        };
    }
    // A negative step exchanges the two ends.
    let (tmin, tmax, s): (i128, i128, i128) = if step > 0 {
        (lo - c, hi - c, step)
    } else {
        (c - hi, c - lo, -step)
    };
    let lower: i128 = ceil_div(tmin, s);
    let upper: i128 = floor_div(tmax, s);
    proof {
        assert forall|t: int| #[trigger] range.has(c + step * t) <==> lower <= t <= upper by {
            assert(step * t == if step > 0 { s * t } else { -(s * t) }) by (nonlinear_arith)
                requires
                    step > 0 && s == step || step < 0 && s == -step,
            ;
            assert(tmin <= s * t <==> lower <= t) by (nonlinear_arith)
                requires
                    s > 0,
                    s * lower - s < tmin <= s * lower,
            ;
            assert(s * t <= tmax <==> t <= upper) by (nonlinear_arith)
                requires
                    s > 0,
                    s * upper <= tmax < s * upper + s,
            ;
        }
    }
    if lower <= upper {
        Feasible::Between(lower, upper)
    } else {
        Feasible::Never
    }
}

/// Whether two sets of values have one in common.
fn meet(a: Feasible, b: Feasible) -> (r: bool)
    requires
        a matches Feasible::Between(lower, upper) ==> lower <= upper,
        b matches Feasible::Between(lower, upper) ==> lower <= upper,
    ensures
        r <==> exists|t: int| #[trigger] a.has(t) && b.has(t),
{
    match (a, b) {
        (Feasible::Between(a1, a2), Feasible::Between(b1, b2)) => {
            let r = a2 >= b1 && b2 >= a1;
            proof {
                let t: int = if a1 >= b1 { a1 as int } else { b1 as int };
                if r {
                    assert(a.has(t) && b.has(t));
                }
            }
            r
        },
        (Feasible::Never, _) => false,
        (_, Feasible::Never) => false,
        (Feasible::Between(t, _), Feasible::Always) => {
            assert(a.has(t as int) && b.has(t as int));
            true
        },
        (Feasible::Always, Feasible::Between(t, _)) => {
            assert(a.has(t as int) && b.has(t as int));
            true
        },
        (Feasible::Always, Feasible::Always) => {
            assert(a.has(0) && b.has(0));
            true
        },
    }
}

/// Whether some point of the family has both coordinates within the range.
fn box_has_solution(range: IterRange, fam: Family) -> (r: bool)
    requires
        in_limit(range.lo as int),
        in_limit(range.hi as int),
        magnitude(fam.i0 as int) <= 3 * BATTERY_LIMIT,
        magnitude(fam.j0 as int) <= 3 * BATTERY_LIMIT,
        in_limit(fam.si as int),
        in_limit(fam.sj as int),
    ensures
        r <==> exists|i: int, j: int| range.has(i) && range.has(j) && #[trigger] fam.has(i, j),
        r <==> exists|t: int| #[trigger]
            range.has(fam.i0 + fam.si * t) && range.has(fam.j0 + fam.sj * t),
{
    let first = feasible_interval(range, fam.i0, fam.si);
    let second = feasible_interval(range, fam.j0, fam.sj);
    let ghost (a, b) = (first, second);
    let r = meet(first, second);
    proof {
        if r {
            let t = choose|t: int| #[trigger] a.has(t) && b.has(t);
            let i = fam.i0 + fam.si * t;
            let j = fam.j0 + fam.sj * t;
            assert(range.has(fam.i0 + fam.si * t));
            assert(range.has(fam.j0 + fam.sj * t));
            assert(fam.at(i, j, t));
            assert(fam.has(i, j));
        }
        assert forall|i: int, j: int|
            range.has(i) && range.has(j) && #[trigger] fam.has(i, j) implies r by {
            let t = choose|t: int| fam.at(i, j, t);
            assert(range.has(fam.i0 + fam.si * t));
            assert(range.has(fam.j0 + fam.sj * t));
            assert(a.has(t) && b.has(t));
        }
        assert forall|t: int| #[trigger]
            range.has(fam.i0 + fam.si * t) && range.has(fam.j0 + fam.sj * t) implies r by {
            assert(range.has(fam.j0 + fam.sj * t));
            assert(a.has(t) && b.has(t));
        }
    }
    r
}

/// Whether two iterations of the range lie `d` apart.
fn pairs_feasible(range: IterRange, d: i128) -> (r: bool)
    requires
        in_limit(range.lo as int),
        in_limit(range.hi as int),
        -2 * BATTERY_LIMIT <= d <= 2 * BATTERY_LIMIT,
    ensures
        r <==> exists|i: int| range.has(i) && #[trigger] range.has(i + d),
{
    let shifted_lo: i128 = range.lo - d;
    let shifted_hi: i128 = range.hi - d;
    let i_lo: i128 = if shifted_lo > range.lo { shifted_lo } else { range.lo };
    let i_hi: i128 = if shifted_hi < range.hi { shifted_hi } else { range.hi };
    proof {
        if i_lo <= i_hi {
            assert(range.has(i_lo as int) && range.has(i_lo + d));
        }
    }
    i_lo <= i_hi
}

/// A factor of a multiple is its Euclidean quotient.
proof fn lemma_exact_quotient(a: int, n: int, x: int)
    requires
        a != 0,
        a * x == n,
    ensures
        n % a == 0,
        n / a == x,
{
    assert(n % a == 0 && n / a == x) by (nonlinear_arith)
        requires
            a != 0,
            a * x == n,
    ;
}

/// For equal coefficients the colliding pairs are those at the fixed distance.
proof fn lemma_strong_siv(src: Affine, dst: Affine, i: int, j: int)
    requires
        src.a == dst.a,
        src.a != 0,
    ensures
        same_element(src, dst, i, j) <==> (dst.b - src.b) % (src.a as int) == 0 && i - j
            == siv_distance(src, dst),
{
    let a = src.a as int;
    let delta = dst.b - src.b;
    assert(a * (i - j) == a * i - a * j) by (nonlinear_arith);
    if a * (i - j) == delta {
        lemma_exact_quotient(a, delta, i - j);
    }
    if delta % a == 0 {
        assert(a * (delta / a) == delta) by (nonlinear_arith)
            requires
                a != 0,
                delta % a == 0,
        ;
    }
}

/// Tests one dimension of a subscript pair.
///
/// The tests run in the order: no index variable, equal coefficients, one
/// coefficient zero, opposite coefficients, and last the general two-variable
/// Diophantine equation intersected with the bounds.
#[verifier::rlimit(40)]
pub fn test_dimension(src: Affine, dst: Affine, range: IterRange) -> (r: DepOutcome)
    requires
        battery_fits(src, dst, range),
    ensures
        r is Independent <==> !dimension_depends(src, dst, range),
        r matches DepOutcome::Dependence { distance, dirs } ==> {
            &&& distance == dimension_distance(src, dst)
            &&& dirs@ == seq![dimension_dirs(src, dst)]
        },
{
    if src.a == 0 && dst.a == 0 {
        return if src.b == dst.b {
            DepOutcome::Dependence { distance: Some(0), dirs: vec![DirVec::exact(Dir::Eq)] }
        } else {
            DepOutcome::Independent
        };
    }
    let delta: i128 = dst.b - src.b;
    if src.a == dst.a {
        proof {
            assert forall|i: int, j: int| #[trigger] same_element(src, dst, i, j) implies delta
                as int % src.a as int == 0 && i - j == siv_distance(src, dst) by {
                lemma_strong_siv(src, dst, i, j);
            }
        }
        if rem(delta, src.a) != 0 {
            return DepOutcome::Independent;
        }
        let d: i128 = quot(delta, src.a);
        if d > i64::MAX as i128 || d < i64::MIN as i128 {
            return DepOutcome::Independent;
        }
        let feasible = pairs_feasible(range, d);
        proof {
            if feasible {
                let j = choose|j: int| range.has(j) && #[trigger] range.has(j + d);
                lemma_strong_siv(src, dst, j + d, j);
                assert(same_element(src, dst, j + d, j));
            }
            if collides(src, dst, range) {
                let (i, j) = choose|i: int, j: int|
                    range.has(i) && range.has(j) && #[trigger] same_element(src, dst, i, j);
                assert(range.has(j + d));
            }
        }
        if !feasible {
            return DepOutcome::Independent;
        }
        let dir = if d < 0 {
            DirVec::exact(Dir::Lt)
        } else if d == 0 {
            DirVec::exact(Dir::Eq)
        } else {
            DirVec::exact(Dir::Gt)
        };
        return DepOutcome::Dependence { distance: Some(d as i64), dirs: vec![dir] };
    }
    if src.a == 0 || dst.a == 0 {
        // One side stays at a fixed element: a single iteration of the other side
        // can touch it.
        let (a, p, c): (i128, i128, i128) = if dst.a == 0 {
            (src.a, src.b, dst.b)
        } else {
            (dst.a, dst.b, src.b)
        };
        let diff: i128 = c - p;
        proof {
            assert forall|x: int| #[trigger] (a * x) == diff implies diff as int % a as int == 0
                && x == diff as int / a as int by {
                lemma_exact_quotient(a as int, diff as int, x);
            }
            assert forall|i: int, j: int| #[trigger] same_element(src, dst, i, j) implies a * (if dst.a
                == 0 { i } else { j }) == diff by {
                assert(0 * i == 0 && 0 * j == 0);
            }
        }
        if rem(diff, a) != 0 {
            return DepOutcome::Independent;
        }
        let point: i128 = quot(diff, a);
        if point < range.lo || point > range.hi {
            return DepOutcome::Independent;
        }
        proof {
            assert(0 * point == 0);
            assert(same_element(src, dst, point as int, point as int));
        }
        return DepOutcome::Dependence { distance: None, dirs: vec![DirVec::star()] };
    }
    if src.a == -dst.a {
        // a*i + p == -a*j + q  <==>  a*(i + j) == q - p
        let a: i128 = src.a;
        proof {
            assert forall|i: int, j: int| #[trigger] same_element(src, dst, i, j) <==> a * (i + j)
                == delta by {
                assert(a * (i + j) == a * i + a * j) by (nonlinear_arith);
                assert((-a) * j == -(a * j)) by (nonlinear_arith);
            }
            assert forall|i: int, j: int| #[trigger] same_element(src, dst, i, j) implies delta
                as int % a as int == 0 && i + j == delta as int / a as int by {
                lemma_exact_quotient(a as int, delta as int, i + j);
            }
        }
        if rem(delta, a) != 0 {
            return DepOutcome::Independent;
        }
        let sum: i128 = quot(delta, a);
        let from_hi: i128 = sum - range.hi;
        let from_lo: i128 = sum - range.lo;
        let low: i128 = if from_hi > range.lo { from_hi } else { range.lo };
        let high: i128 = if from_lo < range.hi { from_lo } else { range.hi };
        if low <= high {
            proof {
                assert(low + (sum - low) == sum);
                assert(same_element(src, dst, low as int, sum - low));
                assert(range.has(low as int) && range.has(sum - low));
            }
            return DepOutcome::Dependence { distance: None, dirs: vec![DirVec::star()] };
        }
        return DepOutcome::Independent;
    }
    proof {
        assert forall|i: int, j: int| #[trigger] same_element(src, dst, i, j) <==> solves(
            src.a as int,
            dst.a as int,
            delta as int,
            i,
            j,
        ) by {}
    }
    match solve_diophantine(src.a, dst.a, delta) {
        None => {
            proof {
                assert forall|i: int, j: int| #[trigger] same_element(src, dst, i, j) implies false by {
                    assert(solves(src.a as int, dst.a as int, delta as int, i, j));
                }
            }
            DepOutcome::Independent
        },
        Some(fam) => {
            let hit = box_has_solution(range, fam);
            proof {
                if hit {
                    let (i, j) = choose|i: int, j: int|
                        range.has(i) && range.has(j) && #[trigger] fam.has(i, j);
                    assert(solves(src.a as int, dst.a as int, delta as int, i, j));
                    assert(same_element(src, dst, i, j));
                }
                assert forall|i: int, j: int|
                    range.has(i) && range.has(j) && #[trigger] same_element(
                        src,
                        dst,
                        i,
                        j,
                    ) implies hit by {
                    assert(solves(src.a as int, dst.a as int, delta as int, i, j));
                    assert(fam.has(i, j));
                }
            }
            if hit {
                DepOutcome::Dependence { distance: None, dirs: vec![DirVec::star()] }
            } else {
                DepOutcome::Independent
            }
        },
    }
}

/// Whether every one of the first `n` dimensions reports a dependence.
pub open spec fn dimensions_depend(
    src: Seq<Affine>,
    dst: Seq<Affine>,
    range: IterRange,
    n: int,
) -> bool {
    forall|k: int| 0 <= k < n ==> dimension_depends(#[trigger] src[k], dst[k], range)
}

/// The sum of the distances of the first `n` dimensions, where each has one.
pub open spec fn pair_distance(src: Seq<Affine>, dst: Seq<Affine>, n: nat) -> Option<int>
    decreases n,
{
    if n == 0 {
        Some(0)
    } else {
        let last = dimension_distance(src[n - 1], dst[n - 1]);
        match (pair_distance(src, dst, (n - 1) as nat), last) {
            (Some(sum), Some(d)) => Some(sum + d),
            _ => None,
        }
    }
}

/// The directions common to the first `n` dimensions.
pub open spec fn pair_dirs(src: Seq<Affine>, dst: Seq<Affine>, n: nat) -> DirVec
    decreases n,
{
    if n == 0 {
        DirVec::all()
    } else {
        pair_dirs(src, dst, (n - 1) as nat).meet(dimension_dirs(src[n - 1], dst[n - 1]))
    }
}

/// Whether the distances of a pair add up within `i64`.
pub open spec fn distances_fit(src: Seq<Affine>, dst: Seq<Affine>, range: IterRange) -> bool {
    forall|n: nat|
        n <= src.len() && dimensions_depend(src, dst, range, n as int) ==> match #[trigger] pair_distance(
            src,
            dst,
            n,
        ) {
            Some(d) => i64::MIN <= d <= i64::MAX,
            None => true,
        }
}

/// Tests all dimensions of a subscript pair: any dimension that proves
/// independence kills the dependence, the others add their distances and
/// intersect their directions. A pair without dimensions is dependent in every
/// direction, at no fixed distance.
pub fn test_pair(subscripts_src: &[Affine], subscripts_dst: &[Affine], range: IterRange) -> (r:
    DepOutcome)
    requires
        subscripts_src@.len() == subscripts_dst@.len(),
        forall|k: int|
            0 <= k < subscripts_src@.len() ==> battery_fits(
                #[trigger] subscripts_src@[k],
                subscripts_dst@[k],
                range,
            ),
        distances_fit(subscripts_src@, subscripts_dst@, range),
    ensures
        r is Independent <==> !dimensions_depend(
            subscripts_src@,
            subscripts_dst@,
            range,
            subscripts_src@.len() as int,
        ),
        r matches DepOutcome::Dependence { distance, dirs } ==> {
            &&& subscripts_src@.len() > 0 ==> distance == (match pair_distance(
                subscripts_src@,
                subscripts_dst@,
                subscripts_src@.len(),
            ) {
                Some(d) => Some(d as i64),
                None => None,
            })
            &&& subscripts_src@.len() == 0 ==> distance is None
            &&& dirs@ == seq![
                pair_dirs(subscripts_src@, subscripts_dst@, subscripts_src@.len()),
            ]
        },
{
    let mut combined = DirVec::star();
    let mut distance: Option<i64> = Some(0);
    let mut k: usize = 0;
    while k < subscripts_src.len()
        invariant
            k <= subscripts_src@.len(),
            subscripts_src@.len() == subscripts_dst@.len(),
            forall|k: int|
                0 <= k < subscripts_src@.len() ==> battery_fits(
                    #[trigger] subscripts_src@[k],
                    subscripts_dst@[k],
                    range,
                ),
            distances_fit(subscripts_src@, subscripts_dst@, range),
            dimensions_depend(subscripts_src@, subscripts_dst@, range, k as int),
            combined == pair_dirs(subscripts_src@, subscripts_dst@, k as nat),
            distance == (match pair_distance(subscripts_src@, subscripts_dst@, k as nat) {
                Some(d) => Some(d as i64),
                None => None,
            }),
            pair_distance(subscripts_src@, subscripts_dst@, k as nat) matches Some(d) ==> i64::MIN
                <= d <= i64::MAX,
        decreases subscripts_src@.len() - k,
    {
        let ghost here = pair_distance(subscripts_src@, subscripts_dst@, k as nat);
        let ghost next = pair_distance(subscripts_src@, subscripts_dst@, (k + 1) as nat);
        match test_dimension(subscripts_src[k], subscripts_dst[k], range) {
            DepOutcome::Independent => {
                return DepOutcome::Independent;
            },
            DepOutcome::Dependence { distance: dist, dirs } => {
                proof {
                    assert(dimensions_depend(
                        subscripts_src@,
                        subscripts_dst@,
                        range,
                        (k + 1) as int,
                    ));
                    assert(next matches Some(d) ==> i64::MIN <= d <= i64::MAX);
                }
                combined.intersect(&dirs[0]);
                distance = match (distance, dist) {
                    (Some(acc), Some(x)) => Some(acc + x),
                    _ => None,
                };
            },
        }
        k = k + 1;
    }
    if subscripts_src.len() == 0 {
        return DepOutcome::Dependence { distance: None, dirs: vec![DirVec::star()] };
    }
    DepOutcome::Dependence { distance, dirs: vec![combined] }
}

/// A dimension found independent has no two iterations in bounds that touch one
/// element. For equal coefficients the two lie at most an `i64` apart.
pub proof fn law_independent_is_sound(src: Affine, dst: Affine, range: IterRange, i: int, j: int)
    requires
        !dimension_depends(src, dst, range),
        src.a == dst.a ==> i64::MIN <= i - j <= i64::MAX,
        range.has(i),
        range.has(j),
    ensures
        src.at(i) != dst.at(j),
{
    if src.at(i) == dst.at(j) {
        assert(same_element(src, dst, i, j));
        assert(0 * i == 0 && 0 * j == 0);
        if src.a == dst.a && src.a != 0 {
            lemma_strong_siv(src, dst, i, j);
        }
    }
}

/// A reported dependence is real: in a loop with at least one iteration, some two
/// iterations touch one element.
pub proof fn law_dependence_is_real(src: Affine, dst: Affine, range: IterRange)
    requires
        dimension_depends(src, dst, range),
        range.lo <= range.hi,
    ensures
        exists|i: int, j: int|
            range.has(i) && range.has(j) && #[trigger] same_element(src, dst, i, j),
{
    if src.a == 0 && dst.a == 0 {
        assert(0 * range.lo == 0);
        assert(same_element(src, dst, range.lo as int, range.lo as int));
    }
}

/// Where subscripts move with the loop and a distance is reported, every two
/// iterations that touch one element lie exactly that far apart, in the reported
/// direction and no other.
pub proof fn law_distance_is_exact(src: Affine, dst: Affine, range: IterRange, i: int, j: int)
    requires
        dimension_depends(src, dst, range),
        src.a != 0 || dst.a != 0,
        dimension_distance(src, dst) is Some,
        same_element(src, dst, i, j),
    ensures
        dimension_distance(src, dst) == Some((i - j) as i64),
        i64::MIN <= i - j <= i64::MAX,
        dimension_dirs(src, dst).has(Dir::Lt) <==> i < j,
        dimension_dirs(src, dst).has(Dir::Eq) <==> i == j,
        dimension_dirs(src, dst).has(Dir::Gt) <==> i > j,
{
    lemma_strong_siv(src, dst, i, j);
}

/// The directions reported in one dimension hold the direction of every two
/// iterations that touch one element, wherever a subscript moves with the loop.
pub proof fn law_dirs_are_conservative(src: Affine, dst: Affine, range: IterRange, i: int, j: int)
    requires
        dimension_depends(src, dst, range),
        src.a != 0 || dst.a != 0,
        same_element(src, dst, i, j),
    ensures
        i < j ==> dimension_dirs(src, dst).has(Dir::Lt),
        i == j ==> dimension_dirs(src, dst).has(Dir::Eq),
        i > j ==> dimension_dirs(src, dst).has(Dir::Gt),
{
    if src.a == dst.a {
        lemma_strong_siv(src, dst, i, j);
    }
}

/// One dimension that is independent makes the whole pair independent.
pub proof fn law_any_dimension_kills(
    src: Seq<Affine>,
    dst: Seq<Affine>,
    range: IterRange,
    k: int,
)
    requires
        0 <= k < src.len(),
        !dimension_depends(src[k], dst[k], range),
    ensures
        !dimensions_depend(src, dst, range, src.len() as int),
{
}

} // verus!
