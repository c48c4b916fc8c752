//! Plane vectors over fixed-point quantities, and the interpolation that
//! turns one direction toward another.

use crate::fixed::{
    clamp, clamp_spec, in_range, is_root, lemma_product_bound, lemma_quot_neg, lemma_root_exists,
    lemma_root_monotone, lemma_root_unique, lemma_times_unit, magnitude, minus, minus_spec, plus,
    plus_spec, quot, root_spec, size, sqrt, times, times_spec, LIMIT, ONE,
};
use vstd::prelude::*;

verus! {

/// A position, velocity or direction in the plane, in millionths.
#[derive(Clone, Copy, PartialEq, Eq, Structural, Debug)]
pub struct Vec2 {
    pub x: i64,
    pub y: i64,
}

pub fn vec2(x: i64, y: i64) -> (v: Vec2)
    ensures
        v == (Vec2 { x, y }),
{
    Vec2 { x, y }
}

impl Vec2 {
    /// Both components are quantities in range.
    pub open spec fn wf(self) -> bool {
        in_range(self.x) && in_range(self.y)
    }

    pub open spec fn zero_spec() -> Vec2 {
        Vec2 { x: 0, y: 0 }
    }

    pub open spec fn plus_spec(self, other: Vec2) -> Vec2 {
        Vec2 { x: plus_spec(self.x, other.x), y: plus_spec(self.y, other.y) }
    }

    pub open spec fn minus_spec(self, other: Vec2) -> Vec2 {
        Vec2 { x: minus_spec(self.x, other.x), y: minus_spec(self.y, other.y) }
    }

    pub open spec fn neg_spec(self) -> Vec2 {
        Vec2 { x: (-self.x) as i64, y: (-self.y) as i64 }
    }

    pub open spec fn scaled_spec(self, k: i64) -> Vec2 {
        Vec2 { x: times_spec(self.x, k), y: times_spec(self.y, k) }
    }

    /// `x1 * x2 + y1 * y2`, rounded toward zero once, after the sum.
    pub open spec fn dot_spec(self, other: Vec2) -> i64 {
        clamp_spec(quot(self.x * other.x + self.y * other.y, ONE as int))
    }

    /// The integer square root of `x^2 + y^2`.
    pub open spec fn length_spec(self) -> i64 {
        clamp_spec(root_spec(self.x * self.x + self.y * self.y))
    }

    pub open spec fn is_zero(self) -> bool {
        self.x == 0 && self.y == 0
    }

    /// Whether the vector is one long, to within two millionths.
    pub open spec fn is_unit(self) -> bool {
        ONE - 2 <= self.length_spec() <= ONE
    }

    /// The vector divided by its length; the zero vector stays zero. A
    /// vector shorter than 1 is first magnified a million times, so that the
    /// root it is divided by carries six more digits: the result is one long
    /// to within two millionths, however short the vector.
    pub open spec fn normalize_spec(self) -> Vec2 {
        if root_spec(self.x * self.x + self.y * self.y) >= ONE {
            direction(self.x as int, self.y as int)
        } else {
            direction(self.x * ONE, self.y * ONE)
        }
    }

    /// `self + (other - self) * t`.
    pub open spec fn lerp_spec(self, other: Vec2, t: i64) -> Vec2 {
        self.plus_spec(other.minus_spec(self).scaled_spec(t))
    }

    /// The vector nearest to `self` with both components in range.
    pub open spec fn clamped_spec(self) -> Vec2 {
        Vec2 { x: clamp_spec(self.x as int), y: clamp_spec(self.y as int) }
    }

    pub fn clamped(self) -> (r: Vec2)
        ensures
            r == self.clamped_spec(),
            r.wf(),
    {
        Vec2 { x: clamp(self.x as i128), y: clamp(self.y as i128) }
    }

    pub fn zero() -> (v: Vec2)
        ensures
            v == Vec2::zero_spec(),
    {
        Vec2 { x: 0, y: 0 }
    }

    pub fn unit_x() -> (v: Vec2)
        ensures
            v == (Vec2 { x: ONE, y: 0 }),
    {
        Vec2 { x: ONE, y: 0 }
    }

    pub fn plus(self, other: Vec2) -> (r: Vec2)
        requires
            self.wf(),
            other.wf(),
        ensures
            r == self.plus_spec(other),
            r.wf(),
    {
        Vec2 { x: plus(self.x, other.x), y: plus(self.y, other.y) }
    }

    pub fn minus(self, other: Vec2) -> (r: Vec2)
        requires
            self.wf(),
            other.wf(),
        ensures
            r == self.minus_spec(other),
            r.wf(),
    {
        Vec2 { x: minus(self.x, other.x), y: minus(self.y, other.y) }
    }

    pub fn neg(self) -> (r: Vec2)
        requires
            self.wf(),
        ensures
            r == self.neg_spec(),
            r.wf(),
    {
        Vec2 { x: -self.x, y: -self.y }
    }

    pub fn scaled(self, k: i64) -> (r: Vec2)
        requires
            self.wf(),
            in_range(k),
        ensures
            r == self.scaled_spec(k),
            r.wf(),
    {
        Vec2 { x: times(self.x, k), y: times(self.y, k) }
    }

    pub fn dot(self, other: Vec2) -> (r: i64)
        requires
            self.wf(),
            other.wf(),
        ensures
            r == self.dot_spec(other),
            in_range(r),
    {
        proof {
            lemma_product_bound(self.x as int, other.x as int, LIMIT as int, LIMIT as int);
            lemma_product_bound(self.y as int, other.y as int, LIMIT as int, LIMIT as int);
        }
        let p: i128 = self.x as i128 * other.x as i128 + self.y as i128 * other.y as i128;
        clamp(p / (ONE as i128))
    }

    pub fn length(self) -> (r: i64)
        requires
            self.wf(),
        ensures
            r == self.length_spec(),
            0 <= r <= LIMIT,
    {
        proof {
            lemma_product_bound(self.x as int, self.x as int, LIMIT as int, LIMIT as int);
            lemma_product_bound(self.y as int, self.y as int, LIMIT as int, LIMIT as int);
            assert(self.x * self.x >= 0) by (nonlinear_arith);
            assert(self.y * self.y >= 0) by (nonlinear_arith);
        }
        let n: i128 = self.x as i128 * self.x as i128 + self.y as i128 * self.y as i128;
        let root: u64 = sqrt(n as u128);
        clamp(root as i128)
    }

    pub fn normalize(self) -> (r: Vec2)
        requires
            self.wf(),
        ensures
            r == self.normalize_spec(),
            self.is_zero() ==> r.is_zero(),
            !self.is_zero() ==> r.is_unit(),
            r.wf(),
    {
        proof {
            lemma_normalize_wf(self);
            if !self.is_zero() {
                lemma_normalize_unit(self);
            }
            lemma_product_bound(self.x as int, self.x as int, LIMIT as int, LIMIT as int);
            lemma_product_bound(self.y as int, self.y as int, LIMIT as int, LIMIT as int);
            assert(self.x * self.x >= 0) by (nonlinear_arith);
            assert(self.y * self.y >= 0) by (nonlinear_arith);
        }
        let x: i128 = self.x as i128;
        let y: i128 = self.y as i128;
        let n: i128 = x * x + y * y;
        let root: u64 = sqrt(n as u128);
        if root >= ONE as u64 {
            direction_of(x, y, root)
        } else {
            proof {
                lemma_within_root(x as int, y as int, root as int);
                lemma_product_bound(x as int, ONE as int, ONE as int, ONE as int);
                lemma_product_bound(y as int, ONE as int, ONE as int, ONE as int);
                lemma_product_bound(x * ONE, x * ONE, ONE * ONE, ONE * ONE);
                lemma_product_bound(y * ONE, y * ONE, ONE * ONE, ONE * ONE);
                assert((x * ONE) * (x * ONE) >= 0) by (nonlinear_arith);
                assert((y * ONE) * (y * ONE) >= 0) by (nonlinear_arith);
            }
            let a: i128 = x * (ONE as i128);
            let b: i128 = y * (ONE as i128);
            let m: i128 = a * a + b * b;
            let fine: u64 = sqrt(m as u128);
            direction_of(a, b, fine)
        }
    }

    pub fn lerp(self, other: Vec2, t: i64) -> (r: Vec2)
        requires
            self.wf(),
            other.wf(),
            in_range(t),
        ensures
            r == self.lerp_spec(other, t),
            r.wf(),
    {
        self.plus(other.minus(self).scaled(t))
    }
}

/// The `i`-th factor of `t^2` in the series: `1 / ((i + 1)(2i + 3))`.
pub open spec fn series_u(i: int) -> i64 {
    (ONE as int / ((i + 1) * (2 * i + 3))) as i64
}

/// The `i`-th constant of the series: `(i + 1) / (2i + 3)`.
pub open spec fn series_v(i: int) -> i64 {
    ((i + 1) * ONE / (2 * i + 3)) as i64
}

/// The `i`-th term of the series: `(u_i * t^2 - v_i) * (cos - 1)`, where
/// `sq` is `t^2` and `xm1` the cosine of the angle between the two
/// directions, less one.
pub open spec fn series_term(i: int, sq: i64, xm1: i64) -> i64 {
    times_spec(minus_spec(times_spec(series_u(i), sq), series_v(i)), xm1)
}

/// The nested product `1 + c_i (1 + c_(i+1) (1 + ... (1 + c_6)))` of the seven
/// terms of the series.
pub open spec fn series_from(i: int, sq: i64, xm1: i64) -> i64
    decreases 7 - i,
{
    if i >= 7 {
        ONE
    } else {
        plus_spec(ONE, times_spec(series_term(i, sq, xm1), series_from(i + 1, sq, xm1)))
    }
}

/// The weight that the interpolation gives to a direction at parameter `t`.
pub open spec fn weight_spec(t: i64, xm1: i64) -> i64 {
    times_spec(t, series_from(0, times_spec(t, t), xm1))
}

/// The direction between `a` and `b` at parameter `t`: `b` at 0, `a` at 1,
/// each weighted by a seven-term series in place of a sine.
pub open spec fn slerp_spec(a: Vec2, b: Vec2, t: i64) -> Vec2 {
    let xm1 = minus_spec(a.dot_spec(b), ONE);
    a.scaled_spec(weight_spec(t, xm1)).plus_spec(
        b.scaled_spec(weight_spec(minus_spec(ONE, t), xm1)),
    )
}

fn series_constants(i: usize) -> (r: (i64, i64))
    requires
        i < 7,
    ensures
        r.0 == series_u(i as int),
        r.1 == series_v(i as int),
        in_range(r.0),
        in_range(r.1),
{
    let k: i64 = i as i64;
    assert(1 <= (k + 1) * (2 * k + 3) <= 105) by (nonlinear_arith)
        requires
            0 <= k < 7,
    ;
    let d: i64 = (k + 1) * (2 * k + 3);
    let u: i64 = ONE / d;
    let v: i64 = (k + 1) * ONE / (2 * k + 3);
    proof {
        assert(0 <= ONE as int / (d as int) <= ONE) by (nonlinear_arith)
            requires
                d >= 1,
        ;
        assert(0 <= ((k + 1) * ONE) / (2 * k + 3) <= (k + 1) * ONE) by (nonlinear_arith)
            requires
                0 <= k < 7,
        ;
    }
    (u, v)
}

/// The weight of a direction at parameter `t`, where the cosine of the angle
/// between the two directions is `xm1 + 1`.
pub fn weight(t: i64, xm1: i64) -> (r: i64)
    requires
        in_range(t),
        in_range(xm1),
    ensures
        r == weight_spec(t, xm1),
        in_range(r),
{
    let sq: i64 = times(t, t);
    let mut acc: i64 = ONE;
    let mut i: usize = 7;
    while i > 0
        invariant
            i <= 7,
            in_range(sq),
            in_range(xm1),
            in_range(acc),
            acc == series_from(i as int, sq, xm1),
        decreases i,
    {
        i = i - 1;
        let (u, v) = series_constants(i);
        let term: i64 = times(minus(times(u, sq), v), xm1);
        acc = plus(ONE, times(term, acc));
    }
    times(t, acc)
}

/// Turns direction `b` toward direction `a`: the result is `b` at `t = 0`
/// and `a` at `t = 1`.
pub fn slerp(a: Vec2, b: Vec2, t: i64) -> (r: Vec2)
    requires
        a.wf(),
        b.wf(),
        in_range(t),
    ensures
        r == slerp_spec(a, b, t),
        t == 0 ==> r == b,
        t == ONE ==> r == a,
        r.wf(),
{
    proof {
        lemma_slerp_ends(a, b);
    }
    let xm1: i64 = minus(a.dot(b), ONE);
    let wa: i64 = weight(t, xm1);
    let wb: i64 = weight(minus(ONE, t), xm1);
    a.scaled(wa).plus(b.scaled(wb))
}

/// At the ends of the parameter range the interpolation returns its
/// arguments themselves: the second at `t = 0`, the first at `t = 1`.
pub proof fn lemma_slerp_ends(a: Vec2, b: Vec2)
    requires
        a.wf(),
        b.wf(),
    ensures
        slerp_spec(a, b, 0) == b,
        slerp_spec(a, b, ONE) == a,
{
    let xm1 = minus_spec(a.dot_spec(b), ONE);
    lemma_weight_ends(xm1);
    lemma_times_unit(a.x);
    lemma_times_unit(a.y);
    lemma_times_unit(b.x);
    lemma_times_unit(b.y);
}

/// The weight is 0 at `t = 0` and 1 at `t = 1`, whatever the angle.
pub proof fn lemma_weight_ends(xm1: i64)
    requires
        in_range(xm1),
    ensures
        weight_spec(0, xm1) == 0,
        weight_spec(ONE, xm1) == ONE,
{
    lemma_times_unit(ONE);
    lemma_times_unit(series_from(0, 0, xm1));
    assert(series_u(0) == series_v(0));
    lemma_times_unit(series_u(0));
    lemma_times_unit(xm1);
    lemma_times_unit(series_from(1, ONE, xm1));
    assert(series_term(0, ONE, xm1) == 0);
    assert(series_from(0, ONE, xm1) == ONE);
}

/// A length is never negative, and only the zero vector has length zero.
pub proof fn lemma_length_sign(v: Vec2)
    ensures
        0 <= v.length_spec(),
        v.length_spec() == 0 <==> v.is_zero(),
{
    let n = v.x * v.x + v.y * v.y;
    assert(v.x * v.x >= 0 && (v.x * v.x == 0 <==> v.x == 0)) by (nonlinear_arith);
    assert(v.y * v.y >= 0 && (v.y * v.y == 0 <==> v.y == 0)) by (nonlinear_arith);
    lemma_root_exists(n);
    if n >= 1 {
        lemma_root_monotone(1, n);
        lemma_root_exists(1);
        lemma_root_unique(1, 1, root_spec(1));
    } else {
        lemma_root_unique(0, 0, root_spec(0));
    }
}

/// A vector that is at least as large as another in both directions is at
/// least as long.
pub proof fn lemma_length_monotone(v: Vec2, w: Vec2)
    requires
        magnitude(v.x) <= magnitude(w.x),
        magnitude(v.y) <= magnitude(w.y),
    ensures
        0 <= v.length_spec() <= w.length_spec(),
{
    assert(0 <= v.x * v.x <= w.x * w.x) by (nonlinear_arith)
        requires
            magnitude(v.x) <= magnitude(w.x),
    ;
    assert(0 <= v.y * v.y <= w.y * w.y) by (nonlinear_arith)
        requires
            magnitude(v.y) <= magnitude(w.y),
    ;
    lemma_root_monotone(v.x * v.x + v.y * v.y, w.x * w.x + w.y * w.y);
}

/// The direction of the whole-number vector `(a, b)`: each component, times
/// `ONE`, over the integer root of `a^2 + b^2`, rounded toward zero. The zero
/// vector has no direction and gives the zero vector.
pub open spec fn direction(a: int, b: int) -> Vec2 {
    let r = root_spec(a * a + b * b);
    if r <= 0 {
        Vec2::zero_spec()
    } else {
        Vec2 { x: quot(a * ONE, r) as i64, y: quot(b * ONE, r) as i64 }
    }
}

fn direction_of(a: i128, b: i128, root: u64) -> (r: Vec2)
    requires
        -LIMIT * ONE <= a <= LIMIT * ONE,
        -LIMIT * ONE <= b <= LIMIT * ONE,
        is_root(a * a + b * b, root as int),
    ensures
        r == direction(a as int, b as int),
        r.wf(),
{
    proof {
        lemma_root_unique(a * a + b * b, root as int, root_spec(a * a + b * b));
    }
    if root == 0 {
        Vec2 { x: 0, y: 0 }
    } else {
        proof {
            lemma_within_root(a as int, b as int, root as int);
            lemma_direction_component(a as int, root as int);
            lemma_direction_component(b as int, root as int);
            lemma_product_bound(a as int, ONE as int, LIMIT * ONE, ONE as int);
            lemma_product_bound(b as int, ONE as int, LIMIT * ONE, ONE as int);
        }
        let len: i128 = root as i128;
        let x: i128 = a * (ONE as i128) / len;
        let y: i128 = b * (ONE as i128) / len;
        Vec2 { x: x as i64, y: y as i64 }
    }
}

/// No component of a vector is larger than the root of its squared length.
proof fn lemma_within_root(a: int, b: int, root: int)
    requires
        is_root(a * a + b * b, root),
    ensures
        size(a) <= root,
        size(b) <= root,
{
    let (p, q) = (size(a), size(b));
    assert(a * a == p * p && b * b == q * q) by (nonlinear_arith)
        requires
            p == a || p == -a,
            q == b || q == -b,
    ;
    assert(p <= root) by (nonlinear_arith)
        requires
            p * p + q * q < (root + 1) * (root + 1),
            q * q >= 0,
            0 <= p,
            0 <= root,
    ;
    assert(q <= root) by (nonlinear_arith)
        requires
            p * p + q * q < (root + 1) * (root + 1),
            p * p >= 0,
            0 <= q,
            0 <= root,
    ;
}

/// What dividing by the length does to a component that is no larger than
/// the length: the quotient is at most 1, and falls short of the true
/// quotient by less than a millionth.
proof fn lemma_direction_component(a: int, len: int)
    requires
        1 <= len,
        size(a) <= len,
    ensures
        ({
            let p = size(a);
            let c = size(quot(a * ONE, len));
            &&& c <= ONE
            &&& quot(-a * ONE, len) == -quot(a * ONE, len)
            &&& len * len * (c * c) <= ONE * ONE * (p * p)
            &&& ONE * ONE * (p * p) - 2 * ONE * len * p <= len * len * (c * c)
        }),
{
    let p = size(a);
    let m = ONE as int;
    let c = (p * m) / len;
    assert(0 <= p * m <= len * m) by (nonlinear_arith)
        requires
            0 <= p <= len,
            m > 0,
    ;
    assert(len * c <= p * m < len * c + len && 0 <= c) by (nonlinear_arith)
        requires
            c == (p * m) / len,
            0 <= p * m,
            len > 0,
    ;
    assert(c <= m) by (nonlinear_arith)
        requires
            len * c <= p * m,
            p * m <= len * m,
            len > 0,
    ;
    assert(a * m == p * m || a * m == -(p * m)) by (nonlinear_arith)
        requires
            p == a || p == -a,
    ;
    assert(-a * m == -(a * m)) by (nonlinear_arith);
    assert(p * m == 0 ==> c == 0);
    assert(quot(a * m, len) == c || quot(a * m, len) == -c);
    lemma_quot_neg(a * m, len);
    assert(size(quot(a * m, len)) == c);
    assert((len * c) * (len * c) <= (p * m) * (p * m)) by (nonlinear_arith)
        requires
            0 <= len * c <= p * m,
    ;
    assert((len * c) * (len * c) == len * len * (c * c)) by (nonlinear_arith);
    assert((p * m) * (p * m) == m * m * (p * p)) by (nonlinear_arith);
    if p * m >= len {
        assert((p * m - len) * (p * m - len) <= (len * c) * (len * c)) by (nonlinear_arith)
            requires
                0 <= p * m - len <= len * c,
        ;
        assert((p * m - len) * (p * m - len) == m * m * (p * p) - 2 * m * len * p + len * len)
            by (nonlinear_arith);
        assert(len * len >= 0) by (nonlinear_arith);
    } else {
        assert(m * m * (p * p) - 2 * m * len * p <= 0) by (nonlinear_arith)
            requires
                0 <= p * m < len,
                m > 0,
                0 <= p,
        ;
        assert(len * len * (c * c) >= 0) by (nonlinear_arith);
    }
}

/// The direction of a vector that is 1 or more long is one long, to within
/// two millionths.
pub proof fn lemma_direction_unit(a: int, b: int)
    requires
        root_spec(a * a + b * b) >= ONE,
        a * a + b * b >= 0,
    ensures
        magnitude(direction(a, b).x) <= ONE,
        magnitude(direction(a, b).y) <= ONE,
        ONE - 2 <= direction(a, b).length_spec() <= ONE,
{
    let m = ONE as int;
    let n = a * a + b * b;
    let len = root_spec(n);
    let (p, q) = (size(a), size(b));
    lemma_root_exists(n);
    lemma_within_root(a, b, len);
    lemma_direction_component(a, len);
    lemma_direction_component(b, len);
    assert(a * a == p * p && b * b == q * q) by (nonlinear_arith)
        requires
            p == a || p == -a,
            q == b || q == -b,
    ;
    let u = direction(a, b);
    let (c, d) = (size(quot(a * m, len)), size(quot(b * m, len)));
    assert(magnitude(u.x) == c && magnitude(u.y) == d);
    let w = u.x * u.x + u.y * u.y;
    assert(u.x * u.x == c * c && u.y * u.y == d * d) by (nonlinear_arith)
        requires
            c == u.x || c == -u.x,
            d == u.y || d == -u.y,
    ;
    assert(c * c >= 0 && d * d >= 0) by (nonlinear_arith);
    lemma_root_exists(w);
    let long = root_spec(w);
    // From above.
    assert(len * len * w <= m * m * n) by (nonlinear_arith)
        requires
            w == c * c + d * d,
            n == p * p + q * q,
            len * len * (c * c) <= m * m * (p * p),
            len * len * (d * d) <= m * m * (q * q),
    ;
    assert((len * long) * (len * long) < (m * (len + 1)) * (m * (len + 1))) by (nonlinear_arith)
        requires
            long * long <= w,
            len * len * w <= m * m * n,
            n < (len + 1) * (len + 1),
            len >= 1,
            m > 0,
    ;
    assert(len * long < m * (len + 1)) by (nonlinear_arith)
        requires
            (len * long) * (len * long) < (m * (len + 1)) * (m * (len + 1)),
            0 <= len * long,
            0 <= m * (len + 1),
    ;
    assert(long < m + 1) by (nonlinear_arith)
        requires
            len * long < m * (len + 1),
            len >= m,
            m > 0,
    ;
    // From below.
    let s = p + q;
    assert(s * s <= 2 * n) by (nonlinear_arith)
        requires
            s == p + q,
            n == p * p + q * q,
    ;
    assert(2 * s <= 3 * (len + 1)) by (nonlinear_arith)
        requires
            s * s <= 2 * n,
            n < (len + 1) * (len + 1),
            0 <= s,
            0 <= len,
    ;
    assert(len * len * w >= m * m * n - 2 * m * len * s) by (nonlinear_arith)
        requires
            w == c * c + d * d,
            n == p * p + q * q,
            s == p + q,
            len * len * (c * c) >= m * m * (p * p) - 2 * m * len * p,
            len * len * (d * d) >= m * m * (q * q) - 2 * m * len * q,
    ;
    assert(len * len * w >= m * m * (len * len) - 3 * m * len * (len + 1)) by (nonlinear_arith)
        requires
            len * len * w >= m * m * n - 2 * m * len * s,
            n >= len * len,
            2 * s <= 3 * (len + 1),
            m > 0,
            len >= 1,
    ;
    assert(w >= m * m - 3 * m - 3) by (nonlinear_arith)
        requires
            len * len * w >= m * m * (len * len) - 3 * m * len * (len + 1),
            len >= m,
            m > 0,
    ;
    assert(is_root((m - 2) * (m - 2), m - 2));
    lemma_root_unique((m - 2) * (m - 2), m - 2, root_spec((m - 2) * (m - 2)));
    lemma_root_monotone((m - 2) * (m - 2), w);
}

/// A normalised vector is one long, up to rounding: whatever the vector, if
/// it is not zero, its direction is between 1 less two millionths and 1
/// long.
pub proof fn lemma_normalize_unit(v: Vec2)
    requires
        !v.is_zero(),
    ensures
        magnitude(v.normalize_spec().x) <= ONE,
        magnitude(v.normalize_spec().y) <= ONE,
        v.normalize_spec().is_unit(),
{
    let m = ONE as int;
    let n = v.x * v.x + v.y * v.y;
    assert(v.x * v.x >= 0 && (v.x * v.x == 0 <==> v.x == 0)) by (nonlinear_arith);
    assert(v.y * v.y >= 0 && (v.y * v.y == 0 <==> v.y == 0)) by (nonlinear_arith);
    if root_spec(n) >= ONE {
        lemma_direction_unit(v.x as int, v.y as int);
    } else {
        let wide = (v.x * m) * (v.x * m) + (v.y * m) * (v.y * m);
        assert(wide == m * m * n) by (nonlinear_arith)
            requires
                wide == (v.x * m) * (v.x * m) + (v.y * m) * (v.y * m),
                n == v.x * v.x + v.y * v.y,
        ;
        assert(m * m * n >= m * m) by (nonlinear_arith)
            requires
                n >= 1,
                m > 0,
        ;
        assert(is_root(m * m, m));
        lemma_root_unique(m * m, m, root_spec(m * m));
        lemma_root_monotone(m * m, wide);
        lemma_direction_unit(v.x * m, v.y * m);
    }
}

/// Normalising gives quantities in range, and leaves the zero vector as
/// it is.
pub proof fn lemma_normalize_wf(v: Vec2)
    ensures
        v.normalize_spec().wf(),
        v.is_zero() ==> v.normalize_spec().is_zero(),
{
    if v.is_zero() {
        assert(is_root(0, 0));
        lemma_root_unique(0, 0, root_spec(0));
        assert(v.x * v.x + v.y * v.y == 0);
        assert((v.x * ONE) * (v.x * ONE) + (v.y * ONE) * (v.y * ONE) == 0);
    } else {
        lemma_normalize_unit(v);
    }
}

/// Taking a difference the other way round gives the opposite vector.
pub proof fn lemma_minus_flips(a: Vec2, b: Vec2)
    ensures
        a.minus_spec(b) == b.minus_spec(a).neg_spec(),
        b.minus_spec(a).wf(),
{
}

/// The direction of the opposite vector is the opposite direction.
pub proof fn lemma_normalize_neg(v: Vec2)
    requires
        v.wf(),
    ensures
        v.neg_spec().normalize_spec() == v.normalize_spec().neg_spec(),
{
    let m = ONE as int;
    let w = v.neg_spec();
    assert(w.x == -v.x && w.y == -v.y);
    assert(w.x * w.x == v.x * v.x && w.y * w.y == v.y * v.y) by (nonlinear_arith)
        requires
            w.x == -v.x,
            w.y == -v.y,
    ;
    assert((w.x * m) * (w.x * m) == (v.x * m) * (v.x * m) && (w.y * m) * (w.y * m) == (v.y * m)
        * (v.y * m)) by (nonlinear_arith)
        requires
            w.x == -v.x,
            w.y == -v.y,
    ;
    assert(w.x * m == -(v.x * m) && w.y * m == -(v.y * m)) by (nonlinear_arith)
        requires
            w.x == -v.x,
            w.y == -v.y,
    ;
    assert(v.x * v.x >= 0 && v.y * v.y >= 0) by (nonlinear_arith);
    assert((v.x * m) * (v.x * m) >= 0 && (v.y * m) * (v.y * m) >= 0) by (nonlinear_arith);
    lemma_direction_neg(v.x as int, v.y as int);
    lemma_direction_neg(v.x * m, v.y * m);
}

/// The direction of `(-a, -b)` is the opposite of that of `(a, b)`.
proof fn lemma_direction_neg(a: int, b: int)
    requires
        a * a + b * b >= 0,
    ensures
        direction(-a, -b) == direction(a, b).neg_spec(),
{
    let m = ONE as int;
    let n = a * a + b * b;
    assert((-a) * (-a) + (-b) * (-b) == n) by (nonlinear_arith)
        requires
            n == a * a + b * b,
    ;
    let r = root_spec(n);
    lemma_root_exists(n);
    if r > 0 {
        lemma_within_root(a, b, r);
        lemma_direction_component(a, r);
        lemma_direction_component(b, r);
        assert((-a) * m == -a * m && (-b) * m == -b * m) by (nonlinear_arith);
    }
}

/// One component of `reached.lerp_spec(dock, t)`.
pub open spec fn lerp_component(reached: i64, dock: i64, t: i64) -> i64 {
    plus_spec(reached, times_spec(minus_spec(dock, reached), t))
}

/// Between 0 and 1, a larger parameter brings a component of the
/// interpolation no farther from its goal.
pub proof fn lemma_lerp_component(reached: i64, dock: i64, t1: i64, t2: i64)
    requires
        in_range(reached),
        in_range(dock),
        0 <= t1 <= t2 <= ONE,
    ensures
        magnitude(minus_spec(lerp_component(reached, dock, t2), dock)) <= magnitude(
            minus_spec(lerp_component(reached, dock, t1), dock),
        ),
{
    let m = ONE as int;
    let e = minus_spec(dock, reached);
    let gap = dock - reached;
    let s = size(e as int);
    assert(s <= size(gap));
    let (a1, a2) = ((s * t1) / m, (s * t2) / m);
    assert(0 <= s * t1 <= s * t2 <= s * m) by (nonlinear_arith)
        requires
            0 <= s,
            0 <= t1 <= t2 <= m,
    ;
    assert(0 <= a1 <= a2 <= s) by (nonlinear_arith)
        requires
            a1 == (s * t1) / m,
            a2 == (s * t2) / m,
            0 <= s * t1 <= s * t2 <= s * m,
            m > 0,
    ;
    assert(e * t1 == s * t1 || e * t1 == -(s * t1)) by (nonlinear_arith)
        requires
            s == e || s == -e,
    ;
    assert(e * t2 == s * t2 || e * t2 == -(s * t2)) by (nonlinear_arith)
        requires
            s == e || s == -e,
    ;
    assert(e >= 0 ==> e * t1 >= 0 && e * t2 >= 0) by (nonlinear_arith)
        requires
            0 <= t1,
            0 <= t2,
    ;
    assert(e < 0 ==> e * t1 <= 0 && e * t2 <= 0) by (nonlinear_arith)
        requires
            0 <= t1,
            0 <= t2,
    ;
    assert(s * t1 == 0 ==> a1 == 0);
    assert(s * t2 == 0 ==> a2 == 0);
    if e >= 0 {
        assert(times_spec(e, t1) == a1 && times_spec(e, t2) == a2);
    } else {
        assert(times_spec(e, t1) == -a1 && times_spec(e, t2) == -a2);
    }
}

/// Between 0 and 1, a larger parameter brings the interpolation no farther
/// from its goal.
pub proof fn lemma_lerp_approaches(reached: Vec2, dock: Vec2, t1: i64, t2: i64)
    requires
        reached.wf(),
        dock.wf(),
        0 <= t1 <= t2 <= ONE,
    ensures
        reached.lerp_spec(dock, t2).minus_spec(dock).length_spec() <= reached.lerp_spec(
            dock,
            t1,
        ).minus_spec(dock).length_spec(),
{
    lemma_lerp_component(reached.x, dock.x, t1, t2);
    lemma_lerp_component(reached.y, dock.y, t1, t2);
    lemma_length_monotone(
        reached.lerp_spec(dock, t2).minus_spec(dock),
        reached.lerp_spec(dock, t1).minus_spec(dock),
    );
}

/// A unit vector scaled by a factor `k` between 17 millionths and 1 is `k`
/// long, to within four millionths.
pub proof fn lemma_scaled_unit(g: Vec2, k: i64)
    requires
        g.is_unit(),
        17 <= k <= ONE,
    ensures
        k - 4 <= g.scaled_spec(k).length_spec() <= k,
        magnitude(g.scaled_spec(k).x) <= k,
        magnitude(g.scaled_spec(k).y) <= k,
{
    let m = ONE as int;
    let f = k as int;
    let w = g.x * g.x + g.y * g.y;
    let (c, d) = (magnitude(g.x), magnitude(g.y));
    assert(g.x * g.x == c * c && g.y * g.y == d * d) by (nonlinear_arith)
        requires
            c == g.x || c == -g.x,
            d == g.y || d == -g.y,
    ;
    assert(c * c >= 0 && d * d >= 0) by (nonlinear_arith);
    lemma_root_exists(w);
    let long = root_spec(w);
    assert(m - 2 <= long <= m);
    lemma_within_root(g.x as int, g.y as int, long);
    lemma_unit_scaled_component(g.x, k);
    lemma_unit_scaled_component(g.y, k);
    let v = g.scaled_spec(k);
    let (a, b) = (magnitude(v.x), magnitude(v.y));
    let q = v.x * v.x + v.y * v.y;
    assert(v.x * v.x == a * a && v.y * v.y == b * b) by (nonlinear_arith)
        requires
            a == v.x || a == -v.x,
            b == v.y || b == -v.y,
    ;
    assert(a * a >= 0 && b * b >= 0) by (nonlinear_arith);
    lemma_root_exists(q);
    let r = root_spec(q);
    // From above.
    assert(m * m * q <= f * f * w) by (nonlinear_arith)
        requires
            q == a * a + b * b,
            w == c * c + d * d,
            m * m * (a * a) <= f * f * (c * c),
            m * m * (b * b) <= f * f * (d * d),
    ;
    assert((m * r) * (m * r) < (f * (m + 1)) * (f * (m + 1))) by (nonlinear_arith)
        requires
            r * r <= q,
            m * m * q <= f * f * w,
            w < (long + 1) * (long + 1),
            0 <= long <= m,
            f >= 1,
            m > 0,
    ;
    assert(m * r < f * (m + 1)) by (nonlinear_arith)
        requires
            (m * r) * (m * r) < (f * (m + 1)) * (f * (m + 1)),
            0 <= m * r,
            0 <= f * (m + 1),
    ;
    assert(r < f + 1) by (nonlinear_arith)
        requires
            m * r < f * (m + 1),
            f <= m,
            m > 0,
    ;
    // From below.
    let s = c + d;
    assert(s * s <= 2 * w) by (nonlinear_arith)
        requires
            s == c + d,
            w == c * c + d * d,
    ;
    assert(2 * s <= 3 * (m + 1)) by (nonlinear_arith)
        requires
            s * s <= 2 * w,
            w < (long + 1) * (long + 1),
            0 <= long <= m,
            0 <= s,
    ;
    assert(m * m * q >= f * f * w - 2 * f * m * s) by (nonlinear_arith)
        requires
            q == a * a + b * b,
            w == c * c + d * d,
            s == c + d,
            m * m * (a * a) >= f * f * (c * c) - 2 * f * m * c,
            m * m * (b * b) >= f * f * (d * d) - 2 * f * m * d,
    ;
    assert(f * f * w >= f * f * ((m - 2) * (m - 2))) by (nonlinear_arith)
        requires
            w >= long * long,
            long >= m - 2,
            m - 2 >= 0,
    ;
    assert(2 * f * m * s <= 3 * f * m * (m + 1)) by (nonlinear_arith)
        requires
            2 * s <= 3 * (m + 1),
            f >= 0,
            m > 0,
    ;
    assert(f * f * ((m - 2) * (m - 2)) - 3 * f * m * (m + 1) >= m * m * ((f - 4) * (f - 4)))
        by (nonlinear_arith)
        requires
            17 <= f <= m,
            m == 1_000_000,
    ;
    assert(q >= (f - 4) * (f - 4)) by (nonlinear_arith)
        requires
            m * m * q >= m * m * ((f - 4) * (f - 4)),
            m > 0,
    ;
    assert((f - 4) * (f - 4) < (f - 4 + 1) * (f - 4 + 1)) by (nonlinear_arith)
        requires
            f >= 4,
    ;
    assert(is_root((f - 4) * (f - 4), f - 4));
    lemma_root_unique((f - 4) * (f - 4), f - 4, root_spec((f - 4) * (f - 4)));
    lemma_root_monotone((f - 4) * (f - 4), q);
}

/// A vector no longer than 1, scaled by a factor `k` between 0 and 1, is no
/// longer than `k`.
pub proof fn lemma_scaled_short(g: Vec2, k: i64)
    requires
        g.length_spec() <= ONE,
        0 <= k <= ONE,
    ensures
        0 <= g.scaled_spec(k).length_spec() <= k,
        magnitude(g.scaled_spec(k).x) <= k,
        magnitude(g.scaled_spec(k).y) <= k,
{
    let m = ONE as int;
    let f = k as int;
    let w = g.x * g.x + g.y * g.y;
    let (c, d) = (magnitude(g.x), magnitude(g.y));
    assert(g.x * g.x == c * c && g.y * g.y == d * d) by (nonlinear_arith)
        requires
            c == g.x || c == -g.x,
            d == g.y || d == -g.y,
    ;
    assert(c * c >= 0 && d * d >= 0) by (nonlinear_arith);
    lemma_root_exists(w);
    let long = root_spec(w);
    lemma_within_root(g.x as int, g.y as int, long);
    lemma_unit_scaled_component(g.x, k);
    lemma_unit_scaled_component(g.y, k);
    let v = g.scaled_spec(k);
    let (a, b) = (magnitude(v.x), magnitude(v.y));
    let q = v.x * v.x + v.y * v.y;
    assert(v.x * v.x == a * a && v.y * v.y == b * b) by (nonlinear_arith)
        requires
            a == v.x || a == -v.x,
            b == v.y || b == -v.y,
    ;
    assert(a * a >= 0 && b * b >= 0) by (nonlinear_arith);
    lemma_root_exists(q);
    let r = root_spec(q);
    if f == 0 {
        assert(q == 0);
        lemma_root_unique(0, 0, r);
    } else {
        assert(m * m * q <= f * f * w) by (nonlinear_arith)
            requires
                q == a * a + b * b,
                w == c * c + d * d,
                m * m * (a * a) <= f * f * (c * c),
                m * m * (b * b) <= f * f * (d * d),
        ;
        assert((m * r) * (m * r) < (f * (m + 1)) * (f * (m + 1))) by (nonlinear_arith)
            requires
                r * r <= q,
                m * m * q <= f * f * w,
                w < (long + 1) * (long + 1),
                0 <= long <= m,
                f >= 1,
                m > 0,
        ;
        assert(m * r < f * (m + 1)) by (nonlinear_arith)
            requires
                (m * r) * (m * r) < (f * (m + 1)) * (f * (m + 1)),
                0 <= m * r,
                0 <= f * (m + 1),
        ;
        assert(r < f + 1) by (nonlinear_arith)
            requires
                m * r < f * (m + 1),
                f <= m,
                m > 0,
        ;
    }
}

/// The alignment of two vectors that are no longer than 1 is at most 1, and
/// two millionths for the rounding of their lengths.
pub proof fn lemma_dot_short(a: Vec2, b: Vec2)
    requires
        a.length_spec() <= ONE,
        b.length_spec() <= ONE,
    ensures
        a.dot_spec(b) <= ONE + 2,
{
    let m = ONE as int;
    let wa = a.x * a.x + a.y * a.y;
    let wb = b.x * b.x + b.y * b.y;
    assert(a.x * a.x >= 0 && a.y * a.y >= 0 && b.x * b.x >= 0 && b.y * b.y >= 0)
        by (nonlinear_arith);
    lemma_root_exists(wa);
    lemma_root_exists(wb);
    let p = a.x * b.x + a.y * b.y;
    let cross = a.x * b.y - a.y * b.x;
    let (e, f, g, h) = (a.x * a.x, a.y * a.y, b.x * b.x, b.y * b.y);
    let (t, u, v, z) = (a.x * b.x, a.y * b.y, a.x * b.y, a.y * b.x);
    assert(e * g == t * t && f * h == u * u && e * h == v * v && f * g == z * z && t * u == v
        * z) by (nonlinear_arith)
        requires
            e == a.x * a.x,
            f == a.y * a.y,
            g == b.x * b.x,
            h == b.y * b.y,
            t == a.x * b.x,
            u == a.y * b.y,
            v == a.x * b.y,
            z == a.y * b.x,
    ;
    assert((e + f) * (g + h) == e * g + e * h + f * g + f * h) by (nonlinear_arith);
    assert((t + u) * (t + u) == t * t + 2 * (t * u) + u * u) by (nonlinear_arith);
    assert((v - z) * (v - z) == v * v - 2 * (v * z) + z * z) by (nonlinear_arith);
    assert(wa * wb - p * p == cross * cross);
    assert(cross * cross >= 0) by (nonlinear_arith);
    let top = (m + 1) * (m + 1);
    let (ra, rb) = (root_spec(wa), root_spec(wb));
    assert((ra + 1) * (ra + 1) <= top && (rb + 1) * (rb + 1) <= top) by (nonlinear_arith)
        requires
            0 <= ra <= m,
            0 <= rb <= m,
            top == (m + 1) * (m + 1),
    ;
    assert(wa * wb < top * top) by (nonlinear_arith)
        requires
            0 <= wa < top,
            0 <= wb < top,
    ;
    assert(p < top) by (nonlinear_arith)
        requires
            p * p < top * top,
            top > 0,
    ;
    if p >= 0 {
        assert(p / m <= m + 2) by (nonlinear_arith)
            requires
                0 <= p < (m + 1) * (m + 1),
                m == 1_000_000,
        ;
    } else {
        assert((-p) / m >= 0) by (nonlinear_arith)
            requires
                -p > 0,
                m > 0,
        ;
    }
}

/// One component of `lemma_scaled_unit`.
proof fn lemma_unit_scaled_component(x: i64, k: i64)
    requires
        magnitude(x) <= ONE,
        0 <= k <= ONE,
    ensures
        ({
            let c = magnitude(x);
            let a = magnitude(times_spec(x, k));
            &&& a <= k
            &&& ONE * ONE * (a * a) <= k * k * (c * c)
            &&& k * k * (c * c) - 2 * k * ONE * c <= ONE * ONE * (a * a)
        }),
{
    let c = magnitude(x);
    let m = ONE as int;
    let f = k as int;
    let a = (c * f) / m;
    assert(0 <= c * f <= m * f) by (nonlinear_arith)
        requires
            0 <= c <= m,
            0 <= f,
    ;
    assert(m * a <= c * f < m * a + m && 0 <= a) by (nonlinear_arith)
        requires
            a == (c * f) / m,
            0 <= c * f,
            m > 0,
    ;
    assert(a <= f) by (nonlinear_arith)
        requires
            m * a <= c * f,
            c * f <= m * f,
            m > 0,
    ;
    assert(x * f == c * f || x * f == -(c * f)) by (nonlinear_arith)
        requires
            c == x || c == -x,
    ;
    assert(c * f == 0 ==> a == 0);
    assert(quot(x * f, m) == a || quot(x * f, m) == -a);
    assert(magnitude(times_spec(x, k)) == a);
    assert((m * a) * (m * a) <= (c * f) * (c * f)) by (nonlinear_arith)
        requires
            0 <= m * a <= c * f,
    ;
    assert((m * a) * (m * a) == m * m * (a * a)) by (nonlinear_arith);
    assert((c * f) * (c * f) == f * f * (c * c)) by (nonlinear_arith);
    if c * f >= m {
        assert((c * f - m) * (c * f - m) <= (m * a) * (m * a)) by (nonlinear_arith)
            requires
                0 <= c * f - m <= m * a,
        ;
        assert((c * f - m) * (c * f - m) == f * f * (c * c) - 2 * f * m * c + m * m)
            by (nonlinear_arith);
    } else {
        assert(f * f * (c * c) - 2 * f * m * c <= 0) by (nonlinear_arith)
            requires
                0 <= c * f < m,
                m > 0,
                0 <= c,
                0 <= f,
        ;
        assert(m * m * (a * a) >= 0) by (nonlinear_arith);
    }
}

/// Whether a point is a unit or more away from the limit in both
/// directions, so that nothing a unit long that is added to it saturates.
pub open spec fn clear_of_limit(p: Vec2) -> bool {
    magnitude(p.x) + ONE <= LIMIT && magnitude(p.y) + ONE <= LIMIT
}

/// Whether `v` scaled by `k` stays clear of the limit: each component of the
/// result is at most half of `LIMIT`.
pub open spec fn scales_freely(v: Vec2, k: i64) -> bool {
    2 * magnitude(v.x) * k <= LIMIT * ONE && 2 * magnitude(v.y) * k <= LIMIT * ONE
}

/// The squared length of a vector scaled by `k >= 1`, times `ONE^2`, lies
/// between `k^2 n - 2 k ONE (|x| + |y|)` and `k^2 n`, where `n` is the squared
/// length of the vector.
pub proof fn lemma_scaled_square(v: Vec2, k: i64)
    requires
        ONE <= k,
        scales_freely(v, k),
    ensures
        ({
            let s = v.scaled_spec(k);
            let n = v.x * v.x + v.y * v.y;
            let q = s.x * s.x + s.y * s.y;
            &&& 2 * magnitude(s.x) <= LIMIT
            &&& 2 * magnitude(s.y) <= LIMIT
            &&& ONE * ONE * q <= k * k * n
            &&& k * k * n - 2 * k * ONE * (magnitude(v.x) + magnitude(v.y)) <= ONE * ONE * q
        }),
{
    lemma_scaled_component(v.x, k);
    lemma_scaled_component(v.y, k);
    let s = v.scaled_spec(k);
    let (a, b) = (magnitude(v.x), magnitude(v.y));
    let (c, d) = (magnitude(s.x), magnitude(s.y));
    assert(v.x * v.x == a * a && v.y * v.y == b * b) by (nonlinear_arith)
        requires
            a == v.x || a == -v.x,
            b == v.y || b == -v.y,
    ;
    assert(s.x * s.x == c * c && s.y * s.y == d * d) by (nonlinear_arith)
        requires
            c == s.x || c == -s.x,
            d == s.y || d == -s.y,
    ;
    assert(ONE * ONE * (c * c + d * d) == ONE * ONE * (c * c) + ONE * ONE * (d * d))
        by (nonlinear_arith);
    assert(k * k * (a * a + b * b) == k * k * (a * a) + k * k * (b * b)) by (nonlinear_arith);
    assert(2 * k * ONE * (a + b) == 2 * k * ONE * a + 2 * k * ONE * b) by (nonlinear_arith);
}

/// One component of `lemma_scaled_square`.
proof fn lemma_scaled_component(x: i64, k: i64)
    requires
        ONE <= k,
        2 * magnitude(x) * k <= LIMIT * ONE,
    ensures
        ({
            let a = magnitude(x);
            let c = magnitude(times_spec(x, k));
            &&& 2 * c <= LIMIT
            &&& ONE * ONE * (c * c) <= k * k * (a * a)
            &&& k * k * (a * a) - 2 * k * ONE * a <= ONE * ONE * (c * c)
        }),
{
    let a = magnitude(x);
    let m = ONE as int;
    let g = k as int;
    let c = (a * g) / m;
    assert(0 <= a * g) by (nonlinear_arith)
        requires
            0 <= a,
            0 <= g,
    ;
    assert(m * c <= a * g < m * c + m && 0 <= c) by (nonlinear_arith)
        requires
            c == (a * g) / m,
            0 <= a * g,
            m > 0,
    ;
    assert(x * g == a * g || x * g == -(a * g)) by (nonlinear_arith)
        requires
            a == x || a == -x,
    ;
    assert(a * g == 0 ==> c == 0);
    assert(quot(x * g, m) == c || quot(x * g, m) == -c);
    assert(2 * (a * g) == 2 * a * g) by (nonlinear_arith);
    assert(2 * c <= LIMIT) by (nonlinear_arith)
        requires
            m * c <= a * g,
            2 * (a * g) <= LIMIT * m,
            m > 0,
    ;
    assert(magnitude(times_spec(x, k)) == c);
    assert((m * c) * (m * c) <= (a * g) * (a * g)) by (nonlinear_arith)
        requires
            0 <= m * c <= a * g,
    ;
    assert((m * c) * (m * c) == m * m * (c * c)) by (nonlinear_arith);
    assert((a * g) * (a * g) == g * g * (a * a)) by (nonlinear_arith);
    if a >= 1 {
        assert(a * g >= m) by (nonlinear_arith)
            requires
                a >= 1,
                g >= m,
                m > 0,
        ;
        assert((a * g - m) * (a * g - m) <= (m * c) * (m * c)) by (nonlinear_arith)
            requires
                0 <= a * g - m <= m * c,
        ;
        assert((a * g - m) * (a * g - m) == g * g * (a * a) - 2 * g * m * a + m * m)
            by (nonlinear_arith);
    } else {
        assert(g * g * (a * a) - 2 * g * m * a == 0) by (nonlinear_arith)
            requires
                a == 0,
        ;
        assert(m * m * (c * c) >= 0) by (nonlinear_arith);
    }
}

/// A vector scaled by a factor `k` between 1 and 2 is `k` times as long, up
/// to rounding: no shorter than `k` times its length by more than four
/// millionths, and no longer than `k` times its length and a millionth.
pub proof fn lemma_scaled_length(v: Vec2, k: i64)
    requires
        ONE <= k <= 2 * ONE,
        scales_freely(v, k),
    ensures
        times_spec(v.length_spec(), k) - 4 <= v.scaled_spec(k).length_spec() <= times_spec(
            (v.length_spec() + 1) as i64,
            k,
        ),
{
    let m = ONE as int;
    let g = k as int;
    let n = v.x * v.x + v.y * v.y;
    let (a, b) = (magnitude(v.x), magnitude(v.y));
    lemma_scaled_square(v, k);
    let w = v.scaled_spec(k);
    let q = w.x * w.x + w.y * w.y;
    assert(v.x * v.x == a * a && v.y * v.y == b * b) by (nonlinear_arith)
        requires
            a == v.x || a == -v.x,
            b == v.y || b == -v.y,
    ;
    assert(a * a >= 0 && b * b >= 0) by (nonlinear_arith);
    assert(w.x * w.x >= 0 && w.y * w.y >= 0) by (nonlinear_arith);
    lemma_root_exists(n);
    lemma_root_exists(q);
    let len = root_spec(n);
    let out = root_spec(q);
    // Nothing saturates.
    assert(2 * a <= LIMIT && 2 * b <= LIMIT) by (nonlinear_arith)
        requires
            2 * a * g <= LIMIT * m,
            2 * b * g <= LIMIT * m,
            0 <= a,
            0 <= b,
            g >= m,
            m > 0,
    ;
    assert(n <= LIMIT * LIMIT) by (nonlinear_arith)
        requires
            n == a * a + b * b,
            0 <= 2 * a <= LIMIT,
            0 <= 2 * b <= LIMIT,
    ;
    assert(len <= LIMIT) by (nonlinear_arith)
        requires
            len * len <= n,
            n <= LIMIT * LIMIT,
            0 <= len,
            LIMIT >= 0,
    ;
    assert(v.length_spec() == len);
    assert(2 * n <= LIMIT * LIMIT) by (nonlinear_arith)
        requires
            n == a * a + b * b,
            0 <= 2 * a <= LIMIT,
            0 <= 2 * b <= LIMIT,
    ;
    assert(2 * len + 2 <= 2 * LIMIT) by (nonlinear_arith)
        requires
            len * len <= n,
            2 * n <= LIMIT * LIMIT,
            0 <= len,
            LIMIT >= 4,
    ;
    let (c, d) = (magnitude(w.x), magnitude(w.y));
    assert(w.x * w.x == c * c && w.y * w.y == d * d) by (nonlinear_arith)
        requires
            c == w.x || c == -w.x,
            d == w.y || d == -w.y,
    ;
    assert(q <= LIMIT * LIMIT) by (nonlinear_arith)
        requires
            q == c * c + d * d,
            0 <= 2 * c <= LIMIT,
            0 <= 2 * d <= LIMIT,
    ;
    assert(out <= LIMIT) by (nonlinear_arith)
        requires
            out * out <= q,
            q <= LIMIT * LIMIT,
            0 <= out,
            LIMIT >= 0,
    ;
    assert(w.length_spec() == out);
    let full = LIMIT * m;
    let reach = len * g;
    assert((2 * a * g) * (2 * a * g) <= full * full && (2 * b * g) * (2 * b * g) <= full * full)
        by (nonlinear_arith)
        requires
            0 <= 2 * a * g <= full,
            0 <= 2 * b * g <= full,
    ;
    assert((2 * a * g) * (2 * a * g) + (2 * b * g) * (2 * b * g) == 4 * (g * g * n))
        by (nonlinear_arith)
        requires
            n == a * a + b * b,
    ;
    assert(reach * reach <= g * g * n) by (nonlinear_arith)
        requires
            reach == len * g,
            len * len <= n,
            0 <= len,
    ;
    assert(reach + g <= full) by (nonlinear_arith)
        requires
            2 * (reach * reach) <= full * full,
            0 <= reach,
            0 < g <= 2_000_000,
            full == 1_000_000_000_000_000_000_000,
    ;
    // From above.
    let top = ((len + 1) * g) / m;
    assert(0 <= (len + 1) * g) by (nonlinear_arith)
        requires
            0 <= len,
            0 <= g,
    ;
    assert(m * top <= (len + 1) * g < m * top + m && top >= 0) by (nonlinear_arith)
        requires
            top == ((len + 1) * g) / m,
            0 <= (len + 1) * g,
            m > 0,
    ;
    assert((m * out) * (m * out) < ((len + 1) * g) * ((len + 1) * g)) by (nonlinear_arith)
        requires
            out * out <= q,
            m * m * q <= g * g * n,
            n < (len + 1) * (len + 1),
            g > 0,
    ;
    assert(m * out < (len + 1) * g) by (nonlinear_arith)
        requires
            (m * out) * (m * out) < ((len + 1) * g) * ((len + 1) * g),
            0 <= m * out,
            0 <= (len + 1) * g,
    ;
    assert(out <= top) by (nonlinear_arith)
        requires
            m * out < (len + 1) * g,
            (len + 1) * g < m * top + m,
            m > 0,
    ;
    assert((len + 1) * g == reach + g) by (nonlinear_arith)
        requires
            reach == len * g,
    ;
    assert(top <= LIMIT) by (nonlinear_arith)
        requires
            m * top <= (len + 1) * g,
            (len + 1) * g <= LIMIT * m,
            m > 0,
    ;
    assert(times_spec((len + 1) as i64, k) == top);
    // From below.
    let low = (len * g) / m;
    assert(0 <= len * g) by (nonlinear_arith)
        requires
            0 <= len,
            0 <= g,
    ;
    assert(m * low <= len * g && low >= 0) by (nonlinear_arith)
        requires
            low == (len * g) / m,
            0 <= len * g,
            m > 0,
    ;
    assert(low <= LIMIT) by (nonlinear_arith)
        requires
            m * low <= len * g,
            len * g <= LIMIT * m,
            m > 0,
    ;
    assert(times_spec(len as i64, k) == low);
    if low >= 5 {
        let s = a + b;
        assert(s * s <= 2 * n) by (nonlinear_arith)
            requires
                s == a + b,
                n == a * a + b * b,
        ;
        assert(2 * s <= 3 * (len + 1)) by (nonlinear_arith)
            requires
                s * s <= 2 * n,
                n < (len + 1) * (len + 1),
                0 <= s,
                0 <= len,
        ;
        assert(g * g * n >= g * g * (len * len)) by (nonlinear_arith)
            requires
                n >= len * len,
        ;
        assert(2 * g * m * s <= 3 * g * m * (len + 1)) by (nonlinear_arith)
            requires
                2 * s <= 3 * (len + 1),
                g > 0,
                m > 0,
        ;
        assert(g * g * (len * len) == reach * reach) by (nonlinear_arith)
            requires
                reach == len * g,
        ;
        assert(3 * g * m * (len + 1) == 3 * m * reach + 3 * g * m) by (nonlinear_arith)
            requires
                reach == len * g,
        ;
        assert(reach * reach - 3 * m * reach - 3 * g * m >= (reach - 3 * m) * (reach - 3 * m))
            by (nonlinear_arith)
            requires
                reach >= 5 * m,
                g <= 2 * m,
                m > 0,
        ;
        assert((reach - 3 * m) * (reach - 3 * m) >= (m * low - 3 * m) * (m * low - 3 * m))
            by (nonlinear_arith)
            requires
                reach >= m * low,
                m * low >= 3 * m,
        ;
        assert((m * low - 3 * m) * (m * low - 3 * m) == m * m * ((low - 3) * (low - 3)))
            by (nonlinear_arith);
        assert(q >= (low - 3) * (low - 3)) by (nonlinear_arith)
            requires
                m * m * q >= m * m * ((low - 3) * (low - 3)),
                m > 0,
        ;
        assert((low - 3) * (low - 3) < (low - 3 + 1) * (low - 3 + 1)) by (nonlinear_arith)
            requires
                low >= 3,
        ;
        assert(is_root((low - 3) * (low - 3), low - 3));
        lemma_root_unique((low - 3) * (low - 3), low - 3, root_spec((low - 3) * (low - 3)));
        lemma_root_monotone((low - 3) * (low - 3), q);
    }
}

/// Scaling by a factor of at least 1 keeps the longer of two vectors the
/// longer, once their lengths differ by 4 millionths or more.
pub proof fn lemma_scaled_keeps_order(slow: Vec2, fast: Vec2, k: i64)
    requires
        ONE <= k,
        scales_freely(slow, k),
        scales_freely(fast, k),
        slow.length_spec() + 4 <= fast.length_spec(),
    ensures
        slow.scaled_spec(k).length_spec() <= fast.scaled_spec(k).length_spec(),
{
    let m = ONE as int;
    let g = k as int;
    let ns = slow.x * slow.x + slow.y * slow.y;
    let nf = fast.x * fast.x + fast.y * fast.y;
    let ls = root_spec(ns);
    let lf = root_spec(nf);
    let (a, b) = (magnitude(fast.x), magnitude(fast.y));
    lemma_scaled_square(slow, k);
    lemma_scaled_square(fast, k);
    let ss = slow.scaled_spec(k);
    let sf = fast.scaled_spec(k);
    let qs = ss.x * ss.x + ss.y * ss.y;
    let qf = sf.x * sf.x + sf.y * sf.y;
    assert(fast.x * fast.x == a * a && fast.y * fast.y == b * b) by (nonlinear_arith)
        requires
            a == fast.x || a == -fast.x,
            b == fast.y || b == -fast.y,
    ;
    assert(slow.x * slow.x >= 0 && slow.y * slow.y >= 0) by (nonlinear_arith);
    assert(a * a >= 0 && b * b >= 0) by (nonlinear_arith);
    lemma_root_exists(ns);
    lemma_root_exists(nf);
    // Neither length reaches the limit, so both are the roots themselves.
    assert(2 * a <= LIMIT && 2 * b <= LIMIT) by (nonlinear_arith)
        requires
            2 * a * g <= LIMIT * m,
            2 * b * g <= LIMIT * m,
            0 <= a,
            0 <= b,
            g >= m,
            m > 0,
    ;
    assert(nf <= LIMIT * LIMIT) by (nonlinear_arith)
        requires
            nf == a * a + b * b,
            0 <= 2 * a <= LIMIT,
            0 <= 2 * b <= LIMIT,
    ;
    assert(lf <= LIMIT) by (nonlinear_arith)
        requires
            lf * lf <= nf,
            nf <= LIMIT * LIMIT,
            0 <= lf,
            LIMIT >= 0,
    ;
    assert(fast.length_spec() == lf);
    assert(ls + 4 <= lf);
    // The sum of the components is at most one and a half lengths.
    let s = a + b;
    assert(s * s <= 2 * nf) by (nonlinear_arith)
        requires
            s == a + b,
            nf == a * a + b * b,
    ;
    assert(2 * s <= 3 * (lf + 1)) by (nonlinear_arith)
        requires
            s * s <= 2 * nf,
            nf < (lf + 1) * (lf + 1),
            0 <= s,
            0 <= lf,
    ;
    // The fast vector stays ahead after scaling.
    assert(g * g * nf >= g * g * (lf * lf)) by (nonlinear_arith)
        requires
            nf >= lf * lf,
    ;
    assert(2 * g * m * s <= 3 * g * m * (lf + 1)) by (nonlinear_arith)
        requires
            2 * s <= 3 * (lf + 1),
            g > 0,
            m > 0,
    ;
    assert(g * g * (lf * lf) - 3 * g * m * (lf + 1) >= g * g * ((lf - 3) * (lf - 3)))
        by (nonlinear_arith)
        requires
            lf >= 4,
            g >= m,
            m > 0,
    ;
    assert(g * g * ((lf - 3) * (lf - 3)) >= g * g * ((ls + 1) * (ls + 1))) by (nonlinear_arith)
        requires
            0 <= ls + 1 <= lf - 3,
    ;
    assert(g * g * ((ls + 1) * (ls + 1)) > g * g * ns) by (nonlinear_arith)
        requires
            ns < (ls + 1) * (ls + 1),
            g > 0,
    ;
    assert(m * m * qs < m * m * qf);
    assert(qs < qf) by (nonlinear_arith)
        requires
            m * m * qs < m * m * qf,
            m > 0,
    ;
    assert(ss.x * ss.x >= 0 && ss.y * ss.y >= 0) by (nonlinear_arith);
    lemma_root_monotone(qs, qf);
}

} // verus!
