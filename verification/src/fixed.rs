//! Decimal fixed-point arithmetic.
//!
//! Every quantity of the simulation (lengths, speeds, factors, seconds) is an
//! `i64` that counts millionths: `ONE` stands for 1, `820_000` for 0.82.
//! A value is in range when its magnitude is at most `LIMIT`; every operation
//! takes values in range and gives one in range, saturating at `LIMIT` instead
//! of overflowing. Products and quotients round toward zero, so that changing
//! the sign of an operand changes the sign of the result and nothing else.
//!
//! Where six digits are too few, a quantity is kept fine: it counts
//! millionths of millionths. The speed of a flying hook is the one such
//! quantity; `coarse` brings it back to millionths.

use vstd::prelude::*;

verus! {

/// The number 1.
pub const ONE: i64 = 1_000_000;

/// The number one half.
pub const HALF: i64 = 500_000;

/// The largest magnitude a quantity can have (a thousand million units).
pub const LIMIT: i64 = 1_000_000_000_000_000;

/// Whether `a` is a quantity the arithmetic accepts.
pub open spec fn in_range(a: i64) -> bool {
    -LIMIT <= a <= LIMIT
}

/// `a`, or the nearest bound of the range where `a` lies outside it.
pub open spec fn clamp_spec(a: int) -> i64 {
    if a < -LIMIT {
        (-LIMIT) as i64
    } else if a > LIMIT {
        LIMIT
    } else {
        a as i64
    }
}

/// The quotient of `a` by a positive `b`, rounded toward zero.
pub open spec fn quot(a: int, b: int) -> int
    recommends
        b > 0,
{
    if a >= 0 {
        a / b
    } else {
        -((-a) / b)
    }
}

/// A fine quantity counts millionths of millionths. This is the same
/// quantity counted in millionths, rounded toward zero.
pub open spec fn coarse_spec(fine: i64) -> i64 {
    quot(fine as int, ONE as int) as i64
}

/// The sum of two quantities, saturating.
pub open spec fn plus_spec(a: i64, b: i64) -> i64 {
    clamp_spec(a + b)
}

/// The difference of two quantities, saturating.
pub open spec fn minus_spec(a: i64, b: i64) -> i64 {
    clamp_spec(a - b)
}

/// The product of two quantities: `a * b / ONE`, rounded toward zero.
pub open spec fn times_spec(a: i64, b: i64) -> i64 {
    clamp_spec(quot(a * b, ONE as int))
}

/// The quotient of two quantities: `a * ONE / b`, rounded toward zero.
/// Dividing by zero gives zero.
pub open spec fn over_spec(a: i64, b: i64) -> i64 {
    if b > 0 {
        clamp_spec(quot(a * ONE, b as int))
    } else if b < 0 {
        clamp_spec(-quot(a * ONE, -b))
    } else {
        0
    }
}

pub open spec fn min_spec(a: i64, b: i64) -> i64 {
    if a <= b {
        a
    } else {
        b
    }
}

pub open spec fn max_spec(a: i64, b: i64) -> i64 {
    if a >= b {
        a
    } else {
        b
    }
}

/// Whether `r` is the integer square root of `n`.
pub open spec fn is_root(n: int, r: int) -> bool {
    0 <= r && r * r <= n < (r + 1) * (r + 1)
}

/// The integer square root of `n`: the largest `r` with `r * r <= n`.
pub open spec fn root_spec(n: int) -> int {
    choose|r: int| is_root(n, r)
}

/// `x^2 (3 - 2x)` for a quantity `x`, as a whole number of `ONE^3`-ths.
pub open spec fn ease(x: int) -> int {
    x * x * (3 * ONE - 2 * x)
}

/// The cubic ease curve `3x^2 - 2x^3` on `[0, 1]`, 0 below and 1 above. The
/// polynomial is taken exactly and rounded down once.
pub open spec fn smoothstep_spec(x: i64) -> i64 {
    if x < 0 {
        0
    } else if x > ONE {
        ONE
    } else {
        (ease(x as int) / (ONE * ONE)) as i64
    }
}

/// A number has at most one integer square root.
pub proof fn lemma_root_unique(n: int, r1: int, r2: int)
    requires
        is_root(n, r1),
        is_root(n, r2),
    ensures
        r1 == r2,
{
    if r1 < r2 {
        assert((r1 + 1) * (r1 + 1) <= r2 * r2) by (nonlinear_arith)
            requires
                0 <= r1 + 1 <= r2,
        ;
    } else if r2 < r1 {
        assert((r2 + 1) * (r2 + 1) <= r1 * r1) by (nonlinear_arith)
            requires
                0 <= r2 + 1 <= r1,
        ;
    }
}

/// The product of two bounded numbers is bounded by the product of the bounds.
pub proof fn lemma_product_bound(a: int, b: int, m: int, n: int)
    requires
        -m <= a <= m,
        -n <= b <= n,
    ensures
        -(m * n) <= a * b <= m * n,
{
    assert(-(m * n) <= a * b <= m * n) by (nonlinear_arith)
        requires
            -m <= a <= m,
            -n <= b <= n,
    ;
}

/// Rounding toward zero keeps the sign and never grows the magnitude.
pub proof fn lemma_quot_bound(a: int, b: int, m: int)
    requires
        b > 0,
        -m <= a <= m,
    ensures
        -m <= quot(a, b) <= m,
        a >= 0 ==> quot(a, b) >= 0,
        a <= 0 ==> quot(a, b) <= 0,
{
    if a >= 0 {
        assert(0 <= a / b <= a) by (nonlinear_arith)
            requires
                b > 0,
                a >= 0,
        ;
    } else {
        assert(0 <= (-a) / b <= -a) by (nonlinear_arith)
            requires
                b > 0,
                -a >= 0,
        ;
    }
}

/// Rounding toward zero commutes with a change of sign.
pub proof fn lemma_quot_neg(a: int, b: int)
    requires
        b > 0,
    ensures
        quot(-a, b) == -quot(a, b),
{
    if a == 0 {
        assert(0int / b == 0) by (nonlinear_arith)
            requires
                b > 0,
        ;
    }
}

/// Tells whether `a` is in range.
pub fn fits(a: i64) -> (r: bool)
    ensures
        r == in_range(a),
{
    -LIMIT <= a && a <= LIMIT
}

/// Brings `a` into range.
pub fn clamp(a: i128) -> (r: i64)
    ensures
        r == clamp_spec(a as int),
        in_range(r),
{
    if a < -(LIMIT as i128) {
        -LIMIT
    } else if a > LIMIT as i128 {
        LIMIT
    } else {
        a as i64
    }
}

/// A fine quantity, counted in millionths.
pub fn coarse(fine: i64) -> (r: i64)
    requires
        in_range(fine),
    ensures
        r == coarse_spec(fine),
        in_range(r),
{
    proof {
        lemma_quot_bound(fine as int, ONE as int, LIMIT as int);
    }
    fine / ONE
}

/// `a + b`, saturating.
pub fn plus(a: i64, b: i64) -> (r: i64)
    requires
        in_range(a),
        in_range(b),
    ensures
        r == plus_spec(a, b),
        in_range(r),
{
    clamp(a as i128 + b as i128)
}

/// `a - b`, saturating.
pub fn minus(a: i64, b: i64) -> (r: i64)
    requires
        in_range(a),
        in_range(b),
    ensures
        r == minus_spec(a, b),
        in_range(r),
{
    clamp(a as i128 - b as i128)
}

/// The product of two quantities.
pub fn times(a: i64, b: i64) -> (r: i64)
    requires
        in_range(a),
        in_range(b),
    ensures
        r == times_spec(a, b),
        in_range(r),
{
    proof {
        lemma_product_bound(a as int, b as int, LIMIT as int, LIMIT as int);
    }
    let p: i128 = a as i128 * b as i128;
    clamp(p / (ONE as i128))
}

/// The quotient of two quantities; zero where `b` is zero.
pub fn over(a: i64, b: i64) -> (r: i64)
    requires
        in_range(a),
        in_range(b),
    ensures
        r == over_spec(a, b),
        in_range(r),
{
    if b == 0 {
        return 0;
    }
    proof {
        lemma_product_bound(a as int, ONE as int, LIMIT as int, ONE as int);
    }
    let p: i128 = a as i128 * ONE as i128;
    if b > 0 {
        clamp(p / (b as i128))
    } else {
        let q: i128 = p / (-(b as i128));
        proof {
            lemma_quot_bound(p as int, -(b as int), LIMIT as int * ONE as int);
        }
        clamp(-q)
    }
}

pub fn min(a: i64, b: i64) -> (r: i64)
    ensures
        r == min_spec(a, b),
{
    if a <= b {
        a
    } else {
        b
    }
}

pub fn max(a: i64, b: i64) -> (r: i64)
    ensures
        r == max_spec(a, b),
{
    if a >= b {
        a
    } else {
        b
    }
}

/// The integer square root, found by bisection.
pub fn sqrt(n: u128) -> (r: u64)
    ensures
        r as int == root_spec(n as int),
        is_root(n as int, r as int),
{
    let mut lo: u128 = 0;
    let mut hi: u128 = 0x1_0000_0000_0000_0000;
    while hi - lo > 1
        invariant
            lo < hi <= 0x1_0000_0000_0000_0000,
            lo * lo <= n,
            n < hi * hi,
        decreases hi - lo,
    {
        let mid: u128 = lo + (hi - lo) / 2;
        assert(mid * mid <= 0xFFFF_FFFF_FFFF_FFFF * 0xFFFF_FFFF_FFFF_FFFF) by (nonlinear_arith)
            requires
                0 <= mid <= 0xFFFF_FFFF_FFFF_FFFF,
        ;
        if mid * mid <= n {
            lo = mid;
        } else {
            hi = mid;
        }
    }
    proof {
        assert(hi == lo + 1);
        assert(is_root(n as int, lo as int));
        lemma_root_unique(n as int, lo as int, root_spec(n as int));
    }
    lo as u64
}

/// The cubic ease curve.
pub fn smoothstep(x: i64) -> (r: i64)
    ensures
        r == smoothstep_spec(x),
        0 <= r <= ONE,
{
    if x < 0 {
        0
    } else if x > ONE {
        ONE
    } else {
        proof {
            lemma_ease_grows(0, x as int);
            lemma_ease_grows(x as int, ONE as int);
            lemma_ease_ends();
            assert(x * x <= ONE * ONE) by (nonlinear_arith)
                requires
                    0 <= x <= ONE,
            ;
            assert(x * x >= 0) by (nonlinear_arith);
            assert(x * x * (3 * ONE - 2 * x) == ease(x as int));
            assert(ease(x as int) / (ONE * ONE) <= ONE) by (nonlinear_arith)
                requires
                    0 <= ease(x as int) <= ONE * ONE * ONE,
            ;
            assert(0 <= ease(x as int) / (ONE * ONE)) by (nonlinear_arith)
                requires
                    0 <= ease(x as int),
            ;
        }
        let wide: i128 = x as i128;
        let square: i128 = wide * wide;
        let cubic: i128 = square * (3 * (ONE as i128) - 2 * wide);
        (cubic / ((ONE as i128) * (ONE as i128))) as i64
    }
}

/// The ease polynomial is 0 at 0 and `ONE^3` at 1.
pub proof fn lemma_ease_ends()
    ensures
        ease(0) == 0,
        ease(ONE as int) == ONE * ONE * ONE,
{
    assert(ease(0) == 0) by (nonlinear_arith)
        requires
            ease(0) == 0 * 0 * (3 * ONE - 2 * 0),
    ;
    assert(ONE * ONE * (3 * ONE - 2 * ONE) == ONE * ONE * ONE) by (nonlinear_arith);
}

/// The ease polynomial grows on `[0, 1]`.
pub proof fn lemma_ease_grows(x: int, y: int)
    requires
        0 <= x <= y <= ONE,
    ensures
        ease(x) <= ease(y),
{
    let m = ONE as int;
    let d = y - x;
    let p = 3 * m * (x + y) - 2 * (x * x + x * y + y * y);
    assert(x * x <= m * x && y * y <= m * y && x * y <= m * x && x * y <= m * y)
        by (nonlinear_arith)
        requires
            0 <= x <= y <= m,
    ;
    assert(3 * m * (x + y) == 3 * (m * x) + 3 * (m * y)) by (nonlinear_arith);
    assert(p >= 0);
    assert(y * y * (3 * m - 2 * y) - x * x * (3 * m - 2 * x) == d * p) by (nonlinear_arith)
        requires
            d == y - x,
            p == 3 * m * (x + y) - 2 * (x * x + x * y + y * y),
    ;
    assert(d * p >= 0) by (nonlinear_arith)
        requires
            d >= 0,
            p >= 0,
    ;
}

/// The ease curve never falls: a later argument gives a value at least as
/// large.
pub proof fn lemma_smoothstep_grows(x: i64, y: i64)
    requires
        x <= y,
    ensures
        0 <= smoothstep_spec(x) <= smoothstep_spec(y) <= ONE,
{
    let m = ONE as int;
    lemma_ease_ends();
    if 0 <= x && x <= ONE {
        lemma_ease_grows(0, x as int);
        lemma_ease_grows(x as int, m);
    }
    if 0 <= y && y <= ONE {
        lemma_ease_grows(0, y as int);
        lemma_ease_grows(y as int, m);
    }
    if 0 <= x && y <= ONE {
        lemma_ease_grows(x as int, y as int);
    }
    assert forall|a: int, b: int| 0 <= a <= b implies 0 <= #[trigger] (a / (m * m)) <= #[trigger] (b
        / (m * m)) by {
        assert(0 <= a / (m * m) <= b / (m * m)) by (nonlinear_arith)
            requires
                0 <= a <= b,
                m * m > 0,
        ;
    }
    assert(m * m * m / (m * m) == m) by (nonlinear_arith)
        requires
            m > 0,
    ;
    if 0 <= x && x <= ONE {
        assert(0 <= ease(x as int) / (m * m) <= (m * m * m) / (m * m));
    }
    if 0 <= y && y <= ONE {
        assert(0 <= ease(y as int) / (m * m) <= (m * m * m) / (m * m));
    }
    if 0 <= x && y <= ONE {
        assert(ease(x as int) / (m * m) <= ease(y as int) / (m * m));
    }
}

/// The ease curve reaches 1 at 1 and not before.
pub proof fn lemma_smoothstep_full(x: i64)
    ensures
        smoothstep_spec(x) == ONE <==> x >= ONE,
{
    let m = ONE as int;
    lemma_ease_ends();
    assert(m * m * m / (m * m) == m) by (nonlinear_arith)
        requires
            m > 0,
    ;
    if 0 <= x && x < ONE {
        let gap = m - x;
        assert(ease(x as int) == m * m * m - gap * gap * (m + 2 * x)) by (nonlinear_arith)
            requires
                gap == m - x,
                ease(x as int) == x * x * (3 * m - 2 * x),
        ;
        assert(gap * gap * (m + 2 * x) > 0) by (nonlinear_arith)
            requires
                gap > 0,
                m + 2 * x > 0,
        ;
        assert(ease(x as int) / (m * m) < m) by (nonlinear_arith)
            requires
                ease(x as int) < m * (m * m),
                m * m > 0,
        ;
        assert(m * m * m == m * (m * m)) by (nonlinear_arith);
    }
}

/// The ease curve is its own mirror image: the value at `1 - x` and the
/// value at `x` add up to 1, less a millionth where rounding took one.
pub proof fn lemma_smoothstep_mirror(x: i64)
    requires
        0 <= x <= ONE,
    ensures
        ONE - 1 <= smoothstep_spec(x) + smoothstep_spec((ONE - x) as i64) <= ONE,
{
    let m = ONE as int;
    let a = ease(x as int);
    let b = ease(m - x);
    assert(a + b == m * m * m) by (nonlinear_arith)
        requires
            a == x * x * (3 * m - 2 * x),
            b == (m - x) * (m - x) * (3 * m - 2 * (m - x)),
    ;
    lemma_ease_grows(0, x as int);
    lemma_ease_grows(0, m - x);
    lemma_ease_ends();
    assert(m - 1 <= a / (m * m) + b / (m * m) <= m) by (nonlinear_arith)
        requires
            a + b == m * (m * m),
            0 <= a,
            0 <= b,
            m * m > 0,
    ;
    assert(m * m * m == m * (m * m)) by (nonlinear_arith);
}

/// A part of a quantity that is not negative is not negative and no larger
/// than the quantity: `times_spec(a, b)` lies between 0 and `b` where `a`
/// lies between 0 and 1.
pub proof fn lemma_times_part(a: i64, b: i64)
    requires
        0 <= a <= ONE,
        0 <= b <= LIMIT,
    ensures
        0 <= times_spec(a, b) <= b,
{
    assert(0 <= a * b <= ONE * b) by (nonlinear_arith)
        requires
            0 <= a <= ONE,
            0 <= b,
    ;
    assert(0 <= (a * b) / (ONE as int) <= b) by (nonlinear_arith)
        requires
            0 <= a * b <= ONE * b,
    ;
}

/// Taking a part of a quantity does not make it larger: the size of
/// `times_spec(x, f)` is at most the size of `x` where `f` lies between 0
/// and 1, and the sign stays.
pub proof fn lemma_times_shrinks(x: i64, f: i64)
    requires
        in_range(x),
        0 <= f <= ONE,
    ensures
        magnitude(times_spec(x, f)) <= magnitude(x),
        x >= 0 ==> times_spec(x, f) >= 0,
        x <= 0 ==> times_spec(x, f) <= 0,
{
    let a = magnitude(x);
    assert(0 <= a * f <= a * ONE) by (nonlinear_arith)
        requires
            0 <= a,
            0 <= f <= ONE,
    ;
    assert(0 <= (a * f) / (ONE as int) <= a) by (nonlinear_arith)
        requires
            0 <= a * f <= a * ONE,
    ;
    assert(x * f == a * f || x * f == -(a * f)) by (nonlinear_arith)
        requires
            a == x || a == -x,
    ;
    assert(x >= 0 ==> x * f >= 0) by (nonlinear_arith)
        requires
            f >= 0,
    ;
    assert(x <= 0 ==> x * f <= 0) by (nonlinear_arith)
        requires
            f >= 0,
    ;
    assert(a * f == 0 ==> (a * f) / (ONE as int) == 0);
}

/// A quotient grows with what is divided, for a divisor above zero.
pub proof fn lemma_over_grows(a: i64, b: i64, k: i64)
    requires
        a <= b,
        0 < k,
    ensures
        over_spec(a, k) <= over_spec(b, k),
{
    let m = ONE as int;
    let d = k as int;
    assert(a * m <= b * m) by (nonlinear_arith)
        requires
            a <= b,
            m > 0,
    ;
    let (p, q) = (a * m, b * m);
    if p >= 0 {
        assert(0 <= p / d <= q / d) by (nonlinear_arith)
            requires
                0 <= p <= q,
                d > 0,
        ;
    } else if q >= 0 {
        assert((-p) / d >= 0 && q / d >= 0) by (nonlinear_arith)
            requires
                -p > 0,
                q >= 0,
                d > 0,
        ;
    } else {
        assert(0 <= (-q) / d <= (-p) / d) by (nonlinear_arith)
            requires
                0 <= -q <= -p,
                d > 0,
        ;
    }
}

/// Multiplying by 1 changes nothing, and multiplying by 0 gives 0.
pub proof fn lemma_times_unit(a: i64)
    requires
        in_range(a),
    ensures
        times_spec(a, ONE) == a,
        times_spec(ONE, a) == a,
        times_spec(a, 0) == 0,
        times_spec(0, a) == 0,
{
    assert(a * ONE == ONE * a) by (nonlinear_arith);
    assert((a * ONE) / (ONE as int) == a) by (nonlinear_arith);
    assert((-(a * ONE)) / (ONE as int) == -a) by (nonlinear_arith);
    assert(a * 0 == 0 && 0 * a == 0) by (nonlinear_arith);
}

/// The size of a whole number, whatever its sign.
pub open spec fn size(a: int) -> int {
    if a >= 0 {
        a
    } else {
        -a
    }
}

/// The size of a quantity, whatever its sign.
pub open spec fn magnitude(a: i64) -> int {
    if a >= 0 {
        a as int
    } else {
        -a
    }
}

/// Every number that is not negative has an integer square root.
pub proof fn lemma_root_exists(n: int)
    requires
        0 <= n,
    ensures
        is_root(n, root_spec(n)),
    decreases n,
{
    if n == 0 {
        assert(is_root(0, 0));
    } else {
        lemma_root_exists(n - 1);
        let r = root_spec(n - 1);
        if (r + 1) * (r + 1) <= n {
            assert((r + 2) * (r + 2) > (r + 1) * (r + 1)) by (nonlinear_arith)
                requires
                    0 <= r,
            ;
            assert(is_root(n, r + 1));
        } else {
            assert(is_root(n, r));
        }
    }
}

/// The integer square root grows with its argument.
pub proof fn lemma_root_monotone(a: int, b: int)
    requires
        0 <= a <= b,
    ensures
        0 <= root_spec(a) <= root_spec(b),
{
    lemma_root_exists(a);
    lemma_root_exists(b);
    let r = root_spec(a);
    let q = root_spec(b);
    if q < r {
        assert((q + 1) * (q + 1) <= r * r) by (nonlinear_arith)
            requires
                0 <= q + 1 <= r,
        ;
    }
}

/// The size of a product with a factor that is not negative grows with the
/// size of the other factor, and does not depend on its sign.
pub proof fn lemma_times_monotone(a: i64, b: i64, k: i64)
    requires
        in_range(a),
        in_range(b),
        in_range(k),
        0 <= k,
        magnitude(a) <= magnitude(b),
    ensures
        magnitude(times_spec(a, k)) <= magnitude(times_spec(b, k)),
{
    let x = magnitude(a);
    let y = magnitude(b);
    assert(0 <= x * k <= y * k) by (nonlinear_arith)
        requires
            0 <= x <= y,
            0 <= k,
    ;
    assert((x * k) / (ONE as int) <= (y * k) / (ONE as int)) by (nonlinear_arith)
        requires
            0 <= x * k <= y * k,
    ;
    assert(0 <= (x * k) / (ONE as int)) by (nonlinear_arith)
        requires
            0 <= x * k,
    ;
    assert(a * k == x * k || a * k == -(x * k)) by (nonlinear_arith)
        requires
            x == a || x == -a,
    ;
    assert(b * k == y * k || b * k == -(y * k)) by (nonlinear_arith)
        requires
            y == b || y == -b,
    ;
    assert(a >= 0 ==> a * k >= 0) by (nonlinear_arith)
        requires
            0 <= k,
    ;
    assert(a < 0 ==> a * k <= 0) by (nonlinear_arith)
        requires
            0 <= k,
    ;
    assert(b >= 0 ==> b * k >= 0) by (nonlinear_arith)
        requires
            0 <= k,
    ;
    assert(b < 0 ==> b * k <= 0) by (nonlinear_arith)
        requires
            0 <= k,
    ;
    assert(quot(a * k, ONE as int) == (x * k) / (ONE as int) || quot(a * k, ONE as int) == -((x
        * k) / (ONE as int)));
    assert(quot(b * k, ONE as int) == (y * k) / (ONE as int) || quot(b * k, ONE as int) == -((y
        * k) / (ONE as int)));
}

} // verus!
