//! Closeness of numbers, and how it carries through the arithmetic.
//!
//! Two quantities are close at `r` where they differ by at most `r` parts in
//! `2^28` of the second. A rounding to the nearest normal number keeps a
//! quantity close at 16, which is `2^-24`. The lemmas here follow closeness
//! through products, chains and square roots, and arrive at the length of a
//! vector that was scaled to length one.

use vstd::prelude::*;
use vstd::arithmetic::power2::{pow2, lemma_pow2_pos, lemma_pow2_adds, lemma2_to64, lemma_pow2_strictly_increases};
use crate::rounding::{is_nearest, is_nearest_root, lemma_nearest_is_near, lemma_nearest_is_normal};
use crate::scalar::magnitude_value;

verus! {

/// `x` differs from `y` by at most `r` parts in `2^28` of `y`, and `y` is
/// not negative.
pub open spec fn close(x: int, y: int, r: int) -> bool {
    &&& 0 <= y
    &&& (x - y) * 0x1000_0000 <= r * y
    &&& (y - x) * 0x1000_0000 <= r * y
}

/// What is close to a quantity is not negative, and at most twice it.
pub proof fn lemma_close_bounds(x: int, y: int, r: int)
    requires
        close(x, y, r),
        0 <= r <= 4096,
    ensures
        0 <= x <= 2 * y,
        2 * x >= y,
{
    assert(r * y <= 4096 * y) by (nonlinear_arith)
        requires
            0 <= r <= 4096,
            0 <= y,
    ;
}

/// Closeness carries through a chain, at the sum of the parts and one more.
pub proof fn lemma_close_chain(x: int, y: int, z: int, r1: int, r2: int)
    requires
        close(x, y, r1),
        close(y, z, r2),
        0 <= r1 <= 4096,
        0 <= r2 <= 4096,
    ensures
        close(x, z, r1 + r2 + 1),
{
    lemma_close_bounds(y, z, r2);
    // |x - y| N <= r1 y, and y N <= (N + r2) z
    assert(r1 * y * 0x1000_0000 <= r1 * (0x1000_0000 + r2) * z) by (nonlinear_arith)
        requires
            (y - z) * 0x1000_0000 <= r2 * z,
            0 <= r1,
    ;
    assert(r1 * (0x1000_0000 + r2) * z <= (r1 * 0x1000_0000 + 0x1000_0000) * z)
        by (nonlinear_arith)
        requires
            0 <= r1 <= 4096,
            0 <= r2 <= 4096,
            0 <= z,
    ;
    assert((x - z) * 0x1000_0000 * 0x1000_0000 <= (r1 + r2 + 1) * z * 0x1000_0000 && (z - x)
        * 0x1000_0000 * 0x1000_0000 <= (r1 + r2 + 1) * z * 0x1000_0000) by (nonlinear_arith)
        requires
            (x - y) * 0x1000_0000 <= r1 * y,
            (y - x) * 0x1000_0000 <= r1 * y,
            (y - z) * 0x1000_0000 <= r2 * z,
            (z - y) * 0x1000_0000 <= r2 * z,
            r1 * y * 0x1000_0000 <= (r1 * 0x1000_0000 + 0x1000_0000) * z,
    ;
}

/// Closeness can be turned round, at one part more.
pub proof fn lemma_close_flip(x: int, y: int, r: int)
    requires
        close(x, y, r),
        0 <= r <= 4096,
    ensures
        close(y, x, r + 1),
{
    lemma_close_bounds(x, y, r);
    // r y N <= r (N + r + 1) x, from y N <= (N + r + 1) x
    assert(y * 0x1000_0000 <= (0x1000_0000 + r + 1) * x) by (nonlinear_arith)
        requires
            (y - x) * 0x1000_0000 <= r * y,
            0 <= r <= 4096,
            0 <= y <= 2 * x,
    ;
    assert(r * y * 0x1000_0000 <= (r + 1) * x * 0x1000_0000) by (nonlinear_arith)
        requires
            y * 0x1000_0000 <= (0x1000_0000 + r + 1) * x,
            0 <= r <= 4096,
            0 <= x,
    ;
    assert((x - y) * 0x1000_0000 * 0x1000_0000 <= (r + 1) * x * 0x1000_0000 && (y - x)
        * 0x1000_0000 * 0x1000_0000 <= (r + 1) * x * 0x1000_0000) by (nonlinear_arith)
        requires
            (x - y) * 0x1000_0000 <= r * y,
            (y - x) * 0x1000_0000 <= r * y,
            r * y * 0x1000_0000 <= (r + 1) * x * 0x1000_0000,
    ;
}

/// Closeness carries through a product, at the sum of the parts and one
/// more.
pub proof fn lemma_close_product(x1: int, y1: int, r1: int, x2: int, y2: int, r2: int)
    requires
        close(x1, y1, r1),
        close(x2, y2, r2),
        0 <= r1 <= 4096,
        0 <= r2 <= 4096,
    ensures
        close(x1 * x2, y1 * y2, r1 + r2 + 1),
{
    lemma_close_bounds(x1, y1, r1);
    lemma_close_bounds(x2, y2, r2);
    let n = 0x1000_0000int;
    let d1 = x1 - y1;
    let d2 = x2 - y2;
    let yy = y1 * y2;
    assert(0 <= yy) by (nonlinear_arith)
        requires
            yy == y1 * y2,
            0 <= y1,
            0 <= y2,
    ;
    // x1 x2 - y1 y2 == d1 y2 + y1 d2 + d1 d2
    assert(x1 * x2 - yy == d1 * y2 + y1 * d2 + d1 * d2) by (nonlinear_arith)
        requires
            d1 == x1 - y1,
            d2 == x2 - y2,
            yy == y1 * y2,
    ;
    assert(d1 * y2 * n <= r1 * yy && -(d1 * y2) * n <= r1 * yy) by (nonlinear_arith)
        requires
            d1 * n <= r1 * y1,
            -d1 * n <= r1 * y1,
            0 <= y2,
            yy == y1 * y2,
    ;
    assert(y1 * d2 * n <= r2 * yy && -(y1 * d2) * n <= r2 * yy) by (nonlinear_arith)
        requires
            d2 * n <= r2 * y2,
            -d2 * n <= r2 * y2,
            0 <= y1,
            yy == y1 * y2,
    ;
    // the product of the two differences is below one part
    assert(d1 * d2 * n * n <= r1 * r2 * yy && -(d1 * d2) * n * n <= r1 * r2 * yy)
        by (nonlinear_arith)
        requires
            d1 * n <= r1 * y1,
            -d1 * n <= r1 * y1,
            d2 * n <= r2 * y2,
            -d2 * n <= r2 * y2,
            0 <= y1,
            0 <= y2,
            0 <= r1,
            0 <= r2,
            yy == y1 * y2,
    ;
    assert(r1 * r2 * yy <= n * yy) by (nonlinear_arith)
        requires
            0 <= r1 <= 4096,
            0 <= r2 <= 4096,
            0 <= yy,
            n == 0x1000_0000,
    ;
    assert(d1 * d2 * n <= yy && -(d1 * d2) * n <= yy) by (nonlinear_arith)
        requires
            d1 * d2 * n * n <= n * yy,
            -(d1 * d2) * n * n <= n * yy,
            n == 0x1000_0000,
    ;
    let xx = x1 * x2;
    assert((xx - yy) * n <= (r1 + r2 + 1) * yy && (yy - xx) * n <= (r1 + r2 + 1) * yy)
        by (nonlinear_arith)
        requires
            xx - yy == d1 * y2 + y1 * d2 + d1 * d2,
            d1 * y2 * n <= r1 * yy,
            -(d1 * y2) * n <= r1 * yy,
            y1 * d2 * n <= r2 * yy,
            -(y1 * d2) * n <= r2 * yy,
            d1 * d2 * n <= yy,
            -(d1 * d2) * n <= yy,
    ;
}

/// Closeness of squares is closeness of the roots, at half the parts and
/// one more: here with the parts doubled on both sides.
pub proof fn lemma_close_root(x: int, y: int, r: int)
    requires
        0 <= x,
        close(x * x, y * y, r),
        0 <= y,
        0 <= r <= 4096,
    ensures
        (x - y) * 0x2000_0000 <= (r + 2) * y,
        (y - x) * 0x2000_0000 <= (r + 2) * y,
{
    let n = 0x1000_0000int;
    if y == 0 {
        assert(x == 0) by (nonlinear_arith)
            requires
                (x * x - y * y) * n <= r * (y * y),
                y == 0,
                n == 0x1000_0000,
                0 <= x,
        ;
    } else {
        // y <= 2 x, or the squares would be far apart
        assert(y <= 2 * x) by (nonlinear_arith)
            requires
                (y * y - x * x) * n <= r * (y * y),
                0 <= r <= 4096,
                n == 0x1000_0000,
                0 <= x,
                0 < y,
        ;
        let d = x - y;
        // (x - y) (x + y) n <= r y y, with x + y at least (2 - r / n) y
        assert((x * x - y * y) == d * (x + y)) by (nonlinear_arith)
            requires
                d == x - y,
        ;
        if d >= 0 {
            assert(d * (2 * y) * n <= r * (y * y)) by (nonlinear_arith)
                requires
                    d * (x + y) * n <= r * (y * y),
                    x + y >= 2 * y,
                    d >= 0,
                    n > 0,
            ;
            assert(d * 2 * n <= r * y) by (nonlinear_arith)
                requires
                    d * (2 * y) * n <= r * (y * y),
                    y > 0,
            ;
            assert((x - y) * 0x2000_0000 <= (r + 2) * y && (y - x) * 0x2000_0000 <= (r + 2) * y)
                by (nonlinear_arith)
                requires
                    d == x - y,
                    d >= 0,
                    d * 2 * n <= r * y,
                    n == 0x1000_0000,
                    y > 0,
                    r >= 0,
            ;
        } else {
            let e = -d;
            // e (x + y) n <= r y y; x + y = 2 y - e; e <= y
            assert(e * (x + y) * n <= r * (y * y)) by (nonlinear_arith)
                requires
                    (y * y - x * x) * n <= r * (y * y),
                    (x * x - y * y) == d * (x + y),
                    e == -d,
            ;
            // first a rough bound: e n <= r y, since x + y >= y
            assert(e * n <= r * y) by (nonlinear_arith)
                requires
                    e * (x + y) * n <= r * (y * y),
                    x + y >= y,
                    y > 0,
                    e > 0,
                    n > 0,
            ;
            // then the fine one: e (2 y - e) n <= r y y and e e n n <= r r y y
            assert(e * e * n <= r * y * e) by (nonlinear_arith)
                requires
                    e * n <= r * y,
                    e > 0,
            ;
            assert(r * y * e * n <= r * r * y * y) by (nonlinear_arith)
                requires
                    e * n <= r * y,
                    r >= 0,
                    y > 0,
            ;
            assert(e * 2 * y * n * n <= r * (y * y) * n + r * r * y * y) by (nonlinear_arith)
                requires
                    e * (x + y) * n <= r * (y * y),
                    x + y == 2 * y - e,
                    e * e * n <= r * y * e,
                    r * y * e * n <= r * r * y * y,
                    n > 0,
            ;
            assert(r * r * y * y <= 2 * n * (y * y)) by (nonlinear_arith)
                requires
                    0 <= r <= 4096,
                    n == 0x1000_0000,
            ;
            assert(e * 2 * n <= (r + 2) * y) by (nonlinear_arith)
                requires
                    e * 2 * y * n * n <= r * (y * y) * n + 2 * n * (y * y),
                    y > 0,
                    n > 0,
            ;
            assert((x - y) * 0x2000_0000 <= (r + 2) * y && (y - x) * 0x2000_0000 <= (r + 2) * y)
                by (nonlinear_arith)
                requires
                    e == y - x,
                    e > 0,
                    e * 2 * n <= (r + 2) * y,
                    n == 0x1000_0000,
                    y > 0,
                    r >= 0,
            ;
        }
    }
}

/// Closeness does not change where both sides are multiplied by the same
/// positive quantity, or divided by it.
pub proof fn lemma_close_scaled(x: int, y: int, r: int, k: int)
    requires
        k > 0,
        0 <= r,
    ensures
        close(x, y, r) <==> close(x * k, y * k, r),
{
    assert((x * k - y * k) * 0x1000_0000 == ((x - y) * 0x1000_0000) * k && (y * k - x * k)
        * 0x1000_0000 == ((y - x) * 0x1000_0000) * k && r * (y * k) == (r * y) * k)
        by (nonlinear_arith);
    let up = (x - y) * 0x1000_0000;
    let down = (y - x) * 0x1000_0000;
    let bound = r * y;
    assert((up <= bound <==> up * k <= bound * k) && (down <= bound <==> down * k <= bound * k)
        && (0 <= y <==> 0 <= y * k)) by (nonlinear_arith)
        requires
            k > 0,
    ;
}

/// The rounded sum of three rounded quotients is near the sum of the
/// quotients: the three quotients `x0 / c`, `x1 / c`, `x2 / c` are rounded
/// to `m0`, `m1`, `m2`, the first two summed and rounded to `mt`, the third
/// added and the sum rounded to `mq`. In units of `1 / c`, what `mq` denotes
/// differs from `x0 + x1 + x2` by at most `2^-22` of itself and three units
/// of the smallest numbers.
pub proof fn lemma_sum_of_three_is_near(
    x0: int,
    x1: int,
    x2: int,
    c: int,
    m0: int,
    m1: int,
    m2: int,
    mt: int,
    mq: int,
)
    requires
        c > 0,
        x0 >= 0,
        x1 >= 0,
        x2 >= 0,
        0 <= m0 < 0x7f80_0000,
        0 <= m1 < 0x7f80_0000,
        0 <= m2 < 0x7f80_0000,
        0 <= mt < 0x7f80_0000,
        0 <= mq < 0x7f80_0000,
        is_nearest(m0, x0, c),
        is_nearest(m1, x1, c),
        is_nearest(m2, x2, c),
        is_nearest(mt, magnitude_value(m0) + magnitude_value(m1), 1),
        is_nearest(mq, magnitude_value(mt) + magnitude_value(m2), 1),
    ensures
        ((x0 + x1 + x2) - magnitude_value(mq) * c) * 0x0100_0000 <= 4 * (magnitude_value(mq) * c)
            + 3 * 0x0100_0000 * c,
        (magnitude_value(mq) * c - (x0 + x1 + x2)) * 0x0100_0000 <= 4 * (magnitude_value(mq) * c)
            + 3 * 0x0100_0000 * c,
        0 <= magnitude_value(mq),
{
    let s0 = magnitude_value(m0);
    let s1 = magnitude_value(m1);
    let s2 = magnitude_value(m2);
    let t = magnitude_value(mt);
    let q = magnitude_value(mq);
    crate::rounding::lemma_magnitude_ordered(0, m0);
    crate::rounding::lemma_magnitude_ordered(0, m1);
    crate::rounding::lemma_magnitude_ordered(0, m2);
    crate::rounding::lemma_magnitude_ordered(0, mt);
    crate::rounding::lemma_magnitude_ordered(0, mq);
    assert(magnitude_value(0) == 0);
    lemma_nearest_is_near(m0, x0, c);
    lemma_nearest_is_near(m1, x1, c);
    lemma_nearest_is_near(m2, x2, c);
    lemma_nearest_is_near(mt, s0 + s1, 1);
    lemma_nearest_is_near(mq, t + s2, 1);
    let s0c = s0 * c;
    let s1c = s1 * c;
    let s2c = s2 * c;
    let tc = t * c;
    let qc = q * c;
    let n = 0x0100_0000int;
    let h = 0x0080_0000int;
    assert(0 <= s0c && 0 <= s1c && 0 <= s2c && 0 <= tc && 0 <= qc) by (nonlinear_arith)
        requires
            s0c == s0 * c,
            s1c == s1 * c,
            s2c == s2 * c,
            tc == t * c,
            qc == q * c,
            c > 0,
            s0 >= 0,
            s1 >= 0,
            s2 >= 0,
            t >= 0,
            q >= 0,
    ;
    assert((tc - s0c - s1c) * n <= tc + h * c && (s0c + s1c - tc) * n <= tc + h * c)
        by (nonlinear_arith)
        requires
            (t * 1 - (s0 + s1)) * n <= t * 1 + h * 1,
            ((s0 + s1) - t * 1) * n <= t * 1 + h * 1,
            s0c == s0 * c,
            s1c == s1 * c,
            tc == t * c,
            c > 0,
    ;
    assert((qc - tc - s2c) * n <= qc + h * c && (tc + s2c - qc) * n <= qc + h * c)
        by (nonlinear_arith)
        requires
            (q * 1 - (t + s2)) * n <= q * 1 + h * 1,
            ((t + s2) - q * 1) * n <= q * 1 + h * 1,
            s2c == s2 * c,
            qc == q * c,
            tc == t * c,
            c > 0,
    ;
    // from here on everything is linear in the products with c
    assert((s0c - x0) * n <= s0c + h * c && (x0 - s0c) * n <= s0c + h * c);
    assert((s1c - x1) * n <= s1c + h * c && (x1 - s1c) * n <= s1c + h * c);
    assert((s2c - x2) * n <= s2c + h * c && (x2 - s2c) * n <= s2c + h * c);
    let x = x0 + x1 + x2;
    assert((x - qc) * n <= 4 * qc + 3 * n * c && (qc - x) * n <= 4 * qc + 3 * n * c);
}

/// A rounded quotient squares near the square of the quotient: where `m`
/// is nearest to `v / c`, the square of what `m` denotes, in units of
/// `1 / c^2`, differs from `v * v` by at most 35 parts in `2^28` of `v * v`
/// and a term in `c^3` that counts for nothing beside it.
pub proof fn lemma_square_of_rounded(v: int, c: int, m: int)
    requires
        c >= 0x1_0000_0000,
        0 <= v <= 4 * (c * c),
        0 <= m < 0x7f80_0000,
        is_nearest(m, v, c),
    ensures
        ({
            let u = magnitude_value(m) * c;
            &&& (u * u - v * v) * 0x1000_0000 <= 35 * (v * v) + 0x10_0000_0000 * (c * c * c)
            &&& (v * v - u * u) * 0x1000_0000 <= 35 * (v * v) + 0x10_0000_0000 * (c * c * c)
            &&& 0 <= u
        }),
{
    let u = magnitude_value(m) * c;
    crate::rounding::lemma_magnitude_ordered(0, m);
    assert(magnitude_value(0) == 0);
    lemma_nearest_is_near(m, v, c);
    assert(0 <= u) by (nonlinear_arith)
        requires
            u == magnitude_value(m) * c,
            magnitude_value(m) >= 0,
            c > 0,
    ;
    let n = 0x1000_0000int;
    let e = u - v;
    // |e| <= u / 2^24 + c / 2, so u <= 2 v + c and |e| n <= 17 v + n c
    assert(u <= 2 * v + c);
    assert(e * n <= 17 * v + n * c && -e * n <= 17 * v + n * c);
    let cc = c * c;
    let ccc = c * c * c;
    assert(0 <= cc && 0 <= ccc && c * v <= 4 * ccc && cc <= ccc && v * v >= 0 && c * cc == ccc)
        by (nonlinear_arith)
        requires
            cc == c * c,
            ccc == c * c * c,
            c >= 1,
            0 <= v <= 4 * cc,
    ;
    // u u - v v == e (u + v) == e (2 v + e)
    assert(u * u - v * v == 2 * (e * v) + e * e) by (nonlinear_arith)
        requires
            e == u - v,
    ;
    assert(e * v * n <= 17 * (v * v) + n * (c * v) && -(e * v) * n <= 17 * (v * v) + n * (c * v))
        by (nonlinear_arith)
        requires
            e * n <= 17 * v + n * c,
            -e * n <= 17 * v + n * c,
            v >= 0,
    ;
    assert(e * e * n * n <= (17 * v + n * c) * (17 * v + n * c) && e * e >= 0)
        by (nonlinear_arith)
        requires
            e * n <= 17 * v + n * c,
            -e * n <= 17 * v + n * c,
            17 * v + n * c >= 0,
    ;
    assert((17 * v + n * c) * (17 * v + n * c) == 289 * (v * v) + 34 * n * (c * v) + n * n * cc)
        by (nonlinear_arith)
        requires
            cc == c * c,
    ;
    // 289 v v / n is far below v v, and the rest is in c^3
    assert(e * e * n <= (v * v) + 34 * (c * v) + n * cc) by (nonlinear_arith)
        requires
            e * e * n * n <= 289 * (v * v) + 34 * n * (c * v) + n * n * cc,
            n == 0x1000_0000,
            v * v >= 0,
            c * v >= 0,
            cc >= 0,
    ;
    assert((u * u - v * v) * n <= 35 * (v * v) + (2 * n + 34) * (c * v) + n * cc && (v * v - u * u)
        * n <= 34 * (v * v) + 2 * n * (c * v)) by (nonlinear_arith)
        requires
            u * u - v * v == 2 * (e * v) + e * e,
            e * v * n <= 17 * (v * v) + n * (c * v),
            -(e * v) * n <= 17 * (v * v) + n * (c * v),
            e * e * n <= (v * v) + 34 * (c * v) + n * cc,
            e * e >= 0,
            n > 0,
    ;
    let vv = v * v;
    let cv = c * v;
    assert((2 * n + 34) * cv + n * cc <= 0x10_0000_0000 * ccc && 2 * n * cv <= 0x10_0000_0000
        * ccc) by (nonlinear_arith)
        requires
            0 <= cv <= 4 * ccc,
            0 <= cc <= ccc,
            n == 0x1000_0000,
    ;
}

/// The patterns of a vector scaled to length one and of its length, step by
/// step as the arithmetic finds them, from the magnitudes `a0`, `a1`, `a2`
/// of the vector's components: the squares, their sum in two steps, the
/// root, its inverse, the scaled components, and the same again for the
/// length of the scaled vector.
pub struct UnitSteps {
    pub squares: (int, int, int),
    pub partial: int,
    pub squared_length: int,
    pub length: int,
    pub inverse: int,
    pub scaled: (int, int, int),
    pub scaled_squares: (int, int, int),
    pub scaled_partial: int,
    pub scaled_squared_length: int,
    pub scaled_length: int,
}

/// Every pattern of the steps is the nearest to what its step asks for, as
/// far as the length of the vector; and the squared length is finite.
pub open spec fn are_unit_steps(a0: int, a1: int, a2: int, s: UnitSteps) -> bool {
    let c = pow2(149) as int;
    &&& is_nearest(s.squares.0, a0 * a0, c)
    &&& is_nearest(s.squares.1, a1 * a1, c)
    &&& is_nearest(s.squares.2, a2 * a2, c)
    &&& s.squares.0 < 0x7f80_0000 && s.squares.1 < 0x7f80_0000 && s.squares.2 < 0x7f80_0000
    &&& is_nearest(s.partial, magnitude_value(s.squares.0) + magnitude_value(s.squares.1), 1)
    &&& s.partial < 0x7f80_0000
    &&& is_nearest(s.squared_length, magnitude_value(s.partial) + magnitude_value(s.squares.2), 1)
    &&& s.squared_length < 0x7f80_0000
    &&& is_nearest_root(s.length, magnitude_value(s.squared_length) * c)
    &&& is_nearest(s.inverse, c * c, magnitude_value(s.length))
    &&& is_nearest(s.scaled.0, a0 * magnitude_value(s.inverse), c)
    &&& is_nearest(s.scaled.1, a1 * magnitude_value(s.inverse), c)
    &&& is_nearest(s.scaled.2, a2 * magnitude_value(s.inverse), c)
}

/// Every pattern of the steps from the scaled vector to its squared length
/// is the nearest to what its step asks for.
pub open spec fn are_sum_steps(s: UnitSteps) -> bool {
    let c = pow2(149) as int;
    let u0 = magnitude_value(s.scaled.0);
    let u1 = magnitude_value(s.scaled.1);
    let u2 = magnitude_value(s.scaled.2);
    &&& is_nearest(s.scaled_squares.0, u0 * u0, c)
    &&& is_nearest(s.scaled_squares.1, u1 * u1, c)
    &&& is_nearest(s.scaled_squares.2, u2 * u2, c)
    &&& is_nearest(
        s.scaled_partial,
        magnitude_value(s.scaled_squares.0) + magnitude_value(s.scaled_squares.1),
        1,
    )
    &&& is_nearest(
        s.scaled_squared_length,
        magnitude_value(s.scaled_partial) + magnitude_value(s.scaled_squares.2),
        1,
    )
}

/// Every pattern of the steps behind the scaled vector is the nearest to
/// what its step asks for, as far as its length.
pub open spec fn are_length_steps(s: UnitSteps) -> bool {
    &&& are_sum_steps(s)
    &&& is_nearest_root(
        s.scaled_length,
        magnitude_value(s.scaled_squared_length) * (pow2(149) as int),
    )
}

/// The first half of the way: the squares of the scaled components, summed
/// exactly, are close to one. All the patterns on the way are finite.
pub proof fn lemma_scaled_squares_are_close(a0: int, a1: int, a2: int, s: UnitSteps)
    requires
        0 <= a0,
        0 <= a1,
        0 <= a2,
        are_unit_steps(a0, a1, a2, s),
        0x0080_0000 <= magnitude_value(s.squared_length) < pow2(277),
    ensures
        ({
            let c = pow2(149) as int;
            let u0 = magnitude_value(s.scaled.0);
            let u1 = magnitude_value(s.scaled.1);
            let u2 = magnitude_value(s.scaled.2);
            &&& 0 <= s.scaled.0 < 0x7f80_0000
            &&& 0 <= s.scaled.1 < 0x7f80_0000
            &&& 0 <= s.scaled.2 < 0x7f80_0000
            &&& 0x0080_0000 <= s.length < 0x7f80_0000
            &&& 0x0080_0000 <= s.inverse < 0x7f80_0000
            &&& close(u0 * u0 + u1 * u1 + u2 * u2, c * c, 298)
        }),
{
    let c = pow2(149) as int;
    let n = 0x1000_0000int;
    let cc = c * c;
    lemma_powers();
    let q = magnitude_value(s.squared_length);
    let w = q * c;
    let x = a0 * a0 + a1 * a1 + a2 * a2;
    // the squared length is close to the sum of the squares
    assert(a0 * a0 >= 0 && a1 * a1 >= 0 && a2 * a2 >= 0) by (nonlinear_arith);
    lemma_sum_of_three_is_near(
        a0 * a0,
        a1 * a1,
        a2 * a2,
        c,
        s.squares.0,
        s.squares.1,
        s.squares.2,
        s.partial,
        s.squared_length,
    );
    assert(0x0080_0000 * c <= w && w < pow2(277) * c && c <= w) by (nonlinear_arith)
        requires
            0x0080_0000 <= q < pow2(277),
            w == q * c,
            c > 0,
    ;
    assert((x - w) * 0x0100_0000 <= 4 * w + 3 * 0x0100_0000 * c && (w - x) * 0x0100_0000 <= 4 * w
        + 3 * 0x0100_0000 * c);
    assert(close(x, w, 160)) by (nonlinear_arith)
        requires
            (x - w) * 0x0100_0000 <= 4 * w + 3 * 0x0100_0000 * c,
            (w - x) * 0x0100_0000 <= 4 * w + 3 * 0x0100_0000 * c,
            0x0080_0000 * c <= w,
            0 <= c,
    ;
    // the length
    crate::rounding::lemma_nearest_root_is_normal(s.length, w);
    crate::rounding::lemma_nearest_root_is_close(s.length, w);
    crate::rounding::lemma_steps_are_small(s.length);
    let l = magnitude_value(s.length);
    let ll = l * l;
    assert(ll > 0) by (nonlinear_arith)
        requires
            ll == l * l,
            l > 0,
    ;
    assert(close(w, ll, 64));
    lemma_close_chain(x, w, ll, 160, 64);
    // the inverse of the length
    lemma_close_bounds(w, ll, 64);
    crate::rounding::lemma_magnitude_ordered(0x0080_0000, s.length);
    crate::scalar::lemma_grid(0x0080_0000, 0);
    assert(l >= 0x0080_0000);
    assert(l < pow2(214)) by (nonlinear_arith)
        requires
            ll == l * l,
            ll <= 2 * w,
            w < pow2(277) * c,
            2 * (pow2(277) * c) <= pow2(214) * pow2(214),
            l >= 0,
            pow2(214) > 0,
    ;
    assert(cc >= 0x0080_0000 * l && cc < pow2(276) * l) by (nonlinear_arith)
        requires
            cc == c * c,
            0x0080_0000 <= l < pow2(214),
            0x0080_0000 * pow2(214) <= c * c,
            c * c < pow2(276) * 0x0080_0000,
            pow2(276) > 0,
    ;
    lemma_nearest_is_normal(s.inverse, cc, l);
    crate::rounding::lemma_nearest_is_close(s.inverse, cc, l);
    let k = magnitude_value(s.inverse);
    crate::rounding::lemma_steps_are_small(s.inverse);
    let kl = k * l;
    assert(kl > 0) by (nonlinear_arith)
        requires
            kl == k * l,
            k > 0,
            l > 0,
    ;
    assert(close(cc, kl, 16));
    lemma_close_flip(cc, kl, 16);
    lemma_close_product(kl, cc, 17, kl, cc, 17);
    // the sum of the squares of a_i k is close to one
    let kk = k * k;
    assert(kk > 0 && kl * kl == ll * kk) by (nonlinear_arith)
        requires
            kk == k * k,
            kl == k * l,
            ll == l * l,
            k > 0,
    ;
    lemma_close_scaled(x, ll, 225, kk);
    let xkk = x * kk;
    let cccc = cc * cc;
    lemma_close_chain(xkk, ll * kk, cccc, 225, 35);
    assert(close(xkk, cccc, 261));
    let v0 = a0 * k;
    let v1 = a1 * k;
    let v2 = a2 * k;
    assert(v0 * v0 + v1 * v1 + v2 * v2 == xkk && v0 * v0 >= 0 && v1 * v1 >= 0 && v2 * v2 >= 0
        && v0 >= 0 && v1 >= 0 && v2 >= 0) by (nonlinear_arith)
        requires
            v0 == a0 * k,
            v1 == a1 * k,
            v2 == a2 * k,
            xkk == (a0 * a0 + a1 * a1 + a2 * a2) * kk,
            kk == k * k,
            a0 >= 0,
            a1 >= 0,
            a2 >= 0,
            k > 0,
    ;
    lemma_close_bounds(xkk, cccc, 261);
    lemma_component_is_small(v0, xkk, cc);
    lemma_component_is_small(v1, xkk, cc);
    lemma_component_is_small(v2, xkk, cc);
    // the scaled components
    assert(4 * cc < pow2(276) * c) by (nonlinear_arith)
        requires
            cc == c * c,
            4 * c < pow2(276),
            c > 0,
    ;
    lemma_nearest_is_normal(s.scaled.0, v0, c);
    lemma_nearest_is_normal(s.scaled.1, v1, c);
    lemma_nearest_is_normal(s.scaled.2, v2, c);
    lemma_square_of_rounded(v0, c, s.scaled.0);
    lemma_square_of_rounded(v1, c, s.scaled.1);
    lemma_square_of_rounded(v2, c, s.scaled.2);
    let u0 = magnitude_value(s.scaled.0);
    let u1 = magnitude_value(s.scaled.1);
    let u2 = magnitude_value(s.scaled.2);
    let y = u0 * u0 + u1 * u1 + u2 * u2;
    let ycc = (u0 * c) * (u0 * c) + (u1 * c) * (u1 * c) + (u2 * c) * (u2 * c);
    lemma_square_of_scaled(u0, c);
    lemma_square_of_scaled(u1, c);
    lemma_square_of_scaled(u2, c);
    let w0 = u0 * u0;
    let w1 = u1 * u1;
    let w2 = u2 * u2;
    assert((w0 + w1 + w2) * cc == w0 * cc + w1 * cc + w2 * cc) by (nonlinear_arith);
    assert(ycc == y * cc);
    let ccc = c * c * c;
    let extra = 0x10_0000_0000 * ccc;
    assert(3 * extra <= xkk) by (nonlinear_arith)
        requires
            2 * xkk >= cccc,
            cccc == cc * cc,
            cc == c * c,
            ccc == c * c * c,
            extra == 0x10_0000_0000 * ccc,
            c >= 0x100_0000_0000,
    ;
    let f0 = (u0 * c) * (u0 * c);
    let f1 = (u1 * c) * (u1 * c);
    let f2 = (u2 * c) * (u2 * c);
    let g0 = v0 * v0;
    let g1 = v1 * v1;
    let g2 = v2 * v2;
    assert((f0 - g0) * n <= 35 * g0 + extra && (g0 - f0) * n <= 35 * g0 + extra);
    assert((f1 - g1) * n <= 35 * g1 + extra && (g1 - f1) * n <= 35 * g1 + extra);
    assert((f2 - g2) * n <= 35 * g2 + extra && (g2 - f2) * n <= 35 * g2 + extra);
    assert(ycc == f0 + f1 + f2 && xkk == g0 + g1 + g2);
    assert(close(ycc, xkk, 36)) by (nonlinear_arith)
        requires
            (f0 - g0) * n <= 35 * g0 + extra,
            (g0 - f0) * n <= 35 * g0 + extra,
            (f1 - g1) * n <= 35 * g1 + extra,
            (g1 - f1) * n <= 35 * g1 + extra,
            (f2 - g2) * n <= 35 * g2 + extra,
            (g2 - f2) * n <= 35 * g2 + extra,
            3 * extra <= xkk,
            ycc == f0 + f1 + f2,
            xkk == g0 + g1 + g2,
            n == 0x1000_0000,
            0 <= xkk,
    ;
    lemma_close_chain(ycc, xkk, cccc, 36, 261);
    assert(cc > 0) by (nonlinear_arith)
        requires
            cc == c * c,
            c > 0,
    ;
    lemma_close_scaled(y, cc, 298, cc);
}

/// The second part of the way: the squared length of the scaled vector is
/// close to one. All the patterns on the way are finite.
pub proof fn lemma_scaled_squared_length_is_close(a0: int, a1: int, a2: int, s: UnitSteps)
    requires
        0 <= a0,
        0 <= a1,
        0 <= a2,
        are_unit_steps(a0, a1, a2, s),
        are_sum_steps(s),
        0x0080_0000 <= magnitude_value(s.squared_length) < pow2(277),
    ensures
        s.scaled_squares.0 < 0x7f80_0000,
        s.scaled_squares.1 < 0x7f80_0000,
        s.scaled_squares.2 < 0x7f80_0000,
        s.scaled_partial < 0x7f80_0000,
        0 < s.scaled_squared_length < 0x7f80_0000,
        close(
            magnitude_value(s.scaled_squared_length) * (pow2(149) as int),
            (pow2(149) as int) * (pow2(149) as int),
            365,
        ),
{
    let c = pow2(149) as int;
    let cc = c * c;
    lemma_powers();
    lemma_scaled_squares_are_close(a0, a1, a2, s);
    let u0 = magnitude_value(s.scaled.0);
    let u1 = magnitude_value(s.scaled.1);
    let u2 = magnitude_value(s.scaled.2);
    let x0 = u0 * u0;
    let x1 = u1 * u1;
    let x2 = u2 * u2;
    let y = x0 + x1 + x2;
    lemma_close_bounds(y, cc, 298);
    assert(x0 >= 0 && x1 >= 0 && x2 >= 0) by (nonlinear_arith)
        requires
            x0 == u0 * u0,
            x1 == u1 * u1,
            x2 == u2 * u2,
    ;
    assert(2 * cc < pow2(276) * c && cc >= 0x100_0000_0000 * c) by (nonlinear_arith)
        requires
            cc == c * c,
            4 * c < pow2(276),
            c >= 0x100_0000_0000,
    ;
    // the squares of the scaled components
    lemma_nearest_is_normal(s.scaled_squares.0, x0, c);
    lemma_nearest_is_normal(s.scaled_squares.1, x1, c);
    lemma_nearest_is_normal(s.scaled_squares.2, x2, c);
    let s0 = magnitude_value(s.scaled_squares.0);
    let s1 = magnitude_value(s.scaled_squares.1);
    let s2 = magnitude_value(s.scaled_squares.2);
    lemma_rounded_is_bounded(s.scaled_squares.0, x0, c);
    lemma_rounded_is_bounded(s.scaled_squares.1, x1, c);
    lemma_rounded_is_bounded(s.scaled_squares.2, x2, c);
    assert(s0 <= 4 * c + 1 && s1 <= 4 * c + 1 && s2 <= 4 * c + 1) by (nonlinear_arith)
        requires
            s0 * c <= 2 * x0 + c,
            s1 * c <= 2 * x1 + c,
            s2 * c <= 2 * x2 + c,
            x0 <= 2 * cc,
            x1 <= 2 * cc,
            x2 <= 2 * cc,
            cc == c * c,
            c > 0,
    ;
    // their sum, in two steps
    assert((s0 + s1) < pow2(276) * 1);
    lemma_nearest_is_normal(s.scaled_partial, s0 + s1, 1);
    let t = magnitude_value(s.scaled_partial);
    lemma_rounded_is_bounded(s.scaled_partial, s0 + s1, 1);
    assert(t * 1 == t) by (nonlinear_arith);
    assert((t + s2) < pow2(276) * 1);
    lemma_nearest_is_normal(s.scaled_squared_length, t + s2, 1);
    lemma_sum_of_three_is_near(
        x0,
        x1,
        x2,
        c,
        s.scaled_squares.0,
        s.scaled_squares.1,
        s.scaled_squares.2,
        s.scaled_partial,
        s.scaled_squared_length,
    );
    let q = magnitude_value(s.scaled_squared_length);
    let w = q * c;
    assert((y - w) * 0x0100_0000 <= 4 * w + 3 * 0x0100_0000 * c && (w - y) * 0x0100_0000 <= 4 * w
        + 3 * 0x0100_0000 * c);
    assert(close(y, w, 65)) by (nonlinear_arith)
        requires
            (y - w) * 0x0100_0000 <= 4 * w + 3 * 0x0100_0000 * c,
            (w - y) * 0x0100_0000 <= 4 * w + 3 * 0x0100_0000 * c,
            2 * y >= cc,
            cc >= 0x100_0000_0000 * c,
            w == q * c,
            q >= 0,
            c > 0,
    ;
    lemma_close_flip(y, w, 65);
    lemma_close_chain(w, y, cc, 66, 298);
    lemma_close_bounds(w, cc, 365);
    assert(q > 0) by (nonlinear_arith)
        requires
            2 * w >= cc,
            cc == c * c,
            c > 0,
            w == q * c,
    ;
    assert(magnitude_value(0) == 0);
}

/// The last part of the way: the length of the scaled vector differs from
/// one by at most a millionth.
pub proof fn lemma_scaled_length_is_one(a0: int, a1: int, a2: int, s: UnitSteps)
    requires
        0 <= a0,
        0 <= a1,
        0 <= a2,
        are_unit_steps(a0, a1, a2, s),
        are_length_steps(s),
        0x0080_0000 <= magnitude_value(s.squared_length) < pow2(277),
    ensures
        0 < s.scaled_squared_length < 0x7f80_0000,
        0x0080_0000 <= s.scaled_length < 0x7f80_0000,
        1000000 * (magnitude_value(s.scaled_length) - pow2(149)) <= pow2(149),
        1000000 * (pow2(149) - magnitude_value(s.scaled_length)) <= pow2(149),
{
    let c = pow2(149) as int;
    let cc = c * c;
    lemma_powers();
    lemma_scaled_squared_length_is_close(a0, a1, a2, s);
    let q = magnitude_value(s.scaled_squared_length);
    let w = q * c;
    lemma_close_bounds(w, cc, 365);
    assert(c <= w && w < pow2(277) * c && q > 0) by (nonlinear_arith)
        requires
            2 * w >= cc,
            w <= 2 * cc,
            cc == c * c,
            4 * c < pow2(276),
            pow2(276) < pow2(277),
            c >= 0x100_0000_0000,
            w == q * c,
    ;
    assert(s.scaled_squared_length > 0) by {
        assert(magnitude_value(0) == 0);
    }
    crate::rounding::lemma_nearest_root_is_normal(s.scaled_length, w);
    crate::rounding::lemma_nearest_root_is_close(s.scaled_length, w);
    crate::rounding::lemma_steps_are_small(s.scaled_length);
    let l = magnitude_value(s.scaled_length);
    let ll = l * l;
    assert(ll > 0) by (nonlinear_arith)
        requires
            ll == l * l,
            l > 0,
    ;
    assert(close(w, ll, 64));
    lemma_close_flip(w, ll, 64);
    lemma_close_chain(ll, w, cc, 65, 365);
    lemma_close_root(l, c, 431);
    assert(1000000 * (l - c) <= c && 1000000 * (c - l) <= c) by (nonlinear_arith)
        requires
            (l - c) * 0x2000_0000 <= (431 + 2) * c,
            (c - l) * 0x2000_0000 <= (431 + 2) * c,
            c > 0,
    ;
}

/// What is nearest to a quotient is at most twice the quotient and one unit
/// of the smallest numbers.
proof fn lemma_rounded_is_bounded(m: int, num: int, den: int)
    requires
        den > 0,
        num >= 0,
        0 <= m < 0x7f80_0000,
        is_nearest(m, num, den),
    ensures
        0 <= magnitude_value(m),
        magnitude_value(m) * den <= 2 * num + den,
{
    lemma_nearest_is_near(m, num, den);
    crate::rounding::lemma_magnitude_ordered(0, m);
    assert(magnitude_value(0) == 0);
    let v = magnitude_value(m) * den;
    assert(0 <= v) by (nonlinear_arith)
        requires
            v == magnitude_value(m) * den,
            magnitude_value(m) >= 0,
            den > 0,
    ;
}

/// The square of a product is the product of the squares.
proof fn lemma_square_of_scaled(u: int, c: int)
    ensures
        (u * c) * (u * c) == (u * u) * (c * c),
{
    assert((u * c) * (u * c) == (u * u) * (c * c)) by (nonlinear_arith);
}

/// A component whose square is part of a sum at most twice a square is at
/// most twice the root: here four times, to be on the safe side.
proof fn lemma_component_is_small(v: int, sum: int, cc: int)
    requires
        0 <= v,
        v * v <= sum,
        sum <= 2 * (cc * cc),
        0 <= cc,
    ensures
        v <= 4 * cc,
{
    assert(v <= 4 * cc) by (nonlinear_arith)
        requires
            0 <= v,
            v * v <= 2 * (cc * cc),
            0 <= cc,
    ;
}

/// The powers of two that the bounds on the way need.
proof fn lemma_powers()
    ensures
        pow2(149) >= 0x100_0000_0000,
        pow2(275) < pow2(277),
        2 * (pow2(277) * pow2(149)) <= pow2(214) * pow2(214),
        0x0080_0000 * pow2(214) <= pow2(149) * pow2(149),
        pow2(149) * pow2(149) < pow2(276) * 0x0080_0000,
        4 * pow2(149) < pow2(276),
        pow2(214) > 0,
        pow2(276) > 0,
        40 * pow2(149) + 40 < pow2(276),
        pow2(149) <= pow2(277),
        pow2(276) < pow2(277),
{
    lemma_pow2_adds(6, 149);
    lemma_pow2_strictly_increases(155, 276);
    lemma_pow2_strictly_increases(276, 277);
    lemma2_to64();
    vstd::arithmetic::power2::lemma2_to64_rest();
    lemma_pow2_strictly_increases(40, 149);
    lemma_pow2_strictly_increases(275, 277);
    lemma_pow2_adds(277, 149);
    lemma_pow2_adds(214, 214);
    lemma_pow2_adds(1, 426);
    lemma_pow2_strictly_increases(427, 428);
    lemma_pow2_adds(23, 214);
    lemma_pow2_adds(149, 149);
    lemma_pow2_strictly_increases(237, 298);
    lemma_pow2_adds(276, 23);
    lemma_pow2_strictly_increases(298, 299);
    lemma_pow2_adds(2, 149);
    lemma_pow2_strictly_increases(151, 276);
    lemma_pow2_adds(4, 149);
    lemma_pow2_strictly_increases(153, 276);
    lemma_pow2_strictly_increases(149, 277);
    lemma_pow2_pos(214);
    lemma_pow2_pos(276);
    lemma_pow2_pos(149);
}

} // verus!
