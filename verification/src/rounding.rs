//! Rounding to the nearest binary32 number.
//!
//! Every arithmetic operation computes its exact result, or a cell of the
//! number line that holds it, and hands it here to be rounded: to the nearest
//! number that a pattern denotes, and of two equally near ones to the one
//! whose pattern is even. The pattern of infinity stands at `2^128` and takes
//! part like any other, which is how overflow comes out as the standard has
//! it.

use vstd::prelude::*;
use vstd::arithmetic::div_mod::{lemma_fundamental_div_mod, lemma_mod_bound, lemma_div_pos_is_pos};
use vstd::arithmetic::power2::{
    pow2,
    lemma_pow2_pos,
    lemma_pow2_adds,
    lemma_pow2_unfold,
    lemma_pow2_strictly_increases,
    lemma2_to64,
    lemma2_to64_rest,
};
use crate::scalar::{magnitude_value, lemma_grid, lemma_magnitude_monotone, INFINITY_BITS};

verus! {

/// Numerators handed to the rounding stay below this: `2^120`.
pub const NUMERATOR_LIMIT: u128 = 0x0100_0000_0000_0000_0000_0000_0000_0000;

/// The magnitude pattern `m` denotes the number nearest to `num / den`, in
/// units of `2^-149`: the quotient lies between the midpoints to the two
/// neighbours of `m`, and on a midpoint only where `m` is even. `num` is not
/// negative and `den` is positive.
pub open spec fn is_nearest(m: int, num: int, den: int) -> bool {
    &&& 0 <= m <= 0x7f80_0000
    &&& m > 0 ==> {
        let twice_mid = magnitude_value(m - 1) + magnitude_value(m);
        twice_mid * den < 2 * num || (twice_mid * den == 2 * num && m % 2 == 0)
    }
    &&& m < 0x7f80_0000 ==> {
        let twice_mid = magnitude_value(m) + magnitude_value(m + 1);
        2 * num < twice_mid * den || (2 * num == twice_mid * den && m % 2 == 0)
    }
}

/// The magnitude pattern `m` denotes the number nearest to the square root
/// of `w`, in units of `2^-149`. `w` is not negative.
pub open spec fn is_nearest_root(m: int, w: int) -> bool {
    &&& 0 <= m <= 0x7f80_0000
    &&& m > 0 ==> {
        let twice_mid = magnitude_value(m - 1) + magnitude_value(m);
        twice_mid * twice_mid < 4 * w || (twice_mid * twice_mid == 4 * w && m % 2 == 0)
    }
    &&& m < 0x7f80_0000 ==> {
        let twice_mid = magnitude_value(m) + magnitude_value(m + 1);
        4 * w < twice_mid * twice_mid || (4 * w == twice_mid * twice_mid && m % 2 == 0)
    }
}

/// `2^e` where `e` is not negative, and one otherwise.
pub open spec fn up_factor(e: int) -> int {
    if e >= 0 {
        pow2(e as nat) as int
    } else {
        1
    }
}

/// `2^-e` where `e` is negative, and one otherwise.
pub open spec fn down_factor(e: int) -> int {
    if e < 0 {
        pow2((-e) as nat) as int
    } else {
        1
    }
}

/// Every number of the cell from `n * 2^e` to `(n + spread) * 2^e`, in units
/// of `2^-149`, rounds to the magnitude pattern `m`. With a spread of zero
/// the cell is the one number `n * 2^e`; with a positive spread the cell is
/// open, its two ends left out.
pub open spec fn cell_rounds_to(m: int, n: int, spread: int, e: int) -> bool {
    let hi = up_factor(e);
    let lo = down_factor(e);
    &&& 0 <= m <= 0x7f80_0000
    &&& m > 0 ==> {
        let twice_mid = magnitude_value(m - 1) + magnitude_value(m);
        twice_mid * lo < 2 * n * hi || (twice_mid * lo == 2 * n * hi && (m % 2 == 0 || spread
            > 0))
    }
    &&& m < 0x7f80_0000 ==> {
        let twice_mid = magnitude_value(m) + magnitude_value(m + 1);
        2 * (n + spread) * hi < twice_mid * lo || (2 * (n + spread) * hi == twice_mid * lo && (m
            % 2 == 0 || spread > 0))
    }
}

/// `2^k` as a machine integer.
pub fn power_of_two(k: u32) -> (p: u128)
    requires
        k <= 126,
    ensures
        p == pow2(k as nat),
{
    let mut p: u128 = 1;
    let mut i: u32 = 0;
    proof {
        lemma2_to64();
        lemma_pow2_126();
    }
    while i < k
        invariant
            i <= k <= 126,
            p == pow2(i as nat),
            p <= pow2(126),
        decreases k - i,
    {
        proof {
            lemma_pow2_unfold((i + 1) as nat);
            if i + 1 < 126 {
                lemma_pow2_strictly_increases((i + 1) as nat, 126);
            }
            lemma_pow2_126();
        }
        p = p * 2;
        i = i + 1;
    }
    p
}

/// `2^126` and `2^120` written out.
proof fn lemma_pow2_126()
    ensures
        pow2(126) == 0x4000_0000_0000_0000_0000_0000_0000_0000,
        pow2(120) == 0x0100_0000_0000_0000_0000_0000_0000_0000,
{
    lemma2_to64();
    lemma2_to64_rest();
    lemma_pow2_adds(64, 62);
    lemma_pow2_adds(64, 56);
}

/// The number of bits that `n` takes: the `len` with `2^(len-1) <= n < 2^len`.
pub fn bit_length(n: u128) -> (len: u32)
    requires
        0 < n < NUMERATOR_LIMIT,
    ensures
        1 <= len <= 120,
        pow2((len - 1) as nat) <= n < pow2(len as nat),
{
    let mut len: u32 = 0;
    let mut p: u128 = 1;
    proof {
        lemma2_to64();
        lemma_pow2_126();
    }
    while p <= n
        invariant
            0 <= len <= 120,
            p == pow2(len as nat),
            len > 0 ==> pow2((len - 1) as nat) <= n,
            0 < n < NUMERATOR_LIMIT,
        decreases 121 - len,
    {
        proof {
            lemma_pow2_126();
            lemma_pow2_unfold((len + 1) as nat);
        }
        p = p * 2;
        len = len + 1;
    }
    len
}

/// A step of `2^t` in units of `2^-149` is a step of `2^r` in units of `2^e`,
/// where `t` is `r + e`.
proof fn lemma_unit_scales(r: int, e: int)
    requires
        r >= 0,
        r + e >= 0,
    ensures
        pow2((r + e) as nat) * down_factor(e) == pow2(r as nat) * up_factor(e),
        up_factor(e) > 0,
        down_factor(e) > 0,
{
    if e >= 0 {
        lemma_pow2_adds(r as nat, e as nat);
        lemma_pow2_pos(e as nat);
        assert(pow2((r + e) as nat) * 1 == pow2((r + e) as nat)) by (nonlinear_arith);
    } else {
        lemma_pow2_adds((r + e) as nat, (-e) as nat);
        lemma_pow2_pos((-e) as nat);
        assert(pow2(r as nat) * 1 == pow2(r as nat)) by (nonlinear_arith);
    }
}

/// Rounds the cell from `n * 2^e` to `(n + 1) * 2^e`, in units of `2^-149`,
/// to a magnitude pattern: the one number `n * 2^e` where `sticky` is clear,
/// and whatever lies strictly inside the cell where it is set. A sticky cell
/// must be fine enough for all of it to round one way, which a numerator of
/// 26 bits or more makes sure of.
pub fn round_to_pattern(n: u128, e: i32, sticky: bool) -> (m: u32)
    requires
        n < NUMERATOR_LIMIT,
        -400 <= e <= 400,
        sticky ==> n >= 0x0200_0000,
    ensures
        cell_rounds_to(m as int, n as int, if sticky { 1int } else { 0int }, e as int),
{
    let ghost spread: int = if sticky { 1 } else { 0 };
    if n == 0 {
        proof {
            lemma_first_patterns();
            lemma_factors_positive(e as int);
            assert(2 * (0 + 0) * up_factor(e as int) == 0) by (nonlinear_arith);
        }
        return 0;
    }
    // a short numerator is brought up while the exponent allows
    let mut n1: u128 = n;
    let mut e1: i32 = e;
    proof {
        lemma2_to64();
        assert(n * pow2(0) == n) by (nonlinear_arith)
            requires
                pow2(0) == 1,
        ;
    }
    while n1 < 0x0080_0000 && e1 > 0
        invariant
            0 < n1 < NUMERATOR_LIMIT,
            e1 <= e <= 400,
            e1 >= 0 || e1 == e,
            n1 == n * pow2((e - e1) as nat),
            e1 < e ==> n < 0x0080_0000,
        decreases e1 + 400,
    {
        proof {
            lemma_pow2_unfold((e - e1 + 1) as nat);
            lemma_pow2_pos((e - e1) as nat);
            let h = pow2((e - e1) as nat) as int;
            assert(n * (2 * h) == (n * h) * 2 && n <= n * h) by (nonlinear_arith)
                requires
                    h > 0,
                    n >= 0,
            ;
        }
        n1 = n1 * 2;
        e1 = e1 - 1;
    }
    proof {
        // the cell is the same cell in the new units
        if e1 < e {
            lemma_pow2_adds((e - e1) as nat, e1 as nat);
            let h = pow2((e - e1) as nat) as int;
            let u = pow2(e1 as nat) as int;
            assert((n * h) * u == n * (h * u)) by (nonlinear_arith);
            assert(n1 * up_factor(e1 as int) == n * up_factor(e as int));
            assert(down_factor(e1 as int) == down_factor(e as int));
            assert(!sticky);
        }
    }
    let m = round_normalized(n1, e1, sticky);
    proof {
        if e1 < e {
            let hi1 = up_factor(e1 as int);
            let hi = up_factor(e as int);
            assert(2 * n1 * hi1 == 2 * n * hi) by (nonlinear_arith)
                requires
                    n1 * hi1 == n * hi,
            ;
            assert(2 * (n1 + 0) * hi1 == 2 * (n + 0) * hi) by (nonlinear_arith)
                requires
                    n1 * hi1 == n * hi,
            ;
        }
    }
    m
}

/// The first two patterns denote zero and the smallest number.
proof fn lemma_first_patterns()
    ensures
        magnitude_value(0) == 0,
        magnitude_value(1) == 1,
{
}

/// Both factors of an exponent are positive.
proof fn lemma_factors_positive(e: int)
    ensures
        up_factor(e) > 0,
        down_factor(e) > 0,
{
    if e >= 0 {
        lemma_pow2_pos(e as nat);
    } else {
        lemma_pow2_pos((-e) as nat);
    }
}

/// Rounds as `round_to_pattern` does, a numerator that is at least `2^23`
/// wherever its exponent is positive.
fn round_normalized(n: u128, e: i32, sticky: bool) -> (m: u32)
    requires
        0 < n < NUMERATOR_LIMIT,
        -400 <= e <= 400,
        n >= 0x0080_0000 || e <= 0,
        sticky ==> n >= 0x0200_0000,
    ensures
        cell_rounds_to(m as int, n as int, if sticky { 1int } else { 0int }, e as int),
{
    let ghost spread: int = if sticky { 1 } else { 0 };
    let ghost hi = up_factor(e as int);
    let ghost lo = down_factor(e as int);
    let len = bit_length(n);
    let mut r: i32 = len as i32 - 24;
    if r < 0 - e {
        r = 0 - e;
    }
    proof {
        lemma2_to64();
        if n >= 0x0080_0000 {
            if len < 24 {
                lemma_pow2_strictly_increases(len as nat, 24);
                lemma_pow2_unfold(24);
            }
        }
        assert(r >= 0);
        if sticky {
            if len < 26 {
                if len < 25 {
                    lemma_pow2_strictly_increases(len as nat, 25);
                }
            }
            assert(r >= 2);
        }
        lemma_factors_positive(e as int);
    }
    let t: i32 = r + e;
    if t > 254 {
        proof {
            // the significand is full and the exponent beyond the largest
            assert(r == len - 24);
            lemma_overflows(n as int, e as int, r as int, len as int);
        }
        return INFINITY_BITS;
    }
    if r > len as i32 + 1 {
        proof {
            // the whole cell lies below half of the smallest number
            lemma_first_patterns();
            assert(e < 0 && r == -e);
            lemma_pow2_unfold((len + 1) as nat);
            lemma_pow2_strictly_increases((len + 1) as nat, r as nat);
            assert(hi == 1);
            assert(2 * (n + spread) * hi < (0 + 1) * lo) by (nonlinear_arith)
                requires
                    hi == 1,
                    2 * (n + spread) < lo,
            ;
        }
        return 0;
    }
    let p: u128 = power_of_two(r as u32);
    proof {
        lemma_pow2_pos(r as nat);
        lemma_pow2_pos(t as nat);
    }
    let q: u128 = n / p;
    let rem: u128 = n % p;
    proof {
        lemma_fundamental_div_mod(n as int, p as int);
        lemma_mod_bound(n as int, p as int);
        lemma_div_pos_is_pos(n as int, p as int);
        lemma_quotient_fits(n as int, q as int, rem as int, p as int, r as int, len as int);
        lemma_unit_scales(r as int, e as int);
    }
    if t == 254 && q >= 0x0080_0000 {
        proof {
            lemma_overflows_at_top(n as int, e as int, r as int, q as int, rem as int);
        }
        return INFINITY_BITS;
    }
    let m0: u32 = (t as u32) * 0x0080_0000 + (q as u32);
    let twice: u128 = 2 * rem;
    let up = if sticky {
        twice >= p
    } else {
        twice > p || (twice == p && q % 2 == 1)
    };
    proof {
        assert(t > 0 ==> q >= 0x0080_0000) by {
            if t > 0 {
                assert(r == len - 24);
            }
        }
        lemma_grid(q as int, t as int);
        lemma_grid(q as int + 1, t as int);
        assert(m0 < 0x7f80_0000);
        assert(m0 as int % 2 == q as int % 2);
        if sticky {
            lemma_pow2_unfold(r as nat);
        }
        lemma_rounding(
            m0 as int,
            n as int,
            spread,
            e as int,
            q as int,
            rem as int,
            p as int,
            pow2(t as nat) as int,
            up,
        );
    }
    if up {
        m0 + 1
    } else {
        m0
    }
}

/// A numerator of `len` bits, cut `r` bits from its low end with `r` at
/// least `len - 24`, leaves a quotient of at most 24 bits, and one of
/// exactly 24 bits where `r` is `len - 24`.
proof fn lemma_quotient_fits(n: int, q: int, rem: int, p: int, r: int, len: int)
    requires
        1 <= len <= 120,
        r >= 0,
        r >= len - 24,
        pow2((len - 1) as nat) <= n < pow2(len as nat),
        p == pow2(r as nat),
        n == p * q + rem,
        0 <= rem < p,
        0 <= q,
    ensures
        q < 0x0100_0000,
        r == len - 24 ==> q >= 0x0080_0000,
{
    lemma2_to64();
    lemma_pow2_pos(r as nat);
    // n < 2^len <= 2^(r + 24) = p * 2^24
    lemma_pow2_adds(r as nat, 24);
    if len < r + 24 {
        lemma_pow2_strictly_increases(len as nat, (r + 24) as nat);
    }
    assert(q < 0x0100_0000) by (nonlinear_arith)
        requires
            n == p * q + rem,
            0 <= rem,
            0 < p,
            n < p * 0x0100_0000,
    ;
    if r == len - 24 {
        // n >= 2^(len - 1) = p * 2^23
        lemma_pow2_adds(r as nat, 23);
        assert(q >= 0x0080_0000) by (nonlinear_arith)
            requires
                n == p * q + rem,
                rem < p,
                0 < p,
                n >= p * 0x0080_0000,
        ;
    }
}

/// A cell whose numerator is full at an exponent beyond the largest lies at
/// or above `2^128`.
proof fn lemma_overflows(n: int, e: int, r: int, len: int)
    requires
        24 <= len <= 120,
        r == len - 24,
        r + e > 254,
        pow2((len - 1) as nat) <= n,
    ensures
        cell_rounds_to(0x7f80_0000, n, 0, e),
        cell_rounds_to(0x7f80_0000, n, 1, e),
{
    let hi = up_factor(e);
    let lo = down_factor(e);
    let top = pow2(254) as int;
    lemma2_to64();
    lemma_unit_scales(r, e);
    lemma_grid(0x0080_0000, 254);
    assert(254 * 0x0080_0000 + 0x0080_0000 == 0x7f80_0000);
    lemma_magnitude_monotone(0x7f80_0000 - 1, 0x7f80_0000);
    // n >= 2^23 * 2^r, and 2^(r + e) >= 2^255 > 2^254
    lemma_pow2_adds(r as nat, 23);
    lemma_pow2_strictly_increases(254, (r + e) as nat);
    let unit = pow2((r + e) as nat) as int;
    let p = pow2(r as nat) as int;
    lemma_pow2_pos(r as nat);
    lemma_pow2_pos(254);
    let twice_mid = magnitude_value(0x7f80_0000 - 1) + magnitude_value(0x7f80_0000);
    assert(twice_mid * lo < 2 * n * hi) by (nonlinear_arith)
        requires
            twice_mid < 2 * (0x0080_0000 * top),
            top < unit,
            unit * lo == p * hi,
            n >= p * 0x0080_0000,
            hi > 0,
            lo > 0,
            p > 0,
            top > 0,
    ;
}

/// A cell whose quotient is full at the largest exponent lies at or above
/// `2^128`.
proof fn lemma_overflows_at_top(n: int, e: int, r: int, q: int, rem: int)
    requires
        r >= 0,
        r + e == 254,
        q >= 0x0080_0000,
        rem >= 0,
        n == pow2(r as nat) * q + rem,
    ensures
        cell_rounds_to(0x7f80_0000, n, 0, e),
        cell_rounds_to(0x7f80_0000, n, 1, e),
{
    let hi = up_factor(e);
    let lo = down_factor(e);
    let top = pow2(254) as int;
    let p = pow2(r as nat) as int;
    lemma_unit_scales(r, e);
    lemma_pow2_pos(r as nat);
    lemma_pow2_pos(254);
    lemma_grid(0x0080_0000, 254);
    assert(254 * 0x0080_0000 + 0x0080_0000 == 0x7f80_0000);
    lemma_magnitude_monotone(0x7f80_0000 - 1, 0x7f80_0000);
    let twice_mid = magnitude_value(0x7f80_0000 - 1) + magnitude_value(0x7f80_0000);
    assert(twice_mid * lo < 2 * n * hi) by (nonlinear_arith)
        requires
            twice_mid < 2 * (0x0080_0000 * top),
            top * lo == p * hi,
            n == p * q + rem,
            q >= 0x0080_0000,
            rem >= 0,
            hi > 0,
            lo > 0,
            p > 0,
            top > 0,
    ;
}

/// The heart of the rounding: with the cell cut into a quotient `q` on the
/// grid of step `unit` and a remainder `rem` below the step `p` of the cut,
/// the cell rounds down to the quotient's pattern or up to the next, by the
/// remainder against half a step.
proof fn lemma_rounding(
    m0: int,
    n: int,
    spread: int,
    e: int,
    q: int,
    rem: int,
    p: int,
    unit: int,
    up: bool,
)
    requires
        0 <= m0 < 0x7f80_0000,
        spread == 0 || spread == 1,
        magnitude_value(m0) == q * unit,
        magnitude_value(m0 + 1) == (q + 1) * unit,
        m0 % 2 == q % 2,
        n == p * q + rem,
        0 <= rem < p,
        0 <= q,
        unit > 0,
        unit * down_factor(e) == p * up_factor(e),
        spread == 1 ==> p % 2 == 0,
        up == if spread == 1 {
            2 * rem >= p
        } else {
            2 * rem > p || (2 * rem == p && q % 2 == 1)
        },
    ensures
        cell_rounds_to(if up { m0 + 1 } else { m0 }, n, spread, e),
{
    let hi = up_factor(e);
    let lo = down_factor(e);
    lemma_factors_positive(e);
    let v0 = magnitude_value(m0);
    let v1 = magnitude_value(m0 + 1);
    // in units of 2^e the two patterns stand at q * p and (q + 1) * p
    assert(v0 * lo == (q * p) * hi) by (nonlinear_arith)
        requires
            v0 == q * unit,
            unit * lo == p * hi,
    ;
    assert(v1 * lo == ((q + 1) * p) * hi) by (nonlinear_arith)
        requires
            v1 == (q + 1) * unit,
            unit * lo == p * hi,
    ;
    let twice_mid = v0 + v1;
    assert(twice_mid * lo == (2 * q * p + p) * hi) by (nonlinear_arith)
        requires
            twice_mid == v0 + v1,
            v0 * lo == (q * p) * hi,
            v1 * lo == ((q + 1) * p) * hi,
    ;
    assert(2 * n * hi == (2 * q * p + 2 * rem) * hi) by (nonlinear_arith)
        requires
            n == p * q + rem,
    ;
    assert(2 * (n + spread) * hi == (2 * q * p + 2 * (rem + spread)) * hi) by (nonlinear_arith)
        requires
            n == p * q + rem,
    ;
    if up {
        let m = m0 + 1;
        // the lower midpoint is that between m0 and m0 + 1
        assert(twice_mid * lo < 2 * n * hi || (twice_mid * lo == 2 * n * hi && (m % 2 == 0
            || spread > 0))) by {
            if 2 * rem > p {
                assert((2 * q * p + p) * hi < (2 * q * p + 2 * rem) * hi) by (nonlinear_arith)
                    requires
                        p < 2 * rem,
                        hi > 0,
                ;
            } else {
                assert(2 * rem == p);
            }
        }
        if m < 0x7f80_0000 {
            lemma_magnitude_monotone(m, m + 1);
            let v2 = magnitude_value(m + 1);
            assert(2 * (n + spread) * hi < (v1 + v2) * lo) by (nonlinear_arith)
                requires
                    2 * (n + spread) * hi == (2 * q * p + 2 * (rem + spread)) * hi,
                    v1 * lo == ((q + 1) * p) * hi,
                    v1 < v2,
                    rem + spread <= p,
                    hi > 0,
                    lo > 0,
            ;
        }
    } else {
        let m = m0;
        if m > 0 {
            lemma_magnitude_monotone(m - 1, m);
            let vb = magnitude_value(m - 1);
            assert((vb + v0) * lo < 2 * n * hi) by (nonlinear_arith)
                requires
                    2 * n * hi == (2 * q * p + 2 * rem) * hi,
                    v0 * lo == (q * p) * hi,
                    vb < v0,
                    rem >= 0,
                    hi > 0,
                    lo > 0,
            ;
        }
        assert(2 * (n + spread) * hi < twice_mid * lo || (2 * (n + spread) * hi == twice_mid * lo
            && (m % 2 == 0 || spread > 0))) by {
            if 2 * (rem + spread) < p {
                assert((2 * q * p + 2 * (rem + spread)) * hi < (2 * q * p + p) * hi)
                    by (nonlinear_arith)
                    requires
                        2 * (rem + spread) < p,
                        hi > 0,
                ;
            } else {
                assert(2 * (rem + spread) == p);
            }
        }
    }
}

/// Up to the pattern of infinity, a pattern that is not smaller denotes a
/// value that is not smaller.
pub proof fn lemma_magnitude_ordered(m1: int, m2: int)
    requires
        0 <= m1 <= m2 <= 0x7f80_0000,
    ensures
        magnitude_value(m1) <= magnitude_value(m2),
        0 <= magnitude_value(m1),
{
    if m1 < m2 {
        lemma_magnitude_monotone(m1, m2);
    }
    if 0 < m1 {
        lemma_magnitude_monotone(0, m1);
    }
}

/// No two patterns are nearest to one quotient.
pub proof fn lemma_nearest_unique(m1: int, m2: int, num: int, den: int)
    requires
        den > 0,
        is_nearest(m1, num, den),
        is_nearest(m2, num, den),
    ensures
        m1 == m2,
{
    if m1 < m2 {
        lemma_nearest_ordered(m1, m2, num, den);
    } else if m2 < m1 {
        lemma_nearest_ordered(m2, m1, num, den);
    }
}

/// Of two patterns nearest to one quotient, the first is not the smaller.
proof fn lemma_nearest_ordered(m1: int, m2: int, num: int, den: int)
    requires
        den > 0,
        m1 <= m2,
        is_nearest(m1, num, den),
        is_nearest(m2, num, den),
    ensures
        m1 >= m2,
{
    if m1 < m2 {
        let upper = magnitude_value(m1) + magnitude_value(m1 + 1);
        let lower = magnitude_value(m2 - 1) + magnitude_value(m2);
        lemma_magnitude_ordered(m1, m2 - 1);
        lemma_magnitude_ordered(m1 + 1, m2);
        if m1 + 1 < m2 {
            lemma_magnitude_monotone(m1 + 1, m2);
        }
        assert(upper * den <= lower * den) by (nonlinear_arith)
            requires
                upper <= lower,
                den > 0,
        ;
        if upper < lower {
            assert(upper * den < lower * den) by (nonlinear_arith)
                requires
                    upper < lower,
                    den > 0,
            ;
        }
    }
}

/// No two patterns are nearest to one square root.
pub proof fn lemma_nearest_root_unique(m1: int, m2: int, w: int)
    requires
        is_nearest_root(m1, w),
        is_nearest_root(m2, w),
    ensures
        m1 == m2,
{
    if m1 < m2 {
        lemma_nearest_root_ordered(m1, m2, w);
    } else if m2 < m1 {
        lemma_nearest_root_ordered(m2, m1, w);
    }
}

/// Of two patterns nearest to one square root, the first is not the smaller.
proof fn lemma_nearest_root_ordered(m1: int, m2: int, w: int)
    requires
        m1 <= m2,
        is_nearest_root(m1, w),
        is_nearest_root(m2, w),
    ensures
        m1 >= m2,
{
    if m1 < m2 {
        let upper = magnitude_value(m1) + magnitude_value(m1 + 1);
        let lower = magnitude_value(m2 - 1) + magnitude_value(m2);
        lemma_magnitude_ordered(m1, m2 - 1);
        lemma_magnitude_ordered(m1 + 1, m2);
        if m1 + 1 < m2 {
            lemma_magnitude_monotone(m1 + 1, m2);
        }
        assert(upper * upper <= lower * lower) by (nonlinear_arith)
            requires
                0 <= upper <= lower,
        ;
        if upper < lower {
            assert(upper * upper < lower * lower) by (nonlinear_arith)
                requires
                    0 <= upper < lower,
            ;
        }
    }
}

/// A cell that rounds to `m` and holds `num / den` shows `m` to be nearest
/// to that quotient. The quotient is the cell's one number where the spread
/// is zero, and lies strictly inside the cell otherwise.
pub proof fn lemma_cell_holds_quotient(m: int, n: int, spread: int, e: int, num: int, den: int)
    requires
        den > 0,
        n >= 0,
        spread == 0 || spread == 1,
        cell_rounds_to(m, n, spread, e),
        spread == 0 ==> num * down_factor(e) == n * up_factor(e) * den,
        spread == 1 ==> n * up_factor(e) * den < num * down_factor(e) < (n + 1) * up_factor(e)
            * den,
    ensures
        is_nearest(m, num, den),
{
    let hi = up_factor(e);
    let lo = down_factor(e);
    lemma_factors_positive(e);
    if m > 0 {
        let twice_mid = magnitude_value(m - 1) + magnitude_value(m);
        // twice_mid * lo <= 2 n hi, and n hi den <= num lo
        if twice_mid * lo < 2 * n * hi {
            assert(twice_mid * den < 2 * num) by (nonlinear_arith)
                requires
                    twice_mid * lo < 2 * n * hi,
                    n * hi * den <= num * lo,
                    den > 0,
                    lo > 0,
            ;
        } else if spread == 0 {
            assert(twice_mid * den == 2 * num) by (nonlinear_arith)
                requires
                    twice_mid * lo == 2 * n * hi,
                    n * hi * den == num * lo,
                    den > 0,
                    lo > 0,
            ;
        } else {
            assert(twice_mid * den < 2 * num) by (nonlinear_arith)
                requires
                    twice_mid * lo == 2 * n * hi,
                    n * hi * den < num * lo,
                    den > 0,
                    lo > 0,
            ;
        }
    }
    if m < 0x7f80_0000 {
        let twice_mid = magnitude_value(m) + magnitude_value(m + 1);
        if 2 * (n + spread) * hi < twice_mid * lo {
            assert(2 * num < twice_mid * den) by (nonlinear_arith)
                requires
                    2 * (n + spread) * hi < twice_mid * lo,
                    num * lo <= (n + spread) * hi * den,
                    den > 0,
                    lo > 0,
            ;
        } else if spread == 0 {
            assert(2 * num == twice_mid * den) by (nonlinear_arith)
                requires
                    2 * (n + spread) * hi == twice_mid * lo,
                    num * lo == (n + spread) * hi * den,
                    den > 0,
                    lo > 0,
            ;
        } else {
            assert(2 * num < twice_mid * den) by (nonlinear_arith)
                requires
                    2 * (n + spread) * hi == twice_mid * lo,
                    num * lo < (n + spread) * hi * den,
                    den > 0,
                    lo > 0,
            ;
        }
    }
}

/// A cell of whole units `2^h` that rounds to `m` and holds the square root
/// of `w` shows `m` to be nearest to that root. `w` is `big * 4^h`, and the
/// root of `big` is `n` where the spread is zero and lies strictly between
/// `n` and `n + 1` otherwise.
pub proof fn lemma_cell_holds_root(m: int, n: int, spread: int, h: int, big: int, w: int)
    requires
        h >= 0,
        n >= 0,
        spread == 0 || spread == 1,
        cell_rounds_to(m, n, spread, h),
        w == big * (pow2(h as nat) * pow2(h as nat)),
        spread == 0 ==> n * n == big,
        spread == 1 ==> n * n < big < (n + 1) * (n + 1),
    ensures
        is_nearest_root(m, w),
{
    let hi = pow2(h as nat) as int;
    lemma_pow2_pos(h as nat);
    assert(up_factor(h) == hi);
    assert(down_factor(h) == 1);
    if m > 0 {
        let twice_mid = magnitude_value(m - 1) + magnitude_value(m);
        lemma_magnitude_ordered(m - 1, m);
        assert(twice_mid * 1 == twice_mid) by (nonlinear_arith);
        if twice_mid < 2 * n * hi {
            assert(twice_mid * twice_mid < 4 * w) by (nonlinear_arith)
                requires
                    0 <= twice_mid < 2 * n * hi,
                    n * n <= big,
                    w == big * (hi * hi),
                    hi > 0,
                    n >= 0,
            ;
        } else if spread == 0 {
            assert(twice_mid * twice_mid == 4 * w) by (nonlinear_arith)
                requires
                    twice_mid == 2 * n * hi,
                    n * n == big,
                    w == big * (hi * hi),
            ;
        } else {
            assert(twice_mid * twice_mid < 4 * w) by (nonlinear_arith)
                requires
                    twice_mid == 2 * n * hi,
                    n * n < big,
                    w == big * (hi * hi),
                    hi > 0,
            ;
        }
    }
    if m < 0x7f80_0000 {
        let twice_mid = magnitude_value(m) + magnitude_value(m + 1);
        lemma_magnitude_ordered(m, m + 1);
        assert(twice_mid * 1 == twice_mid) by (nonlinear_arith);
        let top = n + spread;
        if 2 * top * hi < twice_mid {
            assert(4 * w < twice_mid * twice_mid) by (nonlinear_arith)
                requires
                    0 <= 2 * top * hi < twice_mid,
                    big <= top * top,
                    w == big * (hi * hi),
                    hi > 0,
                    top >= 0,
            ;
        } else if spread == 0 {
            assert(4 * w == twice_mid * twice_mid) by (nonlinear_arith)
                requires
                    twice_mid == 2 * top * hi,
                    top * top == big,
                    w == big * (hi * hi),
            ;
        } else {
            assert(4 * w < twice_mid * twice_mid) by (nonlinear_arith)
                requires
                    twice_mid == 2 * top * hi,
                    big < top * top,
                    w == big * (hi * hi),
                    hi > 0,
            ;
        }
    }
}

/// Around a normal number the patterns lie close: the steps to its two
/// neighbours are at most `2^-23` of the number itself.
pub proof fn lemma_steps_are_small(m: int)
    requires
        0x0080_0000 <= m < 0x7f80_0000,
    ensures
        0 < magnitude_value(m),
        (magnitude_value(m + 1) - magnitude_value(m)) * 0x0080_0000 <= magnitude_value(m),
        (magnitude_value(m) - magnitude_value(m - 1)) * 0x0080_0000 <= magnitude_value(m),
        magnitude_value(m - 1) < magnitude_value(m) < magnitude_value(m + 1),
{
    let t = m / 0x0080_0000 - 1;
    let q = m % 0x0080_0000 + 0x0080_0000;
    let unit = pow2(t as nat) as int;
    assert(m == t * 0x0080_0000 + q);
    lemma_grid(q, t);
    lemma_grid(q + 1, t);
    lemma_pow2_pos(t as nat);
    lemma_magnitude_monotone(m - 1, m);
    lemma_magnitude_monotone(m, m + 1);
    assert(m + 1 == t * 0x0080_0000 + (q + 1));
    assert((q + 1) * unit - q * unit == unit && unit * 0x0080_0000 <= q * unit && 0 < q * unit)
        by (nonlinear_arith)
        requires
            q >= 0x0080_0000,
            unit > 0,
    ;
    if q > 0x0080_0000 {
        lemma_grid(q - 1, t);
        assert(m - 1 == t * 0x0080_0000 + (q - 1));
        assert(q * unit - (q - 1) * unit == unit) by (nonlinear_arith);
    } else if t > 0 {
        lemma_grid(0x00ff_ffff, t - 1);
        assert(m - 1 == (t - 1) * 0x0080_0000 + 0x00ff_ffff);
        lemma_pow2_unfold(t as nat);
        let half = pow2((t - 1) as nat) as int;
        lemma_pow2_pos((t - 1) as nat);
        assert(0x0080_0000 * (2 * half) - 0x00ff_ffff * half == half && half <= 2 * half)
            by (nonlinear_arith)
            requires
                half > 0,
        ;
    } else {
        lemma2_to64();
        assert(m - 1 == 0x007f_ffff);
        assert(magnitude_value(0x007f_ffff) == 0x007f_ffff);
    }
}

/// A quotient of one or more, in units of the smallest normal number, has a
/// normal number for its nearest; a quotient below `2^127` has a finite one.
pub proof fn lemma_nearest_is_normal(m: int, num: int, den: int)
    requires
        den > 0,
        is_nearest(m, num, den),
    ensures
        num >= 0x0080_0000 * den ==> m >= 0x0080_0000,
        num < pow2(276) * den ==> m < 0x7f80_0000,
{
    if num >= 0x0080_0000 * den && m < 0x0080_0000 {
        lemma_magnitude_ordered(m + 1, 0x0080_0000);
        lemma_magnitude_ordered(m, 0x007f_ffff);
        lemma_grid(0x0080_0000, 0);
        lemma2_to64();
        assert(magnitude_value(0x007f_ffff) == 0x007f_ffff);
        let twice_mid = magnitude_value(m) + magnitude_value(m + 1);
        assert(twice_mid * den < 2 * num) by (nonlinear_arith)
            requires
                twice_mid <= 0x007f_ffff + 0x0080_0000,
                num >= 0x0080_0000 * den,
                den > 0,
        ;
    }
    if num < pow2(276) * den && m == 0x7f80_0000 {
        lemma_grid(0x0080_0000, 254);
        lemma_grid(0x00ff_ffff, 253);
        assert(0x7f80_0000 == 254 * 0x0080_0000 + 0x0080_0000);
        assert(0x7f80_0000 - 1 == 253 * 0x0080_0000 + 0x00ff_ffff);
        lemma_pow2_adds(23, 253);
        lemma_pow2_adds(24, 253);
        lemma_pow2_unfold(254);
        lemma2_to64();
        let step = pow2(253) as int;
        lemma_pow2_pos(253);
        let twice_mid = magnitude_value(m - 1) + magnitude_value(m);
        assert(twice_mid * den > 2 * num) by (nonlinear_arith)
            requires
                twice_mid == 0x00ff_ffff * step + 0x0080_0000 * (2 * step),
                num < (0x0080_0000 * step) * den,
                den > 0,
                step > 0,
        ;
    }
}

/// The nearest number is close: where it is normal, it differs from the
/// quotient by at most `2^-24` of itself.
pub proof fn lemma_nearest_is_close(m: int, num: int, den: int)
    requires
        den > 0,
        0x0080_0000 <= m < 0x7f80_0000,
        is_nearest(m, num, den),
    ensures
        (magnitude_value(m) * den - num) * 0x0100_0000 <= magnitude_value(m) * den,
        (num - magnitude_value(m) * den) * 0x0100_0000 <= magnitude_value(m) * den,
{
    lemma_steps_are_small(m);
    let v = magnitude_value(m);
    let above = magnitude_value(m + 1);
    let below = magnitude_value(m - 1);
    assert((num - v * den) * 0x0100_0000 <= v * den) by (nonlinear_arith)
        requires
            2 * num <= (v + above) * den,
            (above - v) * 0x0080_0000 <= v,
            den > 0,
    ;
    assert((v * den - num) * 0x0100_0000 <= v * den) by (nonlinear_arith)
        requires
            (below + v) * den <= 2 * num,
            (v - below) * 0x0080_0000 <= v,
            den > 0,
    ;
}

/// The nearest number is near, whether normal or not: where it is finite, it
/// differs from the quotient by at most `2^-24` of itself and half a unit of
/// the smallest numbers.
pub proof fn lemma_nearest_is_near(m: int, num: int, den: int)
    requires
        den > 0,
        num >= 0,
        0 <= m < 0x7f80_0000,
        is_nearest(m, num, den),
    ensures
        (magnitude_value(m) * den - num) * 0x0100_0000 <= magnitude_value(m) * den + 0x0080_0000
            * den,
        (num - magnitude_value(m) * den) * 0x0100_0000 <= magnitude_value(m) * den + 0x0080_0000
            * den,
{
    let v = magnitude_value(m);
    if m >= 0x0080_0000 {
        lemma_nearest_is_close(m, num, den);
    } else {
        // among the smallest numbers a pattern denotes itself
        lemma_grid(m, 0);
        lemma_grid(m + 1, 0);
        lemma2_to64();
        assert(v * 1 == v && (m + 1) * 1 == m + 1) by (nonlinear_arith);
        assert(magnitude_value(m) == m && magnitude_value(m + 1) == m + 1);
        assert((num - v * den) * 0x0100_0000 <= v * den + 0x0080_0000 * den) by (nonlinear_arith)
            requires
                2 * num <= (v + (v + 1)) * den,
                v >= 0,
                den > 0,
        ;
        if m > 0 {
            lemma_grid(m - 1, 0);
            assert((m - 1) * 1 == m - 1) by (nonlinear_arith);
            assert(magnitude_value(m - 1) == m - 1);
            assert((v * den - num) * 0x0100_0000 <= v * den + 0x0080_0000 * den)
                by (nonlinear_arith)
                requires
                    ((v - 1) + v) * den <= 2 * num,
                    v >= 0,
                    den > 0,
            ;
        } else {
            assert((v * den - num) * 0x0100_0000 <= v * den + 0x0080_0000 * den)
                by (nonlinear_arith)
                requires
                    v == 0,
                    num >= 0,
                    den > 0,
            ;
        }
    }
}

/// The nearest root is normal and finite, for a number of one unit or more
/// that is not infinite.
pub proof fn lemma_nearest_root_is_normal(m: int, w: int)
    requires
        pow2(149) <= w < pow2(277) * pow2(149),
        is_nearest_root(m, w),
    ensures
        0x0080_0000 <= m < 0x7f80_0000,
{
    lemma2_to64();
    lemma2_to64_rest();
    lemma_pow2_strictly_increases(48, 149);
    if m < 0x0080_0000 {
        lemma_magnitude_ordered(m + 1, 0x0080_0000);
        lemma_magnitude_ordered(m, 0x007f_ffff);
        lemma_grid(0x0080_0000, 0);
        assert(magnitude_value(0x007f_ffff) == 0x007f_ffff);
        let twice_mid = magnitude_value(m) + magnitude_value(m + 1);
        assert(twice_mid * twice_mid < 4 * w) by (nonlinear_arith)
            requires
                0 <= twice_mid <= 0x0100_0000,
                w > 0x1_0000_0000_0000,
        ;
    }
    if m == 0x7f80_0000 {
        lemma_grid(0x0080_0000, 254);
        assert(0x7f80_0000 == 254 * 0x0080_0000 + 0x0080_0000);
        lemma_pow2_adds(23, 254);
        lemma_magnitude_ordered(0, m - 1);
        lemma_pow2_strictly_increases(149, 277);
        let top = pow2(277) as int;
        let one = pow2(149) as int;
        let twice_mid = magnitude_value(m - 1) + magnitude_value(m);
        assert(4 * one <= top) by {
            lemma_pow2_adds(2, 149);
            lemma_pow2_strictly_increases(151, 277);
        }
        lemma_pow2_pos(149);
        assert(twice_mid * twice_mid > 4 * w) by (nonlinear_arith)
            requires
                twice_mid >= top,
                w < top * one,
                4 * one <= top,
                one > 0,
        ;
    }
}

/// The nearest root is close: where it is normal, its square differs from
/// the number by at most `2^-22` of itself.
pub proof fn lemma_nearest_root_is_close(m: int, w: int)
    requires
        0x0080_0000 <= m < 0x7f80_0000,
        is_nearest_root(m, w),
    ensures
        (magnitude_value(m) * magnitude_value(m) - w) * 0x0040_0000 <= magnitude_value(m)
            * magnitude_value(m),
        (w - magnitude_value(m) * magnitude_value(m)) * 0x0040_0000 <= magnitude_value(m)
            * magnitude_value(m),
{
    lemma_steps_are_small(m);
    let v = magnitude_value(m);
    let up = magnitude_value(m + 1) - v;
    let down = v - magnitude_value(m - 1);
    // in units of 2^-23 of v
    let big_up = up * 0x0080_0000;
    let big_down = down * 0x0080_0000;
    assert((2 * v + up) * (2 * v + up) == 4 * (v * v) + 4 * (v * up) + up * up && (2 * v - down)
        * (2 * v - down) == 4 * (v * v) - 4 * (v * down) + down * down) by (nonlinear_arith);
    assert(4 * (v * up) * 0x0080_0000 <= 4 * (v * v) && (up * up) * 0x0080_0000 <= v * up && v
        * up <= v * v) by (nonlinear_arith)
        requires
            0 < up,
            up * 0x0080_0000 <= v,
            0 < v,
    ;
    assert(4 * (v * down) * 0x0080_0000 <= 4 * (v * v) && 0 <= down * down) by (nonlinear_arith)
        requires
            0 < down,
            down * 0x0080_0000 <= v,
            0 < v,
    ;
    assert(magnitude_value(m) + magnitude_value(m + 1) == 2 * v + up);
    assert(magnitude_value(m - 1) + magnitude_value(m) == 2 * v - down);
}

} // verus!
