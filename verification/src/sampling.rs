//! Uniform random samples.
//!
//! The generator hands out 32-bit words. A word becomes a number in the unit
//! interval by its upper 24 bits, as a multiple of `2^-24`, which is how
//! `rand` itself makes a binary32 sample of a word; doubled and shifted down
//! by one it becomes a coordinate in the cube around the origin. Both are
//! numbers of the arithmetic without any rounding, so that what is drawn is
//! known to lie where it should.
//!
//! A point of the unit ball is found by drawing from the cube until a point
//! falls inside the ball. How many draws that takes is up to chance, so the
//! number of draws is bounded by the caller.

use vstd::prelude::*;
use vstd::arithmetic::power2::{pow2, lemma_pow2_pos, lemma_pow2_adds, lemma2_to64};
use vstd::arithmetic::mul::lemma_mul_strict_inequality;
use crate::arithmetic::{
    difference_of,
    lemma_dyadic_has_pattern,
    lemma_exact_is_nearest,
    lemma_exact_quotient_is_nearest,
    lemma_nearest_to,
    nearest_to,
    product_of,
    signed,
    sum_of,
};
use crate::scalar::{magnitude_value, Scalar};
use crate::vec3::{squared_length_of, Vec3};

verus! {

/// One word from the generator that `rand` keeps for the thread:
/// `rand::random` at 32 bits. Nothing is claimed of the word that comes
/// back. (The generator takes its seed from the operating system, at the
/// thread's first draw and again whenever it reseeds, and panics where the
/// system has no randomness to give; it also panics at the first draw where
/// it cannot register its handler for forked processes.)
#[verifier::external_body]
fn random_word() -> (word: u32) {
    rand::random::<u32>()
}

/// `s` is `k / 2^24` for the 24-bit number `k`: a multiple of `2^-24` that is
/// at least zero and below one.
pub open spec fn is_unit_sample_of(s: Scalar, k: int) -> bool {
    &&& 0 <= k < 0x0100_0000
    &&& s.spec_is_finite()
    &&& !s.spec_is_sign_negative()
    &&& s.scaled() == k * pow2(125)
}

/// `s` is a multiple of `2^-24` that is at least zero and below one.
pub open spec fn is_unit_sample(s: Scalar) -> bool {
    exists|k: int| is_unit_sample_of(s, k)
}

/// `s` is `(k - 2^23) / 2^23` for the 24-bit number `k`: a multiple of
/// `2^-23` that is at least minus one and below one.
pub open spec fn is_cube_coordinate_of(s: Scalar, k: int) -> bool {
    &&& 0 <= k < 0x0100_0000
    &&& s.spec_is_finite()
    &&& s.spec_is_sign_negative() == (k < 0x0080_0000)
    &&& s.scaled() == (k - 0x0080_0000) * pow2(126)
}

/// `s` is a multiple of `2^-23` that is at least minus one and below one.
pub open spec fn is_cube_coordinate(s: Scalar) -> bool {
    exists|k: int| is_cube_coordinate_of(s, k)
}

/// Every component of `v` is a cube coordinate.
pub open spec fn is_cube_point(v: Vec3) -> bool {
    is_cube_coordinate(v.e0) && is_cube_coordinate(v.e1) && is_cube_coordinate(v.e2)
}

/// The number in the unit interval that a word stands for: its upper 24 bits
/// over `2^24`.
pub open spec fn unit_of_word(word: u32) -> Scalar {
    signed(false, nearest_to((word as int / 256) * pow2(125), 1))
}

/// The cube coordinate that a word stands for: twice its unit sample, less
/// one.
pub open spec fn cube_coordinate_of_word(word: u32) -> Scalar {
    let k = word as int / 256;
    if k >= 0x0080_0000 {
        signed(false, nearest_to((k - 0x0080_0000) * pow2(126), 1))
    } else {
        signed(true, nearest_to((0x0080_0000 - k) * pow2(126), 1))
    }
}

/// The number in the unit interval that a word stands for: its upper 24 bits
/// over `2^24`, which is a number of the arithmetic as it stands.
pub fn unit_from_word(word: u32) -> (s: Scalar)
    ensures
        s == unit_of_word(word),
        is_unit_sample_of(s, word as int / 256),
{
    let s = Scalar::from_dyadic(false, word / 256, 125);
    proof {
        lemma_exact_is_nearest(s.magnitude_bits());
        lemma_nearest_to(s.magnitude_bits(), (word as int / 256) * pow2(125), 1);
    }
    s
}

/// The cube coordinate that a word stands for: twice its unit sample, less
/// one, which again is a number of the arithmetic as it stands.
pub fn cube_coordinate_from_word(word: u32) -> (s: Scalar)
    ensures
        s == cube_coordinate_of_word(word),
        is_cube_coordinate_of(s, word as int / 256),
{
    let k: u32 = word / 256;
    if k >= 0x0080_0000 {
        let s = Scalar::from_dyadic(false, k - 0x0080_0000, 126);
        proof {
            lemma_exact_is_nearest(s.magnitude_bits());
            lemma_nearest_to(s.magnitude_bits(), (k - 0x0080_0000) * pow2(126), 1);
        }
        s
    } else {
        let s = Scalar::from_dyadic(true, 0x0080_0000 - k, 126);
        proof {
            assert(-((0x0080_0000 - k) * pow2(126)) == (k - 0x0080_0000) * pow2(126))
                by (nonlinear_arith);
            lemma_exact_is_nearest(s.magnitude_bits());
            lemma_nearest_to(s.magnitude_bits(), (0x0080_0000 - k) * pow2(126), 1);
        }
        s
    }
}

/// Draws a number from the multiples of `2^-24` in the unit interval, zero
/// included and one excluded: one word of the generator, by its upper bits.
pub fn random_unit() -> (s: Scalar)
    ensures
        is_unit_sample(s),
        s.spec_ge(Scalar::spec_zero()),
        s.spec_lt(Scalar::spec_one()),
{
    let word = random_word();
    let s = unit_from_word(word);
    proof {
        assert(is_unit_sample_of(s, word as int / 256));
        lemma_unit_sample_below_one(s);
    }
    s
}

/// Draws a coordinate from the multiples of `2^-23` between minus one,
/// included, and one, excluded: one word of the generator, by its upper bits.
pub fn random_cube_coordinate() -> (s: Scalar)
    ensures
        is_cube_coordinate(s),
        s.spec_ge(Scalar::spec_one().negated()),
        s.spec_lt(Scalar::spec_one()),
{
    let word = random_word();
    let s = cube_coordinate_from_word(word);
    proof {
        assert(is_cube_coordinate_of(s, word as int / 256));
        lemma_cube_coordinate_range(s);
    }
    s
}

/// Draws a point from the cube of side two around the origin, one draw per
/// coordinate, first to last.
pub fn random_cube_point() -> (v: Vec3)
    ensures
        is_cube_point(v),
        v.spec_is_finite(),
{
    let e0 = random_cube_coordinate();
    let e1 = random_cube_coordinate();
    let e2 = random_cube_coordinate();
    proof {
        lemma_cube_coordinate_range(e0);
        lemma_cube_coordinate_range(e1);
        lemma_cube_coordinate_range(e2);
    }
    Vec3::new(e0, e1, e2)
}

/// The point lies inside the unit ball, as the arithmetic has it: its
/// squared length is not one or more.
pub open spec fn is_inside_unit_sphere(p: Vec3) -> bool {
    !squared_length_of(p).spec_ge(Scalar::spec_one())
}

/// Whether the point lies inside the unit ball.
pub fn inside_unit_sphere(p: Vec3) -> (r: bool)
    ensures
        r == is_inside_unit_sphere(p),
{
    !p.squared_length().ge(Scalar::one())
}

/// `draws` is a run of the rejection sampler that was granted `attempts`
/// draws and ended with `res`. Every draw is a point of the cube. A run that
/// returns a point ends with that point, which lies inside the ball, after
/// draws that all fell outside; a run that returns nothing has used up every
/// draw it was granted, and all of them fell outside.
pub open spec fn is_rejection_run(draws: Seq<Vec3>, attempts: int, res: Option<Vec3>) -> bool {
    &&& draws.len() <= attempts
    &&& forall|i: int|
        0 <= i < draws.len() ==> is_cube_point(#[trigger] draws[i]) && draws[i].spec_is_finite()
    &&& match res {
        Some(p) => {
            &&& draws.len() > 0
            &&& draws.last() == p
            &&& is_inside_unit_sphere(p)
            &&& forall|i: int|
                0 <= i < draws.len() - 1 ==> !is_inside_unit_sphere(#[trigger] draws[i])
        },
        None => {
            &&& draws.len() == attempts
            &&& forall|i: int| 0 <= i < draws.len() ==> !is_inside_unit_sphere(#[trigger] draws[i])
        },
    }
}

/// Draws points from the cube until one lies inside the unit ball, and
/// returns that point; gives up after `attempts` draws that all fell
/// outside. A little over half of the cube lies inside the ball, so that
/// two draws are enough on the average.
pub fn random_in_unit_sphere(attempts: u32) -> (res: Option<Vec3>)
    ensures
        exists|draws: Seq<Vec3>| is_rejection_run(draws, attempts as int, res),
        res matches Some(p) ==> is_cube_point(p) && p.spec_is_finite() && is_inside_unit_sphere(p),
        attempts == 0 ==> res is None,
{
    let ghost mut seen: Seq<Vec3> = Seq::empty();
    let mut left: u32 = attempts;
    while left > 0
        invariant
            left <= attempts,
            seen.len() == attempts - left,
            forall|i: int|
                0 <= i < seen.len() ==> is_cube_point(#[trigger] seen[i]) && seen[i].spec_is_finite()
                    && !is_inside_unit_sphere(seen[i]),
        decreases left,
    {
        let p = random_cube_point();
        if inside_unit_sphere(p) {
            proof {
                let run = seen.push(p);
                assert(run.last() == p);
                assert forall|i: int| 0 <= i < run.len() - 1 implies !is_inside_unit_sphere(
                    #[trigger] run[i],
                ) by {
                    assert(run[i] == seen[i]);
                }
                assert forall|i: int| 0 <= i < run.len() implies is_cube_point(#[trigger] run[i])
                    && run[i].spec_is_finite() by {
                    if i < seen.len() {
                        assert(run[i] == seen[i]);
                    }
                }
                assert(is_rejection_run(run, attempts as int, Some(p)));
            }
            return Some(p);
        }
        proof {
            let before = seen;
            seen = seen.push(p);
            assert forall|i: int| 0 <= i < seen.len() implies is_cube_point(#[trigger] seen[i])
                && seen[i].spec_is_finite() && !is_inside_unit_sphere(seen[i]) by {
                if i < before.len() {
                    assert(seen[i] == before[i]);
                }
            }
        }
        left = left - 1;
    }
    proof {
        assert(is_rejection_run(seen, attempts as int, None));
    }
    None
}

/// The point of the cube that three words stand for, one word to a
/// coordinate.
pub open spec fn cube_point_of_words(w0: u32, w1: u32, w2: u32) -> Vec3 {
    Vec3 {
        e0: cube_coordinate_of_word(w0),
        e1: cube_coordinate_of_word(w1),
        e2: cube_coordinate_of_word(w2),
    }
}

/// The point of the cube that three words stand for, where it lies inside
/// the unit ball.
pub fn unit_sphere_point_from_words(w0: u32, w1: u32, w2: u32) -> (res: Option<Vec3>)
    ensures
        res == if is_inside_unit_sphere(cube_point_of_words(w0, w1, w2)) {
            Some(cube_point_of_words(w0, w1, w2))
        } else {
            None
        },
        res matches Some(p) ==> is_cube_point(p) && p.spec_is_finite(),
{
    let e0 = cube_coordinate_from_word(w0);
    let e1 = cube_coordinate_from_word(w1);
    let e2 = cube_coordinate_from_word(w2);
    proof {
        assert(is_cube_coordinate_of(e0, w0 as int / 256));
        assert(is_cube_coordinate_of(e1, w1 as int / 256));
        assert(is_cube_coordinate_of(e2, w2 as int / 256));
    }
    let p = Vec3::new(e0, e1, e2);
    if inside_unit_sphere(p) {
        Some(p)
    } else {
        None
    }
}

/// What the rejection sampler makes of a supply of words when it is granted
/// `attempts` draws: the point it finds, if any, and the number of words it
/// takes. Three words make one draw. The first draw that lies inside the
/// ball is the point. No point is found where the draws granted all fall
/// outside, or where the words run out first; what is left of the words is
/// then taken too.
pub open spec fn ball_point_of_words(words: Seq<u32>, attempts: int) -> (Option<Vec3>, int)
    decreases attempts,
{
    if attempts <= 0 {
        (None, 0)
    } else if words.len() < 3 {
        (None, words.len() as int)
    } else {
        let p = cube_point_of_words(words[0], words[1], words[2]);
        if is_inside_unit_sphere(p) {
            (Some(p), 3)
        } else {
            let rest = ball_point_of_words(words.skip(3), attempts - 1);
            (rest.0, rest.1 + 3)
        }
    }
}

/// Runs the rejection sampler on the words of a supply from the place `at`
/// on, with `attempts` draws granted: returns the point it finds, if any,
/// and the place in the supply where it stops.
pub fn ball_point_from_words(words: &Vec<u32>, at: usize, attempts: u32) -> (res: (
    Option<Vec3>,
    usize,
))
    requires
        at <= words.len(),
    ensures
        res.0 == ball_point_of_words(words@.skip(at as int), attempts as int).0,
        res.1 == at + ball_point_of_words(words@.skip(at as int), attempts as int).1,
        at <= res.1 <= words.len(),
{
    let mut place: usize = at;
    let mut left: u32 = attempts;
    while left > 0
        invariant
            at <= place <= words.len(),
            left <= attempts,
            ball_point_of_words(words@.skip(at as int), attempts as int).0 == ball_point_of_words(
                words@.skip(place as int),
                left as int,
            ).0,
            at + ball_point_of_words(words@.skip(at as int), attempts as int).1 == place
                + ball_point_of_words(words@.skip(place as int), left as int).1,
        decreases left,
    {
        let ghost here = words@.skip(place as int);
        if words.len() - place < 3 {
            return (None, words.len());
        }
        proof {
            assert(here.skip(3) =~= words@.skip(place + 3));
            assert(here[0] == words@[place as int]);
            assert(here[1] == words@[place + 1]);
            assert(here[2] == words@[place + 2]);
        }
        let found = unit_sphere_point_from_words(words[place], words[place + 1], words[place + 2]);
        place = place + 3;
        if found.is_some() {
            return (found, place);
        }
        left = left - 1;
    }
    (None, place)
}

/// Runs the rejection sampler on words drawn from the generator, with
/// `attempts` draws granted, and keeps the words that it drew.
pub(crate) fn random_ball_point(attempts: u32) -> (res: (Option<Vec3>, Ghost<Seq<u32>>))
    ensures
        ball_point_of_words(res.1@, attempts as int) == (res.0, res.1@.len() as int),
        res.0 matches Some(p) ==> is_cube_point(p) && p.spec_is_finite() && is_inside_unit_sphere(p),
        res.0 is None ==> res.1@.len() == 3 * attempts,
{
    let mut seen: Ghost<Seq<u32>> = Ghost(Seq::empty());
    let mut left: u32 = attempts;
    while left > 0
        invariant
            left <= attempts,
            seen@.len() == 3 * (attempts - left),
            forall|rest: Seq<u32>| #[trigger]
                ball_point_of_words(seen@ + rest, attempts as int) == (
                    ball_point_of_words(rest, left as int).0,
                    ball_point_of_words(rest, left as int).1 + seen@.len(),
                ),
        decreases left,
    {
        let w0 = random_word();
        let w1 = random_word();
        let w2 = random_word();
        let found = unit_sphere_point_from_words(w0, w1, w2);
        let ghost before = seen@;
        let ghost triple = seq![w0, w1, w2];
        proof {
            seen@ = before + triple;
            assert forall|rest: Seq<u32>| #[trigger]
                ball_point_of_words(before + (triple + rest), attempts as int) == ball_point_of_words(
                    seen@ + rest,
                    attempts as int,
                ) by {
                assert(before + (triple + rest) =~= seen@ + rest);
            }
            assert forall|rest: Seq<u32>|
                (#[trigger] (triple + rest)).skip(3) == rest && (triple + rest)[0] == w0 && (triple
                    + rest)[1] == w1 && (triple + rest)[2] == w2 by {
                assert((triple + rest).skip(3) =~= rest);
            }
        }
        if found.is_some() {
            proof {
                let none: Seq<u32> = Seq::empty();
                assert(triple + none =~= triple);
                assert(seen@ + none =~= seen@);
                assert(ball_point_of_words(before + (triple + none), attempts as int) == (
                    ball_point_of_words(triple + none, left as int).0,
                    ball_point_of_words(triple + none, left as int).1 + before.len(),
                ));
            }
            return (found, seen);
        }
        proof {
            assert forall|rest: Seq<u32>| #[trigger]
                ball_point_of_words(seen@ + rest, attempts as int) == (
                    ball_point_of_words(rest, left as int - 1).0,
                    ball_point_of_words(rest, left as int - 1).1 + seen@.len(),
                ) by {
                assert(ball_point_of_words(before + (triple + rest), attempts as int) == (
                    ball_point_of_words(triple + rest, left as int).0,
                    ball_point_of_words(triple + rest, left as int).1 + before.len(),
                ));
                assert((triple + rest).skip(3) == rest);
            }
        }
        left = left - 1;
    }
    proof {
        let none: Seq<u32> = Seq::empty();
        assert(seen@ + none =~= seen@);
    }
    (None, seen)
}

/// Draws a unit sample from the generator, and keeps the word that it drew.
pub(crate) fn random_unit_word() -> (res: (Scalar, Ghost<u32>))
    ensures
        res.0 == unit_of_word(res.1@),
        is_unit_sample(res.0),
{
    let word = random_word();
    let s = unit_from_word(word);
    proof {
        assert(is_unit_sample_of(s, word as int / 256));
    }
    (s, Ghost(word))
}

/// What the rejection sampler has found in a supply of words it finds in any
/// longer supply that begins with the same words.
pub proof fn lemma_ball_point_found(words: Seq<u32>, more: Seq<u32>, attempts: int)
    requires
        ball_point_of_words(words, attempts).0 is Some,
    ensures
        ball_point_of_words(words + more, attempts) == ball_point_of_words(words, attempts),
    decreases attempts,
{
    if attempts > 0 && words.len() >= 3 {
        let longer = words + more;
        assert(longer[0] == words[0] && longer[1] == words[1] && longer[2] == words[2]);
        let p = cube_point_of_words(words[0], words[1], words[2]);
        if !is_inside_unit_sphere(p) {
            assert(longer.skip(3) =~= words.skip(3) + more);
            lemma_ball_point_found(words.skip(3), more, attempts - 1);
        }
    }
}

/// The number that a word stands for in the unit interval is the unit sample
/// of the word's upper 24 bits.
pub proof fn lemma_unit_of_word(word: u32)
    ensures
        is_unit_sample_of(unit_of_word(word), word as int / 256),
        is_unit_sample(unit_of_word(word)),
{
    let k = word as int / 256;
    let m = lemma_dyadic_has_pattern(k, 125);
    assert(k * pow2(125) == magnitude_value(m) * 1) by (nonlinear_arith)
        requires
            magnitude_value(m) == k * pow2(125),
    ;
    lemma_exact_quotient_is_nearest(m, k * pow2(125), 1);
    assert((Scalar { bits: m as u32 }).magnitude_bits() == m);
    assert(is_unit_sample_of(unit_of_word(word), k));
}

/// The coordinate that a word stands for is the cube coordinate of the
/// word's upper 24 bits.
pub proof fn lemma_cube_coordinate_of_word(word: u32)
    ensures
        is_cube_coordinate_of(cube_coordinate_of_word(word), word as int / 256),
        is_cube_coordinate(cube_coordinate_of_word(word)),
{
    let k = word as int / 256;
    let unit = pow2(126) as int;
    if k >= 0x0080_0000 {
        let m = lemma_dyadic_has_pattern(k - 0x0080_0000, 126);
        assert((k - 0x0080_0000) * unit == magnitude_value(m) * 1) by (nonlinear_arith)
            requires
                magnitude_value(m) == (k - 0x0080_0000) * unit,
        ;
        lemma_exact_quotient_is_nearest(m, (k - 0x0080_0000) * unit, 1);
        assert((Scalar { bits: m as u32 }).magnitude_bits() == m);
    } else {
        let m = lemma_dyadic_has_pattern(0x0080_0000 - k, 126);
        assert((0x0080_0000 - k) * unit == magnitude_value(m) * 1 && -((0x0080_0000 - k) * unit)
            == (k - 0x0080_0000) * unit) by (nonlinear_arith)
            requires
                magnitude_value(m) == (0x0080_0000 - k) * unit,
        ;
        lemma_exact_quotient_is_nearest(m, (0x0080_0000 - k) * unit, 1);
        assert((Scalar { bits: (m + 0x8000_0000) as u32 }).magnitude_bits() == m);
    }
    assert(is_cube_coordinate_of(cube_coordinate_of_word(word), k));
}

/// The coordinate that a word stands for is what the arithmetic makes of
/// twice the word's unit sample, less one: neither step rounds.
pub proof fn lemma_cube_coordinate_is_twice_less_one(word: u32)
    ensures
        cube_coordinate_of_word(word) == difference_of(
            product_of(crate::material::two(), unit_of_word(word)),
            Scalar::spec_one(),
        ),
{
    reveal(product_of);
    reveal(sum_of);
    let k = word as int / 256;
    let u = unit_of_word(word);
    let two = crate::material::two();
    let one = Scalar::spec_one();
    let unit = pow2(126) as int;
    lemma_unit_of_word(word);
    crate::scalar::lemma_zero_and_one();
    crate::scalar::lemma_negated(one);
    // two denotes 2^150
    crate::scalar::lemma_grid(0x0080_0000, 127);
    assert(two.magnitude_bits() == 127 * 0x0080_0000 + 0x0080_0000);
    lemma2_to64();
    lemma_pow2_adds(23, 127);
    lemma_pow2_adds(150, 125);
    lemma_pow2_adds(126, 149);
    lemma_pow2_adds(23, 126);
    // the product is k * 2^126, exactly
    let mp = lemma_dyadic_has_pattern(k, 126);
    let num = two.scaled_magnitude() * u.scaled_magnitude();
    assert(num == magnitude_value(mp) * pow2(149)) by (nonlinear_arith)
        requires
            num == (0x0080_0000 * pow2(127)) * (k * pow2(125)),
            0x0080_0000 * pow2(127) == pow2(150),
            pow2(150) * pow2(125) == pow2(126) * pow2(149),
            magnitude_value(mp) == k * pow2(126),
    ;
    lemma_pow2_pos(149);
    lemma_exact_quotient_is_nearest(mp, num, pow2(149) as int);
    let p = product_of(two, u);
    assert(p == Scalar { bits: mp as u32 });
    assert(p.magnitude_bits() == mp);
    // the difference is (k - 2^23) * 2^126, exactly
    let s = p.scaled() + one.negated().scaled();
    assert(s == (k - 0x0080_0000) * unit && -s == (0x0080_0000 - k) * unit && (k == 0x0080_0000
        ==> (k - 0x0080_0000) * unit == 0)) by (nonlinear_arith)
        requires
            s == k * unit - pow2(149),
            pow2(149) == 0x0080_0000 * unit,
    ;
    lemma_pow2_pos(126);
    assert(k > 0x0080_0000 ==> s > 0) by (nonlinear_arith)
        requires
            s == (k - 0x0080_0000) * unit,
            unit > 0,
    ;
    assert(k < 0x0080_0000 ==> s < 0) by (nonlinear_arith)
        requires
            s == (k - 0x0080_0000) * unit,
            unit > 0,
    ;
    if k == 0x0080_0000 {
        lemma_exact_quotient_is_nearest(0, 0, 1);
    }
}

/// A unit sample is a number, at least zero and strictly below one.
pub proof fn lemma_unit_sample_below_one(s: Scalar)
    requires
        is_unit_sample(s),
    ensures
        s.spec_is_finite(),
        Scalar::spec_zero().spec_le(s),
        s.spec_lt(Scalar::spec_one()),
{
    let k = choose|k: int| is_unit_sample_of(s, k);
    crate::scalar::lemma_zero_and_one();
    lemma_pow2_adds(24, 125);
    lemma2_to64();
    lemma_pow2_pos(125);
    assert(k * pow2(125) < 0x0100_0000 * pow2(125)) by {
        lemma_mul_strict_inequality(k, 0x0100_0000, pow2(125) as int);
    }
    assert(0 <= k * pow2(125)) by (nonlinear_arith)
        requires
            0 <= k,
            0 < pow2(125),
    ;
}

/// A cube coordinate is a number, at least minus one and strictly below one.
pub proof fn lemma_cube_coordinate_range(s: Scalar)
    requires
        is_cube_coordinate(s),
    ensures
        s.spec_is_finite(),
        Scalar::spec_one().negated().spec_le(s),
        s.spec_lt(Scalar::spec_one()),
{
    let k = choose|k: int| is_cube_coordinate_of(s, k);
    let one = Scalar::spec_one();
    crate::scalar::lemma_zero_and_one();
    crate::scalar::lemma_negated(one);
    lemma_pow2_adds(23, 126);
    lemma2_to64();
    lemma_pow2_pos(126);
    let p = pow2(126) as int;
    assert((k - 0x0080_0000) * p < 0x0080_0000 * p) by {
        lemma_mul_strict_inequality(k - 0x0080_0000, 0x0080_0000, p);
    }
    assert(-(0x0080_0000 * p) <= (k - 0x0080_0000) * p) by (nonlinear_arith)
        requires
            0 <= k,
            0 < p,
    ;
}

} // verus!
