//! The radiance estimate.
//!
//! The colour that arrives along a ray is estimated by following one path:
//! the ray is cast at the scene, scattered where it meets a surface, and the
//! scattered ray followed in its turn, until a ray leaves the scene, is
//! swallowed, or the path has been scattered as often as the depth cap
//! allows. The cap alone bounds the work; nothing here waits for the colours
//! to settle.

use vstd::prelude::*;
use vstd::arithmetic::power2::pow2;
use core::ops::{Add, Mul, Sub};
use crate::arithmetic::{difference_of, product_of, sum_of};
use crate::hitable::{HitRecord, Hittable};
use crate::material::{scatter, scatter_of, Material};
use crate::ray::Ray;
use crate::rounding::is_nearest;
use crate::sampling::{
    ball_point_from_words,
    ball_point_of_words,
    lemma_ball_point_found,
    random_ball_point,
    random_unit_word,
    unit_from_word,
    unit_of_word,
};
use crate::scalar::{lemma_grid, Scalar};
use crate::vec3::{make_unit_vector, unit_of, Vec3};

verus! {

/// The number of scatterings after which a path is given up.
pub const MAX_DEPTH: i32 = 50;

/// The pattern of the smallest ray parameter at which a hit counts: the
/// binary32 number nearest to one thousandth. Nearer hits are taken for the
/// surface that the ray has just left.
pub const NEAREST_HIT_BITS: u32 = 0x3a83_126f;

/// The pattern of the bound on the ray parameter of a hit: the positive
/// infinity, so that no hit is too far.
pub const FARTHEST_HIT_BITS: u32 = 0x7f80_0000;

/// The pattern of one half.
pub const HALF_BITS: u32 = 0x3f00_0000;

/// The pattern of the binary32 number nearest to seven tenths.
pub const SEVEN_TENTHS_BITS: u32 = 0x3f33_3333;

/// The range of ray parameters in which a hit counts, both ends excluded:
/// from a little above zero, so that a scattered ray does not meet the
/// surface it leaves, to infinity.
pub fn search_range() -> (range: (Scalar, Scalar))
    ensures
        range.0.bits == NEAREST_HIT_BITS,
        range.1.bits == FARTHEST_HIT_BITS,
        range.0.spec_gt(Scalar::spec_zero()),
        forall|s: Scalar| s.spec_is_finite() ==> s.spec_lt(range.1),
{
    proof {
        lemma_search_range();
    }
    (Scalar::from_bits(NEAREST_HIT_BITS), Scalar::from_bits(FARTHEST_HIT_BITS))
}

/// The colour of the sky at the bottom: white.
pub open spec fn white() -> Vec3 {
    Vec3::spec_ones()
}

/// The colour of the sky at the top: a light blue of one half red, seven
/// tenths green and all blue.
pub open spec fn sky_blue() -> Vec3 {
    Vec3 {
        e0: Scalar { bits: HALF_BITS },
        e1: Scalar { bits: SEVEN_TENTHS_BITS },
        e2: Scalar::spec_one(),
    }
}

/// The colour of the background along a ray: white blended into sky blue by
/// the height of the ray's direction. With `t` one half of the direction's
/// second component, taken at length one, plus one, the colour is
/// `(1 - t) * white + t * sky_blue`.
pub open spec fn background_of(r: Ray) -> Vec3 {
    let t = product_of(Scalar { bits: HALF_BITS }, sum_of(unit_of(r.b).e1, Scalar::spec_one()));
    white().scaled_from_left(difference_of(Scalar::spec_one(), t)).plus(
        sky_blue().scaled_from_left(t),
    )
}

/// The colour of the background along a ray that met nothing.
pub fn background(r: &Ray) -> (c: Vec3)
    ensures
        c == background_of(*r),
{
    let unit_direction = make_unit_vector(r.direction());
    let one = Scalar::one();
    let t = Scalar::from_bits(HALF_BITS).mul(unit_direction.y().add(one));
    let blue = Vec3::new(Scalar::from_bits(HALF_BITS), Scalar::from_bits(SEVEN_TENTHS_BITS), one);
    one.sub(t).mul(Vec3::ones()).add(t.mul(blue))
}

/// The scene's answer to the ray `r` within the search range may be `hit`.
pub open spec fn may_answer<H: Hittable>(world: &Vec<H>, r: Ray, hit: Option<HitRecord>) -> bool {
    call_ensures(
        <Vec<H> as Hittable>::hit,
        (world, &r, Scalar { bits: NEAREST_HIT_BITS }, Scalar { bits: FARTHEST_HIT_BITS }),
        hit,
    )
}

/// What chance gives to a scattering at a surface of the material `mat`,
/// out of a supply of words: the ball point and the sample, if the supply
/// yields them, and the number of words taken.
///
/// A clear medium takes one word, for its sample; its ball point is not
/// read and stands at zero. Every other material runs the rejection sampler
/// for its ball point, with `attempts` draws granted; its sample is not read
/// and stands at zero. Nothing is given where the words run out, or where
/// the draws granted all fall outside the ball.
pub open spec fn chance_of_words(words: Seq<u32>, mat: Material, attempts: int) -> (
    Option<(Vec3, Scalar)>,
    int,
) {
    match mat {
        Material::Dielectric(_) => if words.len() == 0 {
            (None, 0)
        } else {
            (Some((Vec3::spec_zero(), unit_of_word(words[0]))), 1)
        },
        _ => {
            let ball = ball_point_of_words(words, attempts);
            match ball.0 {
                Some(p) => (Some((p, Scalar::spec_zero())), ball.1),
                None => (None, ball.1),
            }
        },
    }
}

/// `hits` is what the rays of one path met: the path of the ray `r` at
/// `depth` through the scene, with every scattering fed from the supply of
/// words. Step by step, what the ray of the step met is an answer of the
/// scene. The path ends where the ray meets nothing, meets a surface at the
/// depth cap or beyond, finds the supply of chance exhausted, or is
/// swallowed; otherwise it goes on with the scattered ray, one level deeper,
/// and with the words that are left.
pub open spec fn is_walk<H: Hittable>(
    world: &Vec<H>,
    r: Ray,
    depth: int,
    words: Seq<u32>,
    attempts: int,
    hits: Seq<Option<HitRecord>>,
) -> bool
    decreases hits.len(),
{
    &&& hits.len() > 0
    &&& may_answer(world, r, hits[0])
    &&& match hits[0] {
        None => hits.len() == 1,
        Some(rec) => if depth >= MAX_DEPTH {
            hits.len() == 1
        } else {
            let chance = chance_of_words(words, rec.mat, attempts);
            match chance.0 {
                None => hits.len() == 1,
                Some(given) => match scatter_of(r, rec, given.0, given.1) {
                    None => hits.len() == 1,
                    Some(s) => is_walk(
                        world,
                        s.scattered,
                        depth + 1,
                        words.skip(chance.1),
                        attempts,
                        hits.drop_first(),
                    ),
                },
            }
        },
    }
}

/// The colour that arrives along the ray `r` at `depth` by the path whose
/// rays met `hits`, with every scattering fed from the supply of words: the
/// background's where the ray meets nothing; black where it meets a surface
/// at the depth cap or beyond, or is swallowed; none where the supply of
/// chance is exhausted; and otherwise the colour that arrives along the
/// scattered ray, weakened by the attenuation.
pub open spec fn color_along(
    r: Ray,
    depth: int,
    words: Seq<u32>,
    attempts: int,
    hits: Seq<Option<HitRecord>>,
) -> Option<Vec3>
    decreases hits.len(),
{
    if hits.len() == 0 {
        None
    } else {
        match hits[0] {
            None => Some(background_of(r)),
            Some(rec) => if depth >= MAX_DEPTH {
                Some(Vec3::spec_zero())
            } else {
                let chance = chance_of_words(words, rec.mat, attempts);
                match chance.0 {
                    None => None,
                    Some(given) => match scatter_of(r, rec, given.0, given.1) {
                        None => Some(Vec3::spec_zero()),
                        Some(s) => match color_along(
                            s.scattered,
                            depth + 1,
                            words.skip(chance.1),
                            attempts,
                            hits.drop_first(),
                        ) {
                            Some(inner) => Some(s.attenuation.times(inner)),
                            None => None,
                        },
                    },
                }
            },
        }
    }
}

/// The number of words that the path takes from the supply.
pub open spec fn words_along(
    r: Ray,
    depth: int,
    words: Seq<u32>,
    attempts: int,
    hits: Seq<Option<HitRecord>>,
) -> int
    decreases hits.len(),
{
    if hits.len() == 0 {
        0
    } else {
        match hits[0] {
            None => 0,
            Some(rec) => if depth >= MAX_DEPTH {
                0
            } else {
                let chance = chance_of_words(words, rec.mat, attempts);
                match chance.0 {
                    None => chance.1,
                    Some(given) => match scatter_of(r, rec, given.0, given.1) {
                        None => chance.1,
                        Some(s) => chance.1 + words_along(
                            s.scattered,
                            depth + 1,
                            words.skip(chance.1),
                            attempts,
                            hits.drop_first(),
                        ),
                    },
                }
            },
        }
    }
}

/// The words were drawn in full: along the path, chance fails to give only
/// where the draws granted to a ball point all fell outside the ball. The
/// words never run short, as those of a supply may: a clear medium always
/// has its word, and a ball point that is not found has taken the three
/// words of every draw it was granted.
pub open spec fn drawn_in_full(
    r: Ray,
    depth: int,
    words: Seq<u32>,
    attempts: int,
    hits: Seq<Option<HitRecord>>,
) -> bool
    decreases hits.len(),
{
    if hits.len() == 0 {
        true
    } else {
        match hits[0] {
            None => true,
            Some(rec) => if depth >= MAX_DEPTH {
                true
            } else {
                let chance = chance_of_words(words, rec.mat, attempts);
                match chance.0 {
                    None => !(rec.mat is Dielectric) && chance.1 == 3 * attempts,
                    Some(given) => match scatter_of(r, rec, given.0, given.1) {
                        None => true,
                        Some(s) => drawn_in_full(
                            s.scattered,
                            depth + 1,
                            words.skip(chance.1),
                            attempts,
                            hits.drop_first(),
                        ),
                    },
                }
            },
        }
    }
}

/// The path ends at a surface that is not a clear medium: at a matte surface
/// or a mirror.
pub open spec fn ends_at_a_ball_point(hits: Seq<Option<HitRecord>>) -> bool {
    &&& hits.len() > 0
    &&& hits.last() matches Some(rec)
    &&& !(rec.mat is Dielectric)
}

/// What chance gives to a scattering at a surface of the material `mat`,
/// out of the words of a supply from the place `at` on: the ball point and
/// the sample, if the supply yields them, and the place where it stops.
pub fn chance_from_words(words: &Vec<u32>, at: usize, mat: Material, attempts: u32) -> (res: (
    Option<(Vec3, Scalar)>,
    usize,
))
    requires
        at <= words.len(),
    ensures
        res.0 == chance_of_words(words@.skip(at as int), mat, attempts as int).0,
        res.1 == at + chance_of_words(words@.skip(at as int), mat, attempts as int).1,
        at <= res.1 <= words.len(),
{
    match mat {
        Material::Dielectric(_) => {
            if at < words.len() {
                (Some((Vec3::zero(), unit_from_word(words[at]))), at + 1)
            } else {
                (None, at)
            }
        },
        _ => {
            let (found, place) = ball_point_from_words(words, at, attempts);
            match found {
                Some(p) => (Some((p, Scalar::zero())), place),
                None => (None, place),
            }
        },
    }
}

/// The colour that arrives along the ray `r`, estimated by following one
/// path with every scattering fed from the supply of words given: what
/// `color` does, for the words that it would have drawn. Where the words run
/// out, or a ball point takes more than `attempts` draws, no colour is
/// returned.
pub fn color_from_words<H: Hittable>(
    r: &Ray,
    world: &Vec<H>,
    depth: i32,
    attempts: u32,
    words: &Vec<u32>,
) -> (res: Option<Vec3>)
    ensures
        exists|hits: Seq<Option<HitRecord>>|
            is_walk(world, *r, depth as int, words@, attempts as int, hits) && res == color_along(
                *r,
                depth as int,
                words@,
                attempts as int,
                hits,
            ),
        (forall|h: Option<HitRecord>| #[trigger] may_answer(world, *r, h) ==> h is None) ==> res
            == Some(background_of(*r)),
        res is None ==> depth < MAX_DEPTH && exists|rec: HitRecord| #[trigger]
            may_answer(world, *r, Some(rec)),
        depth >= MAX_DEPTH ==> res == Some(Vec3::spec_zero()) || res == Some(background_of(*r)),
{
    let (res, place, taken, hits) = follow(r, world, depth, attempts, Some(words), 0);
    proof {
        assert(words@.skip(0) =~= words@);
    }
    res
}

/// The colour that arrives along the ray `r`, estimated by following one
/// path: from scattering to scattering until the ray leaves the scene, is
/// swallowed, or has been scattered `MAX_DEPTH` times. `depth` counts the
/// scatterings behind the ray, and a fresh path starts at zero.
///
/// What chance has to give is drawn from the generator as the path goes,
/// and the colour is the one that `color_from_words` finds on the words
/// drawn. Every scattering off a matte surface or a mirror draws a point of
/// the unit ball, by at most `attempts` draws from the cube. Where all of
/// them fall outside the ball, no colour is returned; the chance of that
/// halves with every attempt granted, and the path then ends at that matte
/// surface or mirror. A path that meets nothing but clear media always has
/// its colour, and a ray that meets nothing has the background's and draws
/// nothing.
pub fn color<H: Hittable>(r: &Ray, world: &Vec<H>, depth: i32, attempts: u32) -> (res: Option<
    Vec3,
>)
    ensures
        exists|words: Seq<u32>, hits: Seq<Option<HitRecord>>|
            is_walk(world, *r, depth as int, words, attempts as int, hits) && res == color_along(
                *r,
                depth as int,
                words,
                attempts as int,
                hits,
            ) && words.len() == words_along(*r, depth as int, words, attempts as int, hits)
                && drawn_in_full(*r, depth as int, words, attempts as int, hits) && (res is None
                ==> ends_at_a_ball_point(hits)),
        (forall|h: Option<HitRecord>| #[trigger] may_answer(world, *r, h) ==> h is None) ==> res
            == Some(background_of(*r)),
        res is None ==> depth < MAX_DEPTH && exists|rec: HitRecord| #[trigger]
            may_answer(world, *r, Some(rec)),
        depth >= MAX_DEPTH ==> res == Some(Vec3::spec_zero()) || res == Some(background_of(*r)),
{
    let (res, place, drawn, hits) = follow(r, world, depth, attempts, None, 0);
    res
}

/// Follows one path, with what chance gives taken from the supply from the
/// place `at` on, or drawn from the generator where there is no supply.
/// Keeps, beside the colour, the place where the supply stops, the words
/// that the path was fed from (what was left of the supply, or what was
/// drawn), and what the rays met.
fn follow<H: Hittable>(
    r: &Ray,
    world: &Vec<H>,
    depth: i32,
    attempts: u32,
    supply: Option<&Vec<u32>>,
    at: usize,
) -> (res: (Option<Vec3>, usize, Ghost<Seq<u32>>, Ghost<Seq<Option<HitRecord>>>))
    requires
        supply matches Some(words) ==> at <= words.len(),
    ensures
        is_walk(world, *r, depth as int, res.2@, attempts as int, res.3@),
        res.0 == color_along(*r, depth as int, res.2@, attempts as int, res.3@),
        supply matches Some(words) ==> res.2@ == words@.skip(at as int) && res.1 == at
            + words_along(*r, depth as int, res.2@, attempts as int, res.3@) && at <= res.1
            <= words.len(),
        supply is None ==> res.2@.len() == words_along(
            *r,
            depth as int,
            res.2@,
            attempts as int,
            res.3@,
        ) && drawn_in_full(*r, depth as int, res.2@, attempts as int, res.3@) && (res.0 is None
            ==> ends_at_a_ball_point(res.3@)),
        res.3@.len() > 0,
        may_answer(world, *r, res.3@[0]),
        res.3@[0] is None ==> res.0 == Some(background_of(*r)),
        res.0 is None ==> depth < MAX_DEPTH && res.3@[0] is Some,
        depth >= MAX_DEPTH ==> res.0 == Some(Vec3::spec_zero()) || res.0 == Some(
            background_of(*r),
        ),
    decreases MAX_DEPTH - depth,
{
    let (t_min, t_max) = search_range();
    let hit = world.hit(r, t_min, t_max);
    assert(may_answer(world, *r, hit));
    let alone: Ghost<Seq<Option<HitRecord>>> = Ghost(Seq::empty().push(hit));
    let left: Ghost<Seq<u32>> = Ghost(
        match supply {
            Some(words) => words@.skip(at as int),
            None => Seq::empty(),
        },
    );
    match hit {
        Some(rec) => {
            if depth < MAX_DEPTH {
                // what chance gives, the place behind it, and the words it
                // was taken from
                let (chance, place, fed) = match supply {
                    Some(words) => {
                        let (chance, place) = chance_from_words(words, at, rec.mat, attempts);
                        (chance, place, left)
                    },
                    None => {
                        let (chance, drawn) = random_chance(rec.mat, attempts);
                        (chance, at, drawn)
                    },
                };
                match chance {
                    Some((ball_point, draw)) => {
                        match scatter(r, &rec, ball_point, draw) {
                            Some(scattered) => {
                                let (inner, end, later, rest) = follow(
                                    &scattered.scattered,
                                    world,
                                    depth + 1,
                                    attempts,
                                    supply,
                                    place,
                                );
                                let words: Ghost<Seq<u32>> = Ghost(
                                    if supply is Some {
                                        fed@
                                    } else {
                                        fed@ + later@
                                    },
                                );
                                let hits: Ghost<Seq<Option<HitRecord>>> = Ghost(alone@ + rest@);
                                proof {
                                    assert(hits@.drop_first() =~= rest@);
                                    assert(hits@[0] == hit);
                                    assert(hits@.last() == rest@.last());
                                    match supply {
                                        Some(given) => {
                                            assert(given@.skip(at as int).skip(place - at)
                                                =~= given@.skip(place as int));
                                        },
                                        None => {
                                            lemma_chance_given(
                                                fed@,
                                                later@,
                                                rec.mat,
                                                attempts as int,
                                            );
                                            assert(words@.skip(fed@.len() as int) =~= later@);
                                        },
                                    }
                                }
                                match inner {
                                    Some(inner) => (
                                        Some(scattered.attenuation.mul(inner)),
                                        end,
                                        words,
                                        hits,
                                    ),
                                    None => (None, end, words, hits),
                                }
                            },
                            None => (Some(Vec3::zero()), place, fed, alone),
                        }
                    },
                    None => (None, place, fed, alone),
                }
            } else {
                (Some(Vec3::zero()), at, left, alone)
            }
        },
        None => (Some(background(r)), at, left, alone),
    }
}

/// Draws from the generator what chance gives to a scattering at a surface
/// of the material `mat`, and keeps the words that it drew.
fn random_chance(mat: Material, attempts: u32) -> (res: (Option<(Vec3, Scalar)>, Ghost<Seq<u32>>))
    ensures
        chance_of_words(res.1@, mat, attempts as int) == (res.0, res.1@.len() as int),
        res.0 is None ==> !(mat is Dielectric) && res.1@.len() == 3 * attempts,
{
    match mat {
        Material::Dielectric(_) => {
            let (draw, word) = random_unit_word();
            let drawn: Ghost<Seq<u32>> = Ghost(Seq::empty().push(word@));
            (Some((Vec3::zero(), draw)), drawn)
        },
        _ => {
            let (found, drawn) = random_ball_point(attempts);
            match found {
                Some(p) => (Some((p, Scalar::zero())), drawn),
                None => (None, drawn),
            }
        },
    }
}

/// What chance has given out of a supply of words it gives out of any longer
/// supply that begins with the same words.
pub proof fn lemma_chance_given(words: Seq<u32>, more: Seq<u32>, mat: Material, attempts: int)
    requires
        chance_of_words(words, mat, attempts).0 is Some,
    ensures
        chance_of_words(words + more, mat, attempts) == chance_of_words(words, mat, attempts),
{
    match mat {
        Material::Dielectric(_) => {
            assert((words + more)[0] == words[0]);
        },
        _ => {
            lemma_ball_point_found(words, more, attempts);
        },
    }
}

/// At the depth cap and beyond nothing is scattered any more: whatever the
/// surface is made of, and whatever the words, the colour along a path is
/// black where the ray meets a surface, and the background's where it meets
/// none.
pub proof fn lemma_color_at_the_cap(
    r: Ray,
    depth: int,
    words: Seq<u32>,
    attempts: int,
    hits: Seq<Option<HitRecord>>,
)
    requires
        depth >= MAX_DEPTH,
        hits.len() > 0,
    ensures
        hits[0] is Some ==> color_along(r, depth, words, attempts, hits) == Some(
            Vec3::spec_zero(),
        ),
        hits[0] is None ==> color_along(r, depth, words, attempts, hits) == Some(background_of(r)),
{
}

/// No path is longer than the depth cap allows: a path at `depth` has at
/// most one step more than there are scatterings left, so that a path from
/// depth zero is scattered at most `MAX_DEPTH` times.
pub proof fn lemma_paths_are_bounded<H: Hittable>(
    world: &Vec<H>,
    r: Ray,
    depth: int,
    words: Seq<u32>,
    attempts: int,
    hits: Seq<Option<HitRecord>>,
)
    requires
        is_walk(world, r, depth, words, attempts, hits),
    ensures
        depth >= MAX_DEPTH ==> hits.len() == 1,
        depth < MAX_DEPTH ==> hits.len() <= MAX_DEPTH - depth + 1,
    decreases hits.len(),
{
    if depth < MAX_DEPTH {
        match hits[0] {
            None => {},
            Some(rec) => {
                let chance = chance_of_words(words, rec.mat, attempts);
                match chance.0 {
                    None => {},
                    Some(given) => {
                        match scatter_of(r, rec, given.0, given.1) {
                            None => {},
                            Some(s) => {
                                lemma_paths_are_bounded(
                                    world,
                                    s.scattered,
                                    depth + 1,
                                    words.skip(chance.1),
                                    attempts,
                                    hits.drop_first(),
                                );
                            },
                        }
                    },
                }
            },
        }
    }
}

/// A path whose words were drawn in full and that has no colour ends at a
/// matte surface or a mirror, below the depth cap, where the draws granted
/// to the ball point all fell outside the ball.
pub proof fn lemma_no_colour_ends_at_a_ball_point<H: Hittable>(
    world: &Vec<H>,
    r: Ray,
    depth: int,
    words: Seq<u32>,
    attempts: int,
    hits: Seq<Option<HitRecord>>,
)
    requires
        is_walk(world, r, depth, words, attempts, hits),
        drawn_in_full(r, depth, words, attempts, hits),
        color_along(r, depth, words, attempts, hits) is None,
    ensures
        ends_at_a_ball_point(hits),
        depth < MAX_DEPTH,
    decreases hits.len(),
{
    match hits[0] {
        None => {},
        Some(rec) => {
            let chance = chance_of_words(words, rec.mat, attempts);
            match chance.0 {
                None => {},
                Some(given) => {
                    match scatter_of(r, rec, given.0, given.1) {
                        None => {},
                        Some(s) => {
                            let rest = hits.drop_first();
                            lemma_no_colour_ends_at_a_ball_point(
                                world,
                                s.scattered,
                                depth + 1,
                                words.skip(chance.1),
                                attempts,
                                rest,
                            );
                            assert(hits.last() == rest.last());
                        },
                    }
                },
            }
        },
    }
}

/// A path that meets nothing but clear media always has a colour, when its
/// words were drawn in full: no point of the ball is asked of chance, so
/// chance cannot fail.
pub proof fn lemma_clear_paths_have_a_colour<H: Hittable>(
    world: &Vec<H>,
    r: Ray,
    depth: int,
    words: Seq<u32>,
    attempts: int,
    hits: Seq<Option<HitRecord>>,
)
    requires
        is_walk(world, r, depth, words, attempts, hits),
        drawn_in_full(r, depth, words, attempts, hits),
        hits.last() matches Some(rec) ==> rec.mat is Dielectric,
    ensures
        color_along(r, depth, words, attempts, hits) is Some,
{
    if color_along(r, depth, words, attempts, hits) is None {
        lemma_no_colour_ends_at_a_ball_point(world, r, depth, words, attempts, hits);
    }
}

/// A ray that meets nothing has the colour of the background, draws nothing
/// and ends its path, at any depth and whatever the words.
pub proof fn lemma_color_of_a_miss(
    r: Ray,
    depth: int,
    words: Seq<u32>,
    attempts: int,
    hits: Seq<Option<HitRecord>>,
)
    requires
        hits.len() > 0,
        hits[0] is None,
    ensures
        color_along(r, depth, words, attempts, hits) == Some(background_of(r)),
        words_along(r, depth, words, attempts, hits) == 0,
{
}

/// The patterns of the sky's colour denote one half, exactly, and the number
/// nearest to seven tenths.
pub proof fn lemma_sky_numbers()
    ensures
        2 * (Scalar { bits: HALF_BITS }).scaled() == pow2(149),
        is_nearest(SEVEN_TENTHS_BITS as int, 7 * (pow2(149) as int), 10),
{
    let unit = pow2(125) as int;
    lemma_grid(0x0080_0000, 125);
    lemma_grid(0x00b3_3332, 125);
    lemma_grid(0x00b3_3333, 125);
    lemma_grid(0x00b3_3334, 125);
    assert((Scalar { bits: HALF_BITS }).magnitude_bits() == 125 * 0x0080_0000 + 0x0080_0000);
    assert(SEVEN_TENTHS_BITS == 125 * 0x0080_0000 + 0x00b3_3333);
    assert(pow2(149) == 0x0100_0000 * unit) by {
        vstd::arithmetic::power2::lemma_pow2_adds(24, 125);
        vstd::arithmetic::power2::lemma2_to64();
    }
    vstd::arithmetic::power2::lemma_pow2_pos(125);
    assert((0x00b3_3332 * unit + 0x00b3_3333 * unit) * 10 < 2 * (7 * (0x0100_0000 * unit)) && 2 * (
    7 * (0x0100_0000 * unit)) < (0x00b3_3333 * unit + 0x00b3_3334 * unit) * 10)
        by (nonlinear_arith)
        requires
            unit > 0,
    ;
}

/// The lower end of the search range is a positive number, and the binary32
/// number nearest to one thousandth. The upper end is above every finite
/// number.
pub proof fn lemma_search_range()
    ensures
        (Scalar { bits: NEAREST_HIT_BITS }).spec_gt(Scalar::spec_zero()),
        is_nearest(NEAREST_HIT_BITS as int, pow2(149) as int, 1000),
        (Scalar { bits: FARTHEST_HIT_BITS }).spec_is_infinite(),
        forall|s: Scalar| s.spec_is_finite() ==> s.spec_lt(Scalar { bits: FARTHEST_HIT_BITS }),
{
    let near = Scalar { bits: NEAREST_HIT_BITS };
    let far = Scalar { bits: FARTHEST_HIT_BITS };
    let unit = pow2(116) as int;
    lemma_grid(0x0083_126e, 116);
    lemma_grid(0x0083_126f, 116);
    lemma_grid(0x0083_1270, 116);
    assert(NEAREST_HIT_BITS == 116 * 0x0080_0000 + 0x0083_126f);
    assert(near.scaled() == 0x0083_126f * unit);
    assert(pow2(149) == 0x2_0000_0000 * unit) by {
        vstd::arithmetic::power2::lemma_pow2_adds(33, 116);
        vstd::arithmetic::power2::lemma2_to64_rest();
    }
    vstd::arithmetic::power2::lemma_pow2_pos(116);
    crate::scalar::lemma_zero_and_one();
    assert(0 < 0x0083_126f * unit && (0x0083_126e * unit + 0x0083_126f * unit) * 1000 < 2 * (
    0x2_0000_0000 * unit) && 2 * (0x2_0000_0000 * unit) < (0x0083_126f * unit + 0x0083_1270 * unit)
        * 1000) by (nonlinear_arith)
        requires
            0 < unit,
    ;
    assert forall|s: Scalar| s.spec_is_finite() implies s.spec_lt(far) by {
        crate::scalar::lemma_order_key(s, far);
    }
}

} // verus!
