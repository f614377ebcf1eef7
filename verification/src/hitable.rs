//! Surfaces, and the places where a ray meets them.

use vstd::prelude::*;
use core::ops::{Add, Div, Mul, Sub};
use crate::arithmetic::{difference_of, product_of, quotient_of, root_of, sum_of};
use crate::material::Material;
use crate::ray::Ray;
use crate::scalar::{lemma_between_is_finite, Scalar};
use crate::vec3::{dot, dot_of, Vec3};

verus! {

/// Where a ray met a surface: the ray parameter, the point, the surface
/// normal there (never turned to face the ray) and the surface's material.
#[derive(Clone, Copy, Debug)]
pub struct HitRecord {
    pub t: Scalar,
    pub p: Vec3,
    pub normal: Vec3,
    pub mat: Material,
}

/// A sphere of one material.
#[derive(Clone, Copy, Debug)]
pub struct Sphere {
    pub center: Vec3,
    pub radius: Scalar,
    pub mat: Material,
}

/// `t` lies strictly between the two bounds. A NaN lies nowhere.
pub open spec fn within(t: Scalar, t_min: Scalar, t_max: Scalar) -> bool {
    t.spec_gt(t_min) && t.spec_lt(t_max)
}

impl Sphere {
    /// The discriminant of the quadratic `a t^2 + 2 b t + c = 0` that the ray
    /// and the sphere set up: `b * b - a * c`, with `a` the direction's inner
    /// product with itself, `b` that of the direction with the way from the
    /// centre to the ray's origin, and `c` that way's inner product with
    /// itself less the squared radius.
    pub open spec fn discriminant(self, r: Ray) -> Scalar {
        let oc = r.a.minus(self.center);
        let a = dot_of(r.b, r.b);
        let b = dot_of(oc, r.b);
        let c = difference_of(dot_of(oc, oc), product_of(self.radius, self.radius));
        difference_of(product_of(b, b), product_of(a, c))
    }

    /// The smaller solution of the quadratic: `(-b - root) / a`.
    pub open spec fn near_root(self, r: Ray) -> Scalar {
        let oc = r.a.minus(self.center);
        let a = dot_of(r.b, r.b);
        let b = dot_of(oc, r.b);
        quotient_of(difference_of(b.negated(), root_of(self.discriminant(r))), a)
    }

    /// The larger solution of the quadratic: `(-b + root) / a`.
    pub open spec fn far_root(self, r: Ray) -> Scalar {
        let oc = r.a.minus(self.center);
        let a = dot_of(r.b, r.b);
        let b = dot_of(oc, r.b);
        quotient_of(sum_of(b.negated(), root_of(self.discriminant(r))), a)
    }

    /// The record of the ray meeting this sphere at the parameter `t`: the
    /// point on the ray, and as the normal the way from the centre to that
    /// point over the radius.
    pub open spec fn record_at(self, r: Ray, t: Scalar) -> HitRecord {
        let p = r.point_at(t);
        HitRecord { t, p, normal: p.minus(self.center).shrunk(self.radius), mat: self.mat }
    }

    /// Where the ray meets this sphere within the range: nowhere unless the
    /// discriminant is positive; else at the smaller solution where that lies
    /// strictly inside the range; else at the larger one where that does;
    /// else nowhere.
    pub open spec fn spec_hit(self, r: Ray, t_min: Scalar, t_max: Scalar) -> Option<HitRecord> {
        if !self.discriminant(r).spec_gt(Scalar::spec_zero()) {
            None
        } else if within(self.near_root(r), t_min, t_max) {
            Some(self.record_at(r, self.near_root(r)))
        } else if within(self.far_root(r), t_min, t_max) {
            Some(self.record_at(r, self.far_root(r)))
        } else {
            None
        }
    }

    pub fn new(center: Vec3, radius: Scalar, mat: Material) -> (s: Sphere)
        ensures
            s == (Sphere { center, radius, mat }),
    {
        Sphere { center, radius, mat }
    }

    /// The record of the ray meeting this sphere at `t`.
    fn record(&self, r: &Ray, t: Scalar) -> (rec: HitRecord)
        ensures
            rec == self.record_at(*r, t),
    {
        let p = r.point_at_parameter(t);
        HitRecord { t, p, mat: self.mat, normal: p.sub(self.center).div(self.radius) }
    }
}

/// Whether `t` lies strictly between the two bounds.
pub fn in_range(t: Scalar, t_min: Scalar, t_max: Scalar) -> (r: bool)
    ensures
        r == within(t, t_min, t_max),
{
    t.gt(t_min) && t.lt(t_max)
}

/// Anything a ray can meet.
///
/// Nothing is asked of an implementation: the scan over a scene is proved
/// for whatever the surfaces answer.
pub trait Hittable {
    /// Where the ray meets this surface with a ray parameter strictly inside
    /// the range, if it does.
    fn hit(&self, r: &Ray, t_min: Scalar, t_max: Scalar) -> Option<HitRecord>;
}

impl Hittable for Sphere {
    /// Solves the quadratic and chooses among its solutions. A discriminant
    /// that is zero, negative or a NaN means a miss; a solution counts only
    /// strictly inside the range, and the smaller one goes first.
    ///
    /// A solution that is infinite or a NaN, as a ray without direction
    /// yields, is never inside a range: such a sphere is passed over, and the
    /// ray parameter of a hit is always finite.
    fn hit(&self, r: &Ray, t_min: Scalar, t_max: Scalar) -> (res: Option<HitRecord>)
        ensures
            res == self.spec_hit(*r, t_min, t_max),
            res matches Some(rec) ==> within(rec.t, t_min, t_max) && rec.t.spec_is_finite()
                && rec.mat == self.mat,
            !self.discriminant(*r).spec_gt(Scalar::spec_zero()) ==> res is None,
    {
        let oc = r.origin().sub(self.center);
        let a = dot(r.direction(), r.direction());
        let b = dot(oc, r.direction());
        let c = dot(oc, oc).sub(self.radius.mul(self.radius));
        let discriminant = b.mul(b).sub(a.mul(c));
        if discriminant.gt(Scalar::zero()) {
            let t = b.neg().sub(discriminant.sqrt()).div(a);
            if in_range(t, t_min, t_max) {
                proof {
                    lemma_between_is_finite(t, t_min, t_max);
                }
                return Some(self.record(r, t));
            }
            let t = b.neg().add(discriminant.sqrt()).div(a);
            if in_range(t, t_min, t_max) {
                proof {
                    lemma_between_is_finite(t, t_min, t_max);
                }
                return Some(self.record(r, t));
            }
        }
        None
    }
}

/// `candidates` holds, in scene order, an answer that each surface of
/// `world` may give to the ray.
pub open spec fn answers_of<H: Hittable>(
    world: Seq<H>,
    r: &Ray,
    t_min: Scalar,
    t_max: Scalar,
    candidates: Seq<Option<HitRecord>>,
) -> bool {
    &&& candidates.len() == world.len()
    &&& forall|i: int|
        0 <= i < world.len() ==> call_ensures(
            H::hit,
            (&world[i], r, t_min, t_max),
            #[trigger] candidates[i],
        )
}

/// A boxed surface is met where the surface is.
impl<H: Hittable + ?Sized> Hittable for Box<H> {
    fn hit(&self, r: &Ray, t_min: Scalar, t_max: Scalar) -> (res: Option<HitRecord>)
        ensures
            call_ensures(H::hit, (&**self, r, t_min, t_max), res),
    {
        (**self).hit(r, t_min, t_max)
    }
}

/// A scene is met where its nearest surface is met: every surface is asked
/// once, in order, and the answers are reduced by `nearest_of`.
impl<H: Hittable> Hittable for Vec<H> {
    fn hit(&self, r: &Ray, t_min: Scalar, t_max: Scalar) -> (res: Option<HitRecord>)
        ensures
            exists|candidates: Seq<Option<HitRecord>>|
                answers_of(self@, r, t_min, t_max, candidates) && res == nearest_of(candidates),
    {
        let ghost mut seen: Seq<Option<HitRecord>> = Seq::empty();
        let mut best: Option<HitRecord> = None;
        let mut i: usize = 0;
        while i < self.len()
            invariant
                i <= self.len(),
                answers_of(self@.take(i as int), r, t_min, t_max, seen),
                best == nearest_of(seen),
            decreases self.len() - i,
        {
            let candidate = self[i].hit(r, t_min, t_max);
            proof {
                assert(seen.push(candidate).drop_last() == seen);
                seen = seen.push(candidate);
            }
            best = keep_closer(best, candidate);
            i = i + 1;
        }
        proof {
            assert(self@.take(i as int) == self@);
        }
        best
    }
}

/// What each sphere of a scene answers to a ray, in scene order.
pub open spec fn sphere_answers(world: Seq<Sphere>, r: Ray, t_min: Scalar, t_max: Scalar) -> Seq<
    Option<HitRecord>,
> {
    Seq::new(world.len(), |i: int| world[i].spec_hit(r, t_min, t_max))
}

/// Of an earlier best hit and a new candidate, the one to keep: the candidate
/// only where it is strictly nearer, so that of two equally near hits the
/// earlier stays.
pub open spec fn closer(best: Option<HitRecord>, candidate: Option<HitRecord>) -> Option<
    HitRecord,
> {
    match candidate {
        None => best,
        Some(c) => match best {
            None => candidate,
            Some(b) => if c.t.spec_lt(b.t) {
                candidate
            } else {
                best
            },
        },
    }
}

/// The hit that a scan of the candidates from first to last ends with.
pub open spec fn nearest_of(candidates: Seq<Option<HitRecord>>) -> Option<HitRecord>
    decreases candidates.len(),
{
    if candidates.len() == 0 {
        None
    } else {
        closer(nearest_of(candidates.drop_last()), candidates.last())
    }
}

/// Keeps the nearer of two hits, the earlier one where they are equally near.
pub fn keep_closer(best: Option<HitRecord>, candidate: Option<HitRecord>) -> (res: Option<
    HitRecord,
>)
    ensures
        res == closer(best, candidate),
{
    match candidate {
        None => best,
        Some(c) => match best {
            None => candidate,
            Some(b) => if c.t.lt(b.t) {
                candidate
            } else {
                best
            },
        },
    }
}

/// The nearest of the candidate hits, one entry per surface in scene order,
/// `None` where the surface was missed.
pub fn nearest(candidates: &Vec<Option<HitRecord>>) -> (res: Option<HitRecord>)
    ensures
        res == nearest_of(candidates@),
{
    let mut best: Option<HitRecord> = None;
    let mut i: usize = 0;
    while i < candidates.len()
        invariant
            i <= candidates.len(),
            best == nearest_of(candidates@.take(i as int)),
        decreases candidates.len() - i,
    {
        proof {
            assert(candidates@.take(i + 1).drop_last() == candidates@.take(i as int));
        }
        best = keep_closer(best, candidates[i]);
        i = i + 1;
    }
    proof {
        assert(candidates@.take(i as int) == candidates@);
    }
    best
}

/// No candidate hit carries a NaN as its ray parameter.
pub open spec fn hits_are_numbers(candidates: Seq<Option<HitRecord>>) -> bool {
    forall|j: int|
        0 <= j < candidates.len() && (#[trigger] candidates[j]) is Some
            ==> !candidates[j]->0.t.spec_is_nan()
}

/// The candidate at `i` is a hit, no hit is nearer, and every hit before it
/// is strictly farther.
pub open spec fn earliest_minimum(candidates: Seq<Option<HitRecord>>, i: int) -> bool {
    &&& 0 <= i < candidates.len()
    &&& candidates[i] is Some
    &&& forall|j: int|
        0 <= j < candidates.len() && (#[trigger] candidates[j]) is Some
            ==> candidates[i]->0.t.scaled() <= candidates[j]->0.t.scaled()
    &&& forall|j: int|
        0 <= j < i && (#[trigger] candidates[j]) is Some
            ==> candidates[i]->0.t.scaled() < candidates[j]->0.t.scaled()
}

/// The scan finds nothing exactly when every surface was missed. Otherwise,
/// where no ray parameter is a NaN, it returns the hit with the smallest ray
/// parameter, and of several equally near hits the one that comes first in
/// the scene. The index returned is that hit's place.
pub proof fn lemma_nearest_is_earliest_minimum(candidates: Seq<Option<HitRecord>>) -> (i: int)
    requires
        hits_are_numbers(candidates),
    ensures
        nearest_of(candidates) is None <==> forall|j: int|
            0 <= j < candidates.len() ==> (#[trigger] candidates[j]) is None,
        nearest_of(candidates) is Some ==> earliest_minimum(candidates, i) && nearest_of(
            candidates,
        ) == candidates[i],
    decreases candidates.len(),
{
    if candidates.len() == 0 {
        0
    } else {
        let front = candidates.drop_last();
        let last = candidates.len() - 1;
        assert(forall|j: int| 0 <= j < front.len() ==> front[j] == candidates[j]);
        let i0 = lemma_nearest_is_earliest_minimum(front);
        match candidates.last() {
            None => {
                assert(nearest_of(candidates) == nearest_of(front));
                i0
            },
            Some(c) => {
                match nearest_of(front) {
                    None => {
                        assert(nearest_of(candidates) == candidates[last]);
                        last
                    },
                    Some(b) => {
                        assert(front[i0] == candidates[i0]);
                        if c.t.spec_lt(b.t) {
                            assert(nearest_of(candidates) == candidates[last]);
                            assert forall|j: int|
                                0 <= j < candidates.len() && (#[trigger] candidates[j]) is Some
                            implies c.t.scaled() <= candidates[j]->0.t.scaled() by {
                                if j < last {
                                    assert(front[j] is Some);
                                }
                            }
                            assert forall|j: int|
                                0 <= j < last && (#[trigger] candidates[j]) is Some
                            implies c.t.scaled() < candidates[j]->0.t.scaled() by {
                                assert(front[j] is Some);
                            }
                            last
                        } else {
                            assert(nearest_of(candidates) == candidates[i0]);
                            assert forall|j: int|
                                0 <= j < candidates.len() && (#[trigger] candidates[j]) is Some
                            implies b.t.scaled() <= candidates[j]->0.t.scaled() by {
                                if j < last {
                                    assert(front[j] is Some);
                                }
                            }
                            assert forall|j: int|
                                0 <= j < i0 && (#[trigger] candidates[j]) is Some
                            implies b.t.scaled() < candidates[j]->0.t.scaled() by {
                                assert(front[j] is Some);
                            }
                            i0
                        }
                    },
                }
            },
        }
    }
}

/// Every candidate of `first` occurs in `second`.
pub open spec fn occur_in(first: Seq<Option<HitRecord>>, second: Seq<Option<HitRecord>>) -> bool {
    forall|j: int| 0 <= j < first.len() ==> second.contains(#[trigger] first[j])
}

/// The nearest hit depends on which candidates there are, not on where they
/// stand or how often: two scans over candidates of which each occurs in the
/// other scan too find a hit or none together, and two hits found have the
/// same ray parameter. Where one hit is strictly nearer than every other,
/// both scans return that hit.
pub proof fn lemma_nearest_of_the_same_candidates(
    first: Seq<Option<HitRecord>>,
    second: Seq<Option<HitRecord>>,
)
    requires
        hits_are_numbers(first),
        occur_in(first, second),
        occur_in(second, first),
    ensures
        nearest_of(first) is Some <==> nearest_of(second) is Some,
        nearest_of(first) is Some ==> nearest_of(first)->0.t.scaled() == nearest_of(
            second,
        )->0.t.scaled(),
        (forall|j: int|
            0 <= j < first.len() && (#[trigger] first[j]) is Some && first[j] != nearest_of(first)
                ==> nearest_of(first)->0.t.scaled() < first[j]->0.t.scaled()) ==> nearest_of(
            first,
        ) == nearest_of(second),
{
    assert(hits_are_numbers(second)) by {
        assert forall|j: int| 0 <= j < second.len() && (#[trigger] second[j]) is Some implies !second[j]->0.t.spec_is_nan() by {
            assert(first.contains(second[j]));
            let k = choose|k: int| 0 <= k < first.len() && first[k] == second[j];
            assert(first[k] is Some);
        }
    }
    let i1 = lemma_nearest_is_earliest_minimum(first);
    let i2 = lemma_nearest_is_earliest_minimum(second);
    if nearest_of(first) is Some {
        assert(second.contains(first[i1]));
        let k = choose|k: int| 0 <= k < second.len() && second[k] == first[i1];
        assert(second[k] is Some);
    }
    if nearest_of(second) is Some {
        assert(first.contains(second[i2]));
        let k = choose|k: int| 0 <= k < first.len() && first[k] == second[i2];
        assert(first[k] is Some);
    }
}

/// The nearest hit does not depend on the order of the surfaces: two scans
/// over the same candidates, in whatever order, find a hit or none together,
/// and two hits found have the same ray parameter. Where one hit is strictly
/// nearer than every other, both scans return that hit. Only between equally
/// near surfaces does the order decide.
pub proof fn lemma_nearest_ignores_order(
    first: Seq<Option<HitRecord>>,
    second: Seq<Option<HitRecord>>,
)
    requires
        hits_are_numbers(first),
        first.to_multiset() == second.to_multiset(),
    ensures
        nearest_of(first) is Some <==> nearest_of(second) is Some,
        nearest_of(first) is Some ==> nearest_of(first)->0.t.scaled() == nearest_of(
            second,
        )->0.t.scaled(),
        (forall|j: int|
            0 <= j < first.len() && (#[trigger] first[j]) is Some && first[j] != nearest_of(first)
                ==> nearest_of(first)->0.t.scaled() < first[j]->0.t.scaled()) ==> nearest_of(
            first,
        ) == nearest_of(second),
{
    broadcast use vstd::seq_lib::to_multiset_contains;

    assert forall|j: int| 0 <= j < second.len() implies first.contains(#[trigger] second[j]) by {
        assert(second.contains(second[j]));
        assert(second.to_multiset().count(second[j]) > 0);
    }
    assert forall|j: int| 0 <= j < first.len() implies second.contains(#[trigger] first[j]) by {
        assert(first.contains(first[j]));
        assert(first.to_multiset().count(first[j]) > 0);
    }
    lemma_nearest_of_the_same_candidates(first, second);
}

/// Where a ray meets a scene of spheres does not depend on the order of the
/// spheres: two scenes of the same spheres, in whatever order, are met or
/// missed together, and at the same ray parameter. Where one sphere is met
/// strictly nearer than every other, both scenes give the same hit: the same
/// parameter, point, normal and material. Only between spheres met equally
/// near does the order decide.
pub proof fn lemma_scene_ignores_order(
    first: Seq<Sphere>,
    second: Seq<Sphere>,
    r: Ray,
    t_min: Scalar,
    t_max: Scalar,
)
    requires
        first.to_multiset() == second.to_multiset(),
    ensures
        nearest_of(sphere_answers(first, r, t_min, t_max)) is Some <==> nearest_of(
            sphere_answers(second, r, t_min, t_max),
        ) is Some,
        nearest_of(sphere_answers(first, r, t_min, t_max)) is Some ==> nearest_of(
            sphere_answers(first, r, t_min, t_max),
        )->0.t.scaled() == nearest_of(sphere_answers(second, r, t_min, t_max))->0.t.scaled(),
        (forall|j: int|
            0 <= j < first.len() && (#[trigger] first[j].spec_hit(r, t_min, t_max)) is Some
                && first[j].spec_hit(r, t_min, t_max) != nearest_of(
                sphere_answers(first, r, t_min, t_max),
            ) ==> nearest_of(sphere_answers(first, r, t_min, t_max))->0.t.scaled() < first[j].spec_hit(
                r,
                t_min,
                t_max,
            )->0.t.scaled()) ==> nearest_of(sphere_answers(first, r, t_min, t_max)) == nearest_of(
            sphere_answers(second, r, t_min, t_max),
        ),
{
    broadcast use vstd::seq_lib::to_multiset_contains;

    let one = sphere_answers(first, r, t_min, t_max);
    let other = sphere_answers(second, r, t_min, t_max);
    assert forall|j: int| 0 <= j < one.len() implies other.contains(#[trigger] one[j]) by {
        assert(first.contains(first[j]));
        assert(first.to_multiset().count(first[j]) > 0);
        assert(second.contains(first[j]));
        let k = choose|k: int| 0 <= k < second.len() && second[k] == first[j];
        assert(other[k] == one[j]);
    }
    assert forall|j: int| 0 <= j < other.len() implies one.contains(#[trigger] other[j]) by {
        assert(second.contains(second[j]));
        assert(second.to_multiset().count(second[j]) > 0);
        assert(first.contains(second[j]));
        let k = choose|k: int| 0 <= k < first.len() && first[k] == second[j];
        assert(one[k] == other[j]);
    }
    assert(hits_are_numbers(one));
    assert forall|j: int| 0 <= j < one.len() implies one[j] == (#[trigger] first[j]).spec_hit(
        r,
        t_min,
        t_max,
    ) by {}
    lemma_nearest_of_the_same_candidates(one, other);
    if forall|j: int|
        0 <= j < first.len() && (#[trigger] first[j].spec_hit(r, t_min, t_max)) is Some
            && first[j].spec_hit(r, t_min, t_max) != nearest_of(one) ==> nearest_of(
            one,
        )->0.t.scaled() < first[j].spec_hit(r, t_min, t_max)->0.t.scaled() {
        assert forall|j: int|
            0 <= j < one.len() && (#[trigger] one[j]) is Some && one[j] != nearest_of(
                one,
            ) implies nearest_of(one)->0.t.scaled() < one[j]->0.t.scaled() by {
            assert(one[j] == first[j].spec_hit(r, t_min, t_max));
        }
    }
}

/// A scene of spheres answers a ray with the nearest of what its spheres
/// answer.
pub proof fn lemma_scene_of_spheres(
    world: &Vec<Sphere>,
    r: &Ray,
    t_min: Scalar,
    t_max: Scalar,
    hit: Option<HitRecord>,
)
    requires
        call_ensures(<Vec<Sphere> as Hittable>::hit, (world, r, t_min, t_max), hit),
    ensures
        hit == nearest_of(sphere_answers(world@, *r, t_min, t_max)),
{
    let candidates = choose|candidates: Seq<Option<HitRecord>>|
        answers_of(world@, r, t_min, t_max, candidates) && hit == nearest_of(candidates);
    assert(candidates =~= sphere_answers(world@, *r, t_min, t_max));
}

} // verus!
