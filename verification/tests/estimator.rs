use raytracer::estimator::{
    background, color, search_range, FARTHEST_HIT_BITS, HALF_BITS, MAX_DEPTH, NEAREST_HIT_BITS,
    SEVEN_TENTHS_BITS,
};
use raytracer::hitable::{Hittable, Sphere};
use raytracer::material::Material;
use raytracer::ray::Ray;
use raytracer::scalar::Scalar;
use raytracer::vec3::Vec3;

fn num(x: f32) -> Scalar {
    Scalar::from_bits(x.to_bits())
}

fn vec3(x: f32, y: f32, z: f32) -> Vec3 {
    Vec3::new(num(x), num(y), num(z))
}

fn bits(v: Vec3) -> [u32; 3] {
    [v.x().to_bits(), v.y().to_bits(), v.z().to_bits()]
}

#[test]
fn the_cap_is_fifty() {
    assert_eq!(MAX_DEPTH, 50);
}

#[test]
fn constants_are_the_numbers_they_stand_for() {
    assert_eq!(NEAREST_HIT_BITS, 0.001f32.to_bits());
    assert_eq!(FARTHEST_HIT_BITS, f32::INFINITY.to_bits());
    assert_eq!(HALF_BITS, 0.5f32.to_bits());
    assert_eq!(SEVEN_TENTHS_BITS, 0.7f32.to_bits());
}

#[test]
fn search_range_runs_from_a_thousandth_to_infinity() {
    let (t_min, t_max) = search_range();
    assert_eq!(t_min.to_bits(), 0.001f32.to_bits());
    assert_eq!(t_max.to_bits(), f32::INFINITY.to_bits());
}

#[test]
fn the_sky_is_blue_above_and_white_below() {
    let up = Ray::new(vec3(0.0, 0.0, 0.0), vec3(0.0, 1.0, 0.0));
    assert_eq!(background(&up), vec3(0.5, 0.7, 1.0));
    let down = Ray::new(vec3(0.0, 0.0, 0.0), vec3(0.0, -2.0, 0.0));
    assert_eq!(background(&down), vec3(1.0, 1.0, 1.0));
    let level = Ray::new(vec3(0.0, 5.0, 0.0), vec3(0.0, 0.0, -3.0));
    assert_eq!(background(&level), vec3(0.75, 0.85, 1.0));
}

#[test]
fn the_sky_agrees_with_the_hardware() {
    let mut state: u64 = 31;
    let mut number = move || {
        state = state.wrapping_mul(6364136223846793005).wrapping_add(1442695040888963407);
        f32::from_bits((((state >> 32) as u32) & 0x80ff_ffff) | 0x3f00_0000)
    };
    for _ in 0..2000 {
        let d = [number(), number(), number()];
        let r = Ray::new(vec3(0.0, 0.0, 0.0), vec3(d[0], d[1], d[2]));
        let inverse = 1.0 / (d[0] * d[0] + d[1] * d[1] + d[2] * d[2]).sqrt();
        let t = 0.5 * (d[1] * inverse + 1.0);
        let expected = [
            (1.0 - t) * 1.0 + t * 0.5,
            (1.0 - t) * 1.0 + t * 0.7,
            (1.0 - t) * 1.0 + t * 1.0,
        ];
        assert_eq!(
            bits(background(&r)),
            [expected[0].to_bits(), expected[1].to_bits(), expected[2].to_bits()]
        );
    }
}

fn four_spheres() -> Vec<Sphere> {
    vec![
        Sphere::new(vec3(0.0, 0.0, -1.0), num(0.5), Material::Lambertian(vec3(0.1, 0.2, 0.5))),
        Sphere::new(vec3(0.0, -100.5, -1.0), num(100.0), Material::Lambertian(vec3(0.8, 0.8, 0.0))),
        Sphere::new(vec3(1.0, 0.0, -1.0), num(0.5), Material::Metal(vec3(0.8, 0.6, 0.2), num(0.3))),
        Sphere::new(vec3(-1.0, 0.0, -1.0), num(0.5), Material::Dielectric(num(1.5))),
    ]
}

fn towards(x: f32, y: f32, z: f32) -> Ray {
    Ray::new(vec3(0.0, 0.0, 0.0), vec3(x, y, z))
}

#[test]
fn color_of_a_ray_that_meets_nothing_is_the_sky() {
    let world = four_spheres();
    let up = towards(0.0, 1.0, 0.0);
    for depth in [0, 17, 49, 50, 1000] {
        assert_eq!(color(&up, &world, depth, 0), Some(vec3(0.5, 0.7, 1.0)), "depth {depth}");
    }
    let empty: Vec<Sphere> = Vec::new();
    let level = towards(0.0, 0.0, -1.0);
    assert_eq!(color(&level, &empty, 0, 0), Some(vec3(0.75, 0.85, 1.0)));
}

#[test]
fn color_at_the_cap_is_black_whatever_the_ray_meets() {
    let world = four_spheres();
    for r in [
        towards(0.0, 0.0, -1.0),
        towards(1.0, 0.0, -1.0),
        towards(-1.0, 0.0, -1.0),
        towards(0.0, -1.0, -1.0),
    ] {
        for depth in [50, 51, i32::MAX] {
            // no draws are granted, and none are needed
            assert_eq!(color(&r, &world, depth, 0), Some(vec3(0.0, 0.0, 0.0)), "depth {depth}");
        }
    }
    // one surface of each material, each met head on
    for mat in [
        Material::Lambertian(vec3(0.1, 0.2, 0.5)),
        Material::Metal(vec3(0.8, 0.6, 0.2), num(0.3)),
        Material::Dielectric(num(1.5)),
    ] {
        let world = vec![Sphere::new(vec3(0.0, 0.0, -1.0), num(0.5), mat)];
        assert_eq!(color(&towards(0.0, 0.0, -1.0), &world, 50, 1000), Some(vec3(0.0, 0.0, 0.0)));
    }
}

#[test]
fn a_path_between_two_mirrors_ends_at_the_cap() {
    // two polished mirrors that face each other: the ray goes to and fro
    let mirror = Material::Metal(vec3(1.0, 1.0, 1.0), num(0.0));
    let world = vec![
        Sphere::new(vec3(0.0, 0.0, -101.0), num(100.0), mirror),
        Sphere::new(vec3(0.0, 0.0, 101.0), num(100.0), mirror),
    ];
    for depth in [0, 10, 49] {
        assert_eq!(color(&towards(0.0, 0.0, -1.0), &world, depth, 1000), Some(vec3(0.0, 0.0, 0.0)));
    }
}

#[test]
fn color_without_draws_stops_at_the_first_matte_surface() {
    let world = four_spheres();
    assert_eq!(color(&towards(0.0, 0.0, -1.0), &world, 0, 0), None);
    assert_eq!(color(&towards(0.0, -1.0, -1.0), &world, 49, 0), None);
}

#[test]
fn color_through_glass_alone_needs_no_ball_points() {
    let world = vec![Sphere::new(vec3(0.0, 0.0, -1.0), num(0.5), Material::Dielectric(num(1.5)))];
    for _ in 0..50 {
        let c = color(&towards(0.0, 0.0, -1.0), &world, 0, 0).expect("glass draws no ball points");
        // glass does not weaken: what arrives is the sky, or black from the cap
        assert!(c.is_finite());
        assert!(c == vec3(0.0, 0.0, 0.0) || c.b() == num(1.0), "{c:?}");
    }
}

#[test]
fn color_one_level_under_the_cap_is_one_scattering_of_the_sky() {
    // a matte ball seen from above: what is scattered upwards meets nothing
    let world = vec![Sphere::new(vec3(0.0, -1.0, 0.0), num(0.5), Material::Lambertian(vec3(0.5, 0.5, 0.5)))];
    let down = Ray::new(vec3(0.0, 1.0, 0.0), vec3(0.0, -1.0, 0.0));
    let mut sky = 0;
    for _ in 0..200 {
        let c = color(&down, &world, 49, 1000).expect("a thousand draws all outside the ball");
        if c != vec3(0.0, 0.0, 0.0) {
            sky += 1;
            // half of a colour between white and sky blue
            for (channel, low) in [(c.r(), 0.25), (c.g(), 0.35), (c.b(), 0.5)] {
                assert!(channel.ge(num(low)) && channel.le(num(0.5)), "{c:?}");
            }
        }
    }
    assert!(sky > 150, "only {sky} of 200 paths saw the sky");
}

#[test]
fn colors_of_the_four_spheres_are_finite_and_not_brighter_than_the_sky() {
    let world = four_spheres();
    let mut state: u64 = 51;
    for _ in 0..300 {
        state = state.wrapping_mul(6364136223846793005).wrapping_add(1442695040888963407);
        let x = ((state >> 40) as f32 / 16777216.0) * 4.0 - 2.0;
        state = state.wrapping_mul(6364136223846793005).wrapping_add(1442695040888963407);
        let y = ((state >> 40) as f32 / 16777216.0) * 2.0 - 1.0;
        let c = color(&towards(x, y, -1.0), &world, 0, 1000).expect("a thousand draws");
        assert!(c.is_finite(), "{c:?}");
        for channel in [c.r(), c.g(), c.b()] {
            assert!(channel.ge(Scalar::zero()) && channel.le(Scalar::one()), "{c:?}");
        }
    }
}

#[test]
fn color_takes_scenes_of_any_surfaces() {
    let world: Vec<Box<dyn Hittable>> = vec![
        Box::new(Sphere::new(vec3(0.0, 0.0, -1.0), num(0.5), Material::Dielectric(num(1.5)))),
        Box::new(four_spheres()),
    ];
    assert_eq!(color(&towards(0.0, 1.0, 0.0), &world, 0, 0), Some(vec3(0.5, 0.7, 1.0)));
    assert_eq!(color(&towards(0.0, 0.0, -1.0), &world, 50, 0), Some(vec3(0.0, 0.0, 0.0)));
}

#[test]
fn color_in_an_empty_scene_is_the_sky_by_the_direction_at_length_one() {
    let world: Vec<Box<dyn Hittable>> = Vec::new();
    let far_up = Ray::new(vec3(0.0, 0.0, 0.0), vec3(0.0, 2.0, 0.0));
    assert_eq!(color(&far_up, &world, 0, 0), Some(vec3(0.5, 0.7, 1.0)));
    let down = Ray::new(vec3(0.0, 0.0, 0.0), vec3(0.0, -1.0, 0.0));
    assert_eq!(color(&down, &world, 0, 0), Some(vec3(1.0, 1.0, 1.0)));
    assert_eq!(color(&down, &world, 50, 0), Some(vec3(1.0, 1.0, 1.0)));
}

#[test]
fn a_path_through_glass_alone_always_has_its_colour() {
    // glass behind glass, and no draws granted for ball points
    let world = vec![
        Sphere::new(vec3(0.0, 0.0, -1.0), num(0.5), Material::Dielectric(num(1.5))),
        Sphere::new(vec3(0.0, 0.0, -3.0), num(1.0), Material::Dielectric(num(1.3))),
        Sphere::new(vec3(0.0, 0.0, 3.0), num(1.0), Material::Dielectric(num(2.0))),
    ];
    for depth in [0, 20, 49, 50] {
        for _ in 0..40 {
            assert!(color(&towards(0.0, 0.0, -1.0), &world, depth, 0).is_some());
            assert!(color(&towards(0.1, 0.05, -1.0), &world, depth, 0).is_some());
        }
    }
}
