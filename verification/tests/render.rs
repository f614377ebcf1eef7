//! The library at work: a small picture of four spheres, with every number
//! that chance gives taken from the words of a seeded generator.

use rand::rngs::StdRng;
use rand::{RngCore, SeedableRng};
use raytracer::camera::Camera;
use raytracer::estimator::{background, color_from_words, search_range, MAX_DEPTH};
use raytracer::hitable::{Hittable, Sphere};
use raytracer::material::{scatter, Material};
use raytracer::ray::Ray;
use raytracer::sampling::{unit_from_word, unit_sphere_point_from_words};
use raytracer::scalar::Scalar;
use raytracer::vec3::Vec3;

fn num(x: f32) -> Scalar {
    Scalar::from_bits(x.to_bits())
}

fn float(s: Scalar) -> f32 {
    f32::from_bits(s.to_bits())
}

fn vec3(x: f32, y: f32, z: f32) -> Vec3 {
    Vec3::new(num(x), num(y), num(z))
}

fn supply(rng: &mut StdRng, len: usize) -> Vec<u32> {
    (0..len).map(|_| rng.next_u32()).collect()
}

fn four_spheres() -> Vec<Sphere> {
    vec![
        Sphere::new(vec3(0.0, 0.0, -1.0), num(0.5), Material::Lambertian(vec3(0.1, 0.2, 0.5))),
        Sphere::new(vec3(0.0, -100.5, -1.0), num(100.0), Material::Lambertian(vec3(0.8, 0.8, 0.0))),
        Sphere::new(vec3(1.0, 0.0, -1.0), num(0.5), Material::Metal(vec3(0.8, 0.6, 0.2), num(0.3))),
        Sphere::new(vec3(-1.0, 0.0, -1.0), num(0.5), Material::Dielectric(num(1.5))),
    ]
}

/// The picture, pixel by pixel from the top row down.
fn render(seed: u64, nx: u32, ny: u32, ns: u32) -> Vec<[u32; 3]> {
    let mut rng = StdRng::seed_from_u64(seed);
    let world = four_spheres();
    let cam = Camera::new();
    let mut picture = Vec::new();
    for j in (0..ny).rev() {
        for i in 0..nx {
            let mut col = Vec3::zero();
            for _ in 0..ns {
                let u = (num(i as f32) + unit_from_word(rng.next_u32())) / num(nx as f32);
                let v = (num(j as f32) + unit_from_word(rng.next_u32())) / num(ny as f32);
                let r = cam.get_ray(u, v);
                let words = supply(&mut rng, 4096);
                col += color_from_words(&r, &world, 0, 1000, &words)
                    .expect("four thousand words for one path");
            }
            col /= num(ns as f32);
            picture.push([col.r().to_bits(), col.g().to_bits(), col.b().to_bits()]);
        }
    }
    picture
}

/// The path followed by hand: one step of the library after the other, with
/// the words taken in order. Returns the colour and the words taken.
fn by_hand(r: &Ray, world: &Vec<Sphere>, depth: i32, words: &[u32]) -> (Vec3, usize) {
    let (t_min, t_max) = search_range();
    match world.hit(r, t_min, t_max) {
        Some(rec) if depth < MAX_DEPTH => {
            let mut taken = 0;
            let (ball_point, draw) = match rec.mat {
                Material::Dielectric(_) => {
                    taken += 1;
                    (Vec3::zero(), unit_from_word(words[0]))
                }
                _ => loop {
                    let found = unit_sphere_point_from_words(
                        words[taken],
                        words[taken + 1],
                        words[taken + 2],
                    );
                    taken += 3;
                    if let Some(p) = found {
                        break (p, Scalar::zero());
                    }
                },
            };
            match scatter(r, &rec, ball_point, draw) {
                Some(s) => {
                    let (inner, more) = by_hand(&s.scattered, world, depth + 1, &words[taken..]);
                    (s.attenuation * inner, taken + more)
                }
                None => (Vec3::zero(), taken),
            }
        }
        Some(_) => (Vec3::zero(), 0),
        None => (background(r), 0),
    }
}

#[test]
fn same_seed_gives_the_same_picture() {
    let first = render(7, 16, 8, 2);
    let second = render(7, 16, 8, 2);
    assert_eq!(first.len(), 16 * 8);
    assert_eq!(first, second);
}

#[test]
fn another_seed_gives_another_picture() {
    let first = render(7, 16, 8, 2);
    let second = render(8, 16, 8, 2);
    assert_ne!(first, second);
}

#[test]
fn every_pixel_is_a_finite_colour() {
    let picture = render(2024, 24, 12, 3);
    for (at, pixel) in picture.iter().enumerate() {
        let colour = Vec3::new(
            Scalar::from_bits(pixel[0]),
            Scalar::from_bits(pixel[1]),
            Scalar::from_bits(pixel[2]),
        );
        assert!(colour.is_finite(), "pixel {at} is {colour:?}");
        for channel in [colour.r(), colour.g(), colour.b()] {
            assert!(channel.ge(Scalar::zero()), "pixel {at} has a channel of {:?}", float(channel));
            assert!(channel.le(Scalar::one()), "pixel {at} has a channel of {:?}", float(channel));
        }
    }
}

#[test]
fn the_path_is_the_steps_taken_one_after_the_other() {
    let mut rng = StdRng::seed_from_u64(99);
    let world = four_spheres();
    let cam = Camera::new();
    let mut scattered = 0;
    for _ in 0..200 {
        let u = unit_from_word(rng.next_u32());
        let v = unit_from_word(rng.next_u32());
        let r = cam.get_ray(u, v);
        let words = supply(&mut rng, 4096);
        let (expected, taken) = by_hand(&r, &world, 0, &words);
        let got = color_from_words(&r, &world, 0, 1000, &words).unwrap();
        assert_eq!(
            [got.r().to_bits(), got.g().to_bits(), got.b().to_bits()],
            [expected.r().to_bits(), expected.g().to_bits(), expected.b().to_bits()]
        );
        // the words behind those taken do not matter, and all those taken do
        let got = color_from_words(&r, &world, 0, 1000, &words[..taken].to_vec()).unwrap();
        assert_eq!(got.r().to_bits(), expected.r().to_bits());
        if taken > 0 {
            scattered += 1;
            assert_eq!(color_from_words(&r, &world, 0, 1000, &words[..taken - 1].to_vec()), None);
        }
    }
    assert!(scattered > 50, "only {scattered} of 200 rays were scattered");
}

#[test]
fn the_sky_is_seen_where_nothing_is_hit() {
    let up = Ray::new(vec3(0.0, 0.0, 0.0), vec3(0.0, 1.0, 0.0));
    // no words are needed, and none are read
    assert_eq!(color_from_words(&up, &four_spheres(), 0, 0, &vec![]), Some(vec3(0.5, 0.7, 1.0)));
    assert_eq!(color_from_words(&up, &four_spheres(), 0, 5, &vec![1, 2, 3]), Some(vec3(0.5, 0.7, 1.0)));
    // the direction is taken at length one
    let far_up = Ray::new(vec3(0.0, 0.0, 0.0), vec3(0.0, 2.0, 0.0));
    let empty: Vec<Sphere> = Vec::new();
    assert_eq!(color_from_words(&far_up, &empty, 0, 0, &vec![]), Some(vec3(0.5, 0.7, 1.0)));
    let down = Ray::new(vec3(0.0, 0.0, 0.0), vec3(0.0, -1.0, 0.0));
    for depth in [0, 50] {
        assert_eq!(color_from_words(&down, &empty, depth, 0, &vec![]), Some(vec3(1.0, 1.0, 1.0)));
    }
}

#[test]
fn a_ray_at_the_cap_that_meets_a_sphere_is_black() {
    let world = four_spheres();
    for towards in [[0.0, 0.0, -1.0], [1.0, 0.0, -1.0], [-1.0, 0.0, -1.0], [0.0, -1.0, -1.0]] {
        let r = Ray::new(vec3(0.0, 0.0, 0.0), vec3(towards[0], towards[1], towards[2]));
        assert_eq!(color_from_words(&r, &world, 50, 0, &vec![]), Some(vec3(0.0, 0.0, 0.0)));
    }
}

#[test]
fn a_path_without_words_stops_at_the_first_scattering() {
    let world = four_spheres();
    let at_the_matte = Ray::new(vec3(0.0, 0.0, 0.0), vec3(0.0, 0.0, -1.0));
    let at_the_glass = Ray::new(vec3(0.0, 0.0, 0.0), vec3(-1.0, 0.0, -1.0));
    assert_eq!(color_from_words(&at_the_matte, &world, 0, 1000, &vec![]), None);
    assert_eq!(color_from_words(&at_the_glass, &world, 0, 1000, &vec![]), None);
    // two words are one short of a draw from the cube
    assert_eq!(color_from_words(&at_the_matte, &world, 0, 1000, &vec![1 << 31, 1 << 31]), None);
    // with no draws granted, words do not help a matte surface
    let mut rng = StdRng::seed_from_u64(3);
    assert_eq!(color_from_words(&at_the_matte, &world, 0, 0, &supply(&mut rng, 64)), None);
}

#[test]
fn a_matte_ball_scatters_the_sky_by_the_point_drawn() {
    // the centre of the cube as the ball point: the ray leaves along the normal
    let world = vec![Sphere::new(vec3(0.0, -1.0, 0.0), num(0.5), Material::Lambertian(vec3(0.5, 0.25, 1.0)))];
    let down = Ray::new(vec3(0.0, 1.0, 0.0), vec3(0.0, -1.0, 0.0));
    let centre = vec![1u32 << 31, 1 << 31, 1 << 31];
    // straight up the sky is (0.5, 0.7, 1.0)
    assert_eq!(color_from_words(&down, &world, 0, 1, &centre), Some(vec3(0.25, 0.175, 1.0)));
    // a corner of the cube first: that draw falls outside the ball
    let corner_first = vec![0u32, 0, 0, 1 << 31, 1 << 31, 1 << 31];
    assert_eq!(color_from_words(&down, &world, 0, 2, &corner_first), Some(vec3(0.25, 0.175, 1.0)));
    assert_eq!(color_from_words(&down, &world, 0, 1, &corner_first), None);
}
