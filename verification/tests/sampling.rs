use raytracer::estimator::chance_from_words;
use raytracer::material::Material;
use raytracer::sampling::{
    ball_point_from_words, cube_coordinate_from_word, inside_unit_sphere, random_cube_coordinate, random_cube_point,
    random_in_unit_sphere, random_unit, unit_from_word, unit_sphere_point_from_words,
};
use raytracer::scalar::Scalar;
use raytracer::vec3::Vec3;

fn num(x: f32) -> Scalar {
    Scalar::from_bits(x.to_bits())
}

fn float(s: Scalar) -> f32 {
    f32::from_bits(s.to_bits())
}

fn vec3(x: f32, y: f32, z: f32) -> Vec3 {
    Vec3::new(num(x), num(y), num(z))
}

/// Words whose upper 24 bits run through the corners and a spread of what
/// lies between, with low bits that must not matter.
fn words() -> Vec<u32> {
    let mut all = vec![
        0,
        0xff,
        0x100,
        0x1ff,
        0x7fff_ff00,
        0x7fff_ffff,
        0x8000_0000,
        0x8000_00ff,
        0x8000_0100,
        0xffff_ff00,
        0xffff_ffff,
    ];
    let mut w: u32 = 1;
    for _ in 0..4000 {
        w = w.wrapping_mul(1664525).wrapping_add(1013904223);
        all.push(w);
    }
    all
}

#[test]
fn unit_sample_is_the_upper_bits_over_two_to_the_24() {
    assert_eq!(float(unit_from_word(0)), 0.0);
    assert_eq!(unit_from_word(0xff).to_bits(), 0);
    assert_eq!(float(unit_from_word(0x100)), 1.0 / 16777216.0);
    assert_eq!(float(unit_from_word(0x4000_0000)), 0.25);
    assert_eq!(float(unit_from_word(0x8000_0000)), 0.5);
    assert_eq!(float(unit_from_word(0xc000_0000)), 0.75);
    assert_eq!(float(unit_from_word(0xffff_ffff)), 16777215.0 / 16777216.0);
    for w in words() {
        let expected = (w >> 8) as f32 * (1.0 / 16777216.0);
        assert_eq!(unit_from_word(w).to_bits(), expected.to_bits(), "word {w:#x}");
    }
}

#[test]
fn cube_coordinate_is_twice_the_unit_sample_less_one() {
    assert_eq!(float(cube_coordinate_from_word(0)), -1.0);
    assert_eq!(float(cube_coordinate_from_word(0x4000_0000)), -0.5);
    assert_eq!(cube_coordinate_from_word(0x8000_0000).to_bits(), 0);
    assert_eq!(float(cube_coordinate_from_word(0xc000_0000)), 0.5);
    assert_eq!(float(cube_coordinate_from_word(0xffff_ffff)), 8388607.0 / 8388608.0);
    for w in words() {
        let expected = 2.0 * float(unit_from_word(w)) - 1.0;
        assert_eq!(cube_coordinate_from_word(w).to_bits(), expected.to_bits(), "word {w:#x}");
        let twice = num(2.0) * unit_from_word(w) - num(1.0);
        assert_eq!(cube_coordinate_from_word(w).to_bits(), twice.to_bits(), "word {w:#x}");
    }
}

#[test]
fn unit_samples_lie_in_the_unit_interval() {
    let mut low = false;
    let mut high = false;
    for _ in 0..4000 {
        let s = random_unit();
        let x = float(s);
        assert!((0.0..1.0).contains(&x), "drew {x:?}");
        assert!(!s.is_sign_negative());
        // a multiple of 2^-24
        assert_eq!((x * 16777216.0).fract(), 0.0);
        low |= x < 0.5;
        high |= x >= 0.5;
    }
    assert!(low && high);
}

#[test]
fn cube_coordinates_lie_in_the_cube() {
    let mut below = false;
    let mut above = false;
    for _ in 0..4000 {
        let x = float(random_cube_coordinate());
        assert!((-1.0..1.0).contains(&x), "drew {x:?}");
        assert_eq!((x * 8388608.0).fract(), 0.0);
        below |= x < 0.0;
        above |= x > 0.0;
    }
    assert!(below && above);
}

#[test]
fn cube_points_lie_in_the_cube() {
    let mut inside = 0;
    for _ in 0..4000 {
        let p = random_cube_point();
        for c in [float(p.x()), float(p.y()), float(p.z())] {
            assert!((-1.0..1.0).contains(&c), "drew {c:?}");
        }
        if inside_unit_sphere(p) {
            inside += 1;
        }
    }
    // the ball fills a little over half of the cube
    assert!(inside > 1600 && inside < 2600, "{inside} of 4000 inside");
}

#[test]
fn ball_is_open() {
    assert!(inside_unit_sphere(vec3(0.0, 0.0, 0.0)));
    assert!(inside_unit_sphere(vec3(0.5, 0.5, 0.5)));
    assert!(inside_unit_sphere(vec3(0.99999994, 0.0, 0.0)));
    assert!(!inside_unit_sphere(vec3(1.0, 0.0, 0.0)));
    assert!(!inside_unit_sphere(vec3(0.0, -1.0, 0.0)));
    assert!(!inside_unit_sphere(vec3(0.6, 0.8, 0.0)));
    assert!(!inside_unit_sphere(vec3(0.75, 0.75, 0.75)));
    assert!(!inside_unit_sphere(vec3(f32::INFINITY, 0.0, 0.0)));
}

#[test]
fn points_drawn_from_the_ball_lie_in_it() {
    for _ in 0..2000 {
        let p = random_in_unit_sphere(1000).expect("a thousand draws all outside the ball");
        let (x, y, z) = (float(p.x()), float(p.y()), float(p.z()));
        assert!(x * x + y * y + z * z < 1.0);
        assert!(inside_unit_sphere(p));
    }
}

#[test]
fn no_draws_no_point() {
    assert!(random_in_unit_sphere(0).is_none());
}

#[test]
fn one_draw_falls_outside_the_ball_now_and_then() {
    let mut outside = 0;
    for _ in 0..2000 {
        if random_in_unit_sphere(1).is_none() {
            outside += 1;
        }
    }
    assert!(outside > 600 && outside < 1300, "{outside} of 2000 outside");
}

#[test]
fn three_words_give_a_point_or_none() {
    // the centre of the cube
    let p = unit_sphere_point_from_words(0x8000_0000, 0x8000_0000, 0x8000_0000).unwrap();
    assert_eq!(p, vec3(0.0, 0.0, 0.0));
    // a corner of the cube
    assert!(unit_sphere_point_from_words(0, 0, 0).is_none());
    assert!(unit_sphere_point_from_words(0xffff_ffff, 0xffff_ffff, 0xffff_ffff).is_none());
    // the middle of a face lies on the sphere, not inside
    assert!(unit_sphere_point_from_words(0, 0x8000_0000, 0x8000_0000).is_none());
    let p = unit_sphere_point_from_words(0x4000_0000, 0xc000_0000, 0x8000_0000).unwrap();
    assert_eq!(p, vec3(-0.5, 0.5, 0.0));
}

#[test]
fn rejection_sampler_takes_the_first_draw_inside_the_ball() {
    let centre = 1u32 << 31;
    let words = vec![0, 0, 0, u32::MAX, u32::MAX, u32::MAX, 1 << 30, 3 << 30, centre, 7, 8, 9];
    // two corners of the cube, then a point inside
    assert_eq!(ball_point_from_words(&words, 0, 5), (Some(vec3(-0.5, 0.5, 0.0)), 9));
    assert_eq!(ball_point_from_words(&words, 0, 3), (Some(vec3(-0.5, 0.5, 0.0)), 9));
    assert_eq!(ball_point_from_words(&words, 3, 2), (Some(vec3(-0.5, 0.5, 0.0)), 9));
    assert_eq!(ball_point_from_words(&words, 6, 1), (Some(vec3(-0.5, 0.5, 0.0)), 9));
    // too few draws granted: it stops after those it was granted
    assert_eq!(ball_point_from_words(&words, 0, 2), (None, 6));
    assert_eq!(ball_point_from_words(&words, 0, 1), (None, 3));
    assert_eq!(ball_point_from_words(&words, 0, 0), (None, 0));
    assert_eq!(ball_point_from_words(&words, 5, 0), (None, 5));
    // the words run out: what is left is taken
    assert_eq!(ball_point_from_words(&words[..8].to_vec(), 0, 5), (None, 8));
    assert_eq!(ball_point_from_words(&words[..6].to_vec(), 0, 5), (None, 6));
    assert_eq!(ball_point_from_words(&words, 12, 5), (None, 12));
    assert_eq!(ball_point_from_words(&words, 10, 5), (None, 12));
    assert_eq!(ball_point_from_words(&vec![], 0, 5), (None, 0));
}

#[test]
fn chance_is_taken_from_the_words_by_the_material() {
    let centre = 1u32 << 31;
    let words = vec![0, 0, 0, 1 << 30, 3 << 30, centre, 3 << 30];
    let matte = Material::Lambertian(vec3(0.5, 0.5, 0.5));
    let mirror = Material::Metal(vec3(0.5, 0.5, 0.5), num(0.25));
    let clear = Material::Dielectric(num(1.5));
    for mat in [matte, mirror] {
        assert_eq!(
            chance_from_words(&words, 0, mat, 5),
            (Some((vec3(-0.5, 0.5, 0.0), num(0.0))), 6)
        );
        assert_eq!(chance_from_words(&words, 0, mat, 1), (None, 3));
        assert_eq!(chance_from_words(&words, 6, mat, 5), (None, 7));
    }
    assert_eq!(chance_from_words(&words, 0, clear, 0), (Some((vec3(0.0, 0.0, 0.0), num(0.0))), 1));
    assert_eq!(chance_from_words(&words, 6, clear, 0), (Some((vec3(0.0, 0.0, 0.0), num(0.75))), 7));
    assert_eq!(chance_from_words(&words, 7, clear, 5), (None, 7));
}
