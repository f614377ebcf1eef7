use raytracer::camera::Camera;
use raytracer::ray::Ray;
use raytracer::scalar::Scalar;
use raytracer::vec3::Vec3;

fn num(x: f32) -> Scalar {
    Scalar::from_bits(x.to_bits())
}

fn vec3(x: f32, y: f32, z: f32) -> Vec3 {
    Vec3::new(num(x), num(y), num(z))
}

#[test]
fn test_point_at_parameter() {
    let r = Ray::new(vec3(1.0, 2.0, 3.0), vec3(4.0, 5.0, 6.0));
    assert_eq!(r.point_at_parameter(num(2.0)), vec3(9.0, 12.0, 15.0));
}

#[test]
fn ray_keeps_origin_and_direction() {
    let r = Ray::new(vec3(1.0, 2.0, 3.0), vec3(4.0, 5.0, 6.0));
    assert_eq!(r.origin(), vec3(1.0, 2.0, 3.0));
    assert_eq!(r.direction(), vec3(4.0, 5.0, 6.0));
}

#[test]
fn rays_are_equal_by_their_numbers() {
    let r = Ray::new(vec3(1.0, 2.0, 3.0), vec3(4.0, 5.0, 6.0));
    assert!(r == Ray::new(vec3(1.0, 2.0, 3.0), vec3(4.0, 5.0, 6.0)));
    assert!(r != Ray::new(vec3(1.0, 2.0, 3.0), vec3(4.0, 5.0, 6.5)));
    assert!(r != Ray::new(vec3(1.5, 2.0, 3.0), vec3(4.0, 5.0, 6.0)));
    assert!(Ray::new(vec3(0.0, 0.0, 0.0), vec3(0.0, 0.0, -1.0))
        == Ray::new(vec3(-0.0, 0.0, 0.0), vec3(0.0, -0.0, -1.0)));
}

#[test]
fn the_direction_need_not_be_of_length_one() {
    let r = Ray::new(vec3(0.0, 0.0, 0.0), vec3(0.0, 3.0, 4.0));
    assert_eq!(r.point_at_parameter(num(0.5)), vec3(0.0, 1.5, 2.0));
    assert_eq!(r.point_at_parameter(num(-1.0)), vec3(0.0, -3.0, -4.0));
    assert_eq!(r.point_at_parameter(num(0.0)), vec3(0.0, 0.0, 0.0));
}

#[test]
fn camera_looks_through_a_rectangle_four_by_two() {
    let cam = Camera::new();
    assert_eq!(cam.origin, vec3(0.0, 0.0, 0.0));
    assert_eq!(cam.lower_left_corner, vec3(-2.0, -1.0, -1.0));
    assert_eq!(cam.horizontal, vec3(4.0, 0.0, 0.0));
    assert_eq!(cam.vertical, vec3(0.0, 2.0, 0.0));
}

#[test]
fn camera_rays_start_at_the_eye_and_pass_through_the_rectangle() {
    let cam = Camera::new();
    let corner = cam.get_ray(num(0.0), num(0.0));
    assert!(corner == Ray::new(vec3(0.0, 0.0, 0.0), vec3(-2.0, -1.0, -1.0)));
    let centre = cam.get_ray(num(0.5), num(0.5));
    assert!(centre == Ray::new(vec3(0.0, 0.0, 0.0), vec3(0.0, 0.0, -1.0)));
    let opposite = cam.get_ray(num(1.0), num(1.0));
    assert!(opposite == Ray::new(vec3(0.0, 0.0, 0.0), vec3(2.0, 1.0, -1.0)));
    let quarter = cam.get_ray(num(0.25), num(0.75));
    assert!(quarter == Ray::new(vec3(0.0, 0.0, 0.0), vec3(-1.0, 0.5, -1.0)));
}

#[test]
fn camera_extrapolates_outside_the_rectangle() {
    let cam = Camera::new();
    let r = cam.get_ray(num(2.0), num(-1.0));
    assert!(r == Ray::new(vec3(0.0, 0.0, 0.0), vec3(6.0, -3.0, -1.0)));
}

#[test]
fn camera_of_ones_own_making_is_taken_as_it_is() {
    let cam = Camera {
        lower_left_corner: vec3(-1.0, -1.0, -2.0),
        horizontal: vec3(2.0, 0.0, 0.0),
        vertical: vec3(0.0, 2.0, 0.0),
        origin: vec3(0.0, 0.0, 1.0),
    };
    let r = cam.get_ray(num(0.5), num(0.5));
    assert!(r == Ray::new(vec3(0.0, 0.0, 1.0), vec3(0.0, 0.0, -3.0)));
}
