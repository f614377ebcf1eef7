use raytracer::scalar::Scalar;
use raytracer::vec3::{cross, dot, length, make_unit_vector, squared_length, Vec3};

fn num(x: f32) -> Scalar {
    Scalar::from_bits(x.to_bits())
}

fn float(s: Scalar) -> f32 {
    f32::from_bits(s.to_bits())
}

fn vec3(x: f32, y: f32, z: f32) -> Vec3 {
    Vec3::new(num(x), num(y), num(z))
}

fn bits(v: Vec3) -> [u32; 3] {
    [v.x().to_bits(), v.y().to_bits(), v.z().to_bits()]
}

fn bits_of(v: [f32; 3]) -> [u32; 3] {
    [v[0].to_bits(), v[1].to_bits(), v[2].to_bits()]
}

/// A stream of vectors with components within a few binades of one.
struct Vectors(u64);

impl Vectors {
    fn number(&mut self) -> f32 {
        self.0 = self.0.wrapping_mul(6364136223846793005).wrapping_add(1442695040888963407);
        f32::from_bits((((self.0 >> 32) as u32) & 0x83ff_ffff) | 0x3c00_0000)
    }

    fn next(&mut self) -> [f32; 3] {
        [self.number(), self.number(), self.number()]
    }
}

fn pack(v: [f32; 3]) -> Vec3 {
    vec3(v[0], v[1], v[2])
}

#[test]
fn test_add_vec() {
    let a = vec3(1.0, 1.0, 1.0);
    let b = vec3(2.0, 2.0, 2.0);
    let c = a + b;
    assert_eq!(vec3(3.0, 3.0, 3.0), c);
}

#[test]
fn test_mul_vec_float() {
    let a = vec3(1.0, 1.0, 1.0);
    let s = num(2.0);
    assert_eq!(a * s, vec3(2.0, 2.0, 2.0));
    assert_eq!(s * a, vec3(2.0, 2.0, 2.0));
}

#[test]
fn test_mul_vec_vec() {
    let a = vec3(1.0, 2.0, 3.0);
    let b = vec3(2.0, 2.0, 2.0);
    assert_eq!(a * b, vec3(2.0, 4.0, 6.0));
}

#[test]
fn test_div_vec() {
    let a = vec3(2.0, 4.0, 6.0);
    let b = vec3(2.0, 2.0, 2.0);
    assert_eq!(a / b, vec3(1.0, 2.0, 3.0));
}

#[test]
fn test_dot() {
    let a = vec3(1.0, 3.0, -5.0);
    let b = vec3(4.0, -2.0, -1.0);
    assert_eq!(dot(a, b), num(3.0));
}

#[test]
fn test_cross() {
    let a = vec3(1.0, 3.0, -5.0);
    let b = vec3(4.0, -2.0, -1.0);
    assert_eq!(cross(a, b), vec3(-13.0, -19.0, -14.0))
}

#[test]
fn test_make_unit_vector() {
    let a = vec3(1.0, 2.0, 2.0);
    assert_eq!(make_unit_vector(a), vec3(1.0 / 3.0, 2.0 / 3.0, 2.0 / 3.0))
}

#[test]
fn test_squared_length() {
    let a = vec3(1.0, 2.0, 2.0);
    assert_eq!(squared_length(a), num(9.0));
}

#[test]
fn test_length() {
    let a = vec3(1.0, 2.0, 2.0);
    assert_eq!(length(a), num(3.0));
}

#[test]
fn components_come_back_as_given() {
    let v = vec3(1.0, -2.5, 3.25);
    assert_eq!(float(v.x()), 1.0);
    assert_eq!(float(v.y()), -2.5);
    assert_eq!(float(v.z()), 3.25);
    assert_eq!(float(v.r()), 1.0);
    assert_eq!(float(v.g()), -2.5);
    assert_eq!(float(v.b()), 3.25);
    assert_eq!(float(v.index(0)), 1.0);
    assert_eq!(float(v.index(1)), -2.5);
    assert_eq!(float(v.index(2)), 3.25);
}

#[test]
fn zero_and_ones() {
    assert_eq!(Vec3::zero(), vec3(0.0, 0.0, 0.0));
    assert_eq!(Vec3::ones(), vec3(1.0, 1.0, 1.0));
    assert_eq!(bits(Vec3::zero()), [0, 0, 0]);
}

#[test]
fn equality_is_that_of_the_numbers() {
    assert_eq!(vec3(1.0, 2.0, 3.0), vec3(1.0, 2.0, 3.0));
    assert_ne!(vec3(1.0, 2.0, 3.0), vec3(1.0, 2.0, 3.5));
    assert_ne!(vec3(1.0, 2.0, 3.0), vec3(1.5, 2.0, 3.0));
    assert_ne!(vec3(1.0, 2.0, 3.0), vec3(1.0, 2.5, 3.0));
    // the two zeros are one number
    assert_eq!(vec3(0.0, -0.0, 0.0), vec3(-0.0, 0.0, -0.0));
    // a NaN equals nothing, not even itself
    let v = vec3(1.0, f32::NAN, 3.0);
    assert_ne!(v, v);
}

#[test]
fn negation_flips_every_sign() {
    let v = -vec3(1.0, -2.0, 0.0);
    assert_eq!(bits(v), bits_of([-1.0, 2.0, -0.0]));
    assert_eq!(-v, vec3(1.0, -2.0, 0.0));
}

#[test]
fn finiteness_needs_every_component() {
    assert!(vec3(1.0, 2.0, 3.0).is_finite());
    assert!(!vec3(f32::INFINITY, 2.0, 3.0).is_finite());
    assert!(!vec3(1.0, f32::NEG_INFINITY, 3.0).is_finite());
    assert!(!vec3(1.0, 2.0, f32::NAN).is_finite());
}

#[test]
fn subtraction_is_by_components() {
    assert_eq!(vec3(3.0, 2.0, 1.0) - vec3(1.0, 2.0, 4.0), vec3(2.0, 0.0, -3.0));
}

#[test]
fn division_by_a_number_is_by_components() {
    assert_eq!(vec3(3.0, 6.0, -9.0) / num(3.0), vec3(1.0, 2.0, -3.0));
    assert_eq!(bits(vec3(1.0, 2.0, 4.0) / num(3.0)), bits_of([1.0 / 3.0, 2.0 / 3.0, 4.0 / 3.0]));
}

#[test]
fn compound_assignments_change_the_vector_in_place() {
    let mut v = vec3(1.0, 2.0, 3.0);
    v += vec3(1.0, 1.0, 1.0);
    assert_eq!(v, vec3(2.0, 3.0, 4.0));
    v -= vec3(2.0, 2.0, 2.0);
    assert_eq!(v, vec3(0.0, 1.0, 2.0));
    v *= vec3(5.0, 6.0, 7.0);
    assert_eq!(v, vec3(0.0, 6.0, 14.0));
    v *= num(0.5);
    assert_eq!(v, vec3(0.0, 3.0, 7.0));
    v /= num(0.5);
    assert_eq!(v, vec3(0.0, 6.0, 14.0));
}

#[test]
fn division_in_place_divides_the_vector() {
    let mut v = vec3(2.0, 4.0, 8.0);
    v /= vec3(2.0, 2.0, 2.0);
    assert_eq!(v, vec3(1.0, 2.0, 4.0));
    assert_eq!(v, vec3(2.0, 4.0, 8.0) / vec3(2.0, 2.0, 2.0));
    let mut v = vec3(2.0, 4.0, 8.0);
    v /= num(2.0);
    assert_eq!(v, vec3(1.0, 2.0, 4.0));
    let mut v = vec3(1.0, 3.0, -6.0);
    v /= vec3(4.0, 2.0, 3.0);
    assert_eq!(v, vec3(0.25, 1.5, -2.0));
}

#[test]
fn methods_agree_with_the_functions() {
    let a = vec3(1.0, 3.0, -5.0);
    let b = vec3(4.0, -2.0, -1.0);
    assert_eq!(a.dot(b), dot(a, b));
    assert_eq!(a.cross(b), cross(a, b));
    assert_eq!(a.length(), length(a));
    assert_eq!(a.squared_length(), squared_length(a));
    let mut u = a;
    u.make_unit_vector();
    assert_eq!(bits(u), bits(make_unit_vector(a)));
}

#[test]
fn sum_and_products_do_not_depend_on_the_order() {
    let mut stream = Vectors(11);
    for _ in 0..2000 {
        let (a, b) = (pack(stream.next()), pack(stream.next()));
        let s = num(stream.number());
        assert_eq!(bits(a + b), bits(b + a));
        assert_eq!(bits(a * s), bits(s * a));
        assert_eq!(dot(a, b).to_bits(), dot(b, a).to_bits());
        assert_eq!(cross(a, b), -cross(b, a));
    }
}

#[test]
fn squared_length_is_the_length_squared_within_rounding() {
    let mut stream = Vectors(12);
    for _ in 0..2000 {
        let a = pack(stream.next());
        let l = float(length(a));
        let q = float(squared_length(a));
        assert!((l * l - q).abs() <= 4.0 * f32::EPSILON * q, "{l:?} squared against {q:?}");
    }
    let a = vec3(1.0, 2.0, 2.0);
    assert_eq!(length(a) * length(a), squared_length(a));
}

#[test]
fn unit_vectors_have_length_one_within_rounding() {
    let mut stream = Vectors(13);
    for _ in 0..2000 {
        let a = stream.next();
        let u = make_unit_vector(pack(a));
        let l = float(length(u));
        assert!((l - 1.0).abs() <= 4.0 * f32::EPSILON, "length {l:?}");
        assert!((l - 1.0).abs() <= 1.0e-6, "length {l:?}");
        // the direction is kept: every component keeps its sign
        for (from, to) in [(a[0], u.x()), (a[1], u.y()), (a[2], u.z())] {
            assert_eq!(to.is_sign_negative(), from.is_sign_negative());
        }
    }
}

#[test]
fn length_squares_back_within_a_hundred_thousandth() {
    let mut stream = Vectors(15);
    for _ in 0..2000 {
        let a = pack(stream.next());
        let l = length(a);
        assert!(!l.is_sign_negative());
        let back = float(l * l);
        let q = float(squared_length(a));
        assert!((back - q).abs() <= 1.0e-5 * q, "{back:?} against {q:?}");
    }
}

#[test]
fn unit_vector_of_the_zero_vector_is_no_vector_of_numbers() {
    let u = make_unit_vector(vec3(0.0, 0.0, 0.0));
    assert!(u.x().is_nan() && u.y().is_nan() && u.z().is_nan());
}

#[test]
fn algebra_agrees_with_the_hardware() {
    let mut stream = Vectors(14);
    for _ in 0..5000 {
        let (a, b) = (stream.next(), stream.next());
        let k = stream.number();
        let (va, vb) = (pack(a), pack(b));
        assert_eq!(bits(va + vb), bits_of([a[0] + b[0], a[1] + b[1], a[2] + b[2]]));
        assert_eq!(bits(va - vb), bits_of([a[0] - b[0], a[1] - b[1], a[2] - b[2]]));
        assert_eq!(bits(va * vb), bits_of([a[0] * b[0], a[1] * b[1], a[2] * b[2]]));
        assert_eq!(bits(va / vb), bits_of([a[0] / b[0], a[1] / b[1], a[2] / b[2]]));
        assert_eq!(bits(va * num(k)), bits_of([a[0] * k, a[1] * k, a[2] * k]));
        assert_eq!(bits(va / num(k)), bits_of([a[0] / k, a[1] / k, a[2] / k]));
        let d = a[0] * b[0] + a[1] * b[1] + a[2] * b[2];
        assert_eq!(dot(va, vb).to_bits(), d.to_bits());
        let c = [
            a[1] * b[2] - a[2] * b[1],
            -(a[0] * b[2] - a[2] * b[0]),
            a[0] * b[1] - a[1] * b[0],
        ];
        assert_eq!(bits(cross(va, vb)), bits_of(c));
        let q = a[0] * a[0] + a[1] * a[1] + a[2] * a[2];
        assert_eq!(squared_length(va).to_bits(), q.to_bits());
        assert_eq!(length(va).to_bits(), q.sqrt().to_bits());
        let inverse = 1.0 / q.sqrt();
        assert_eq!(
            bits(make_unit_vector(va)),
            bits_of([a[0] * inverse, a[1] * inverse, a[2] * inverse])
        );
    }
}

#[test]
fn length_squares_back_for_the_smallest_vectors_too() {
    assert_eq!(length(vec3(0.0, 0.0, 0.0)).to_bits(), 0);
    assert_eq!(length(vec3(-0.0, 0.0, -0.0)).to_bits(), 0);
    // squared lengths among the smallest numbers there are
    for x in [1.0e-19f32, 3.0e-20, 1.0e-21, 2.0e-22, 4.0e-23, 1.5e-19, 7.7e-20] {
        let a = vec3(x, -x, 0.0);
        let l = length(a);
        assert!(!l.is_sign_negative() && l.is_finite());
        let back = float(l * l);
        let q = float(squared_length(a));
        assert!((back - q).abs() <= 1.0e-5 * q, "{back:?} against {q:?}");
    }
}

#[test]
fn squared_length_is_not_negative() {
    let mut stream = Vectors(16);
    for _ in 0..2000 {
        let q = squared_length(pack(stream.next()));
        assert!(!q.is_sign_negative());
    }
    assert_eq!(squared_length(vec3(-0.0, -0.0, -0.0)).to_bits(), 0);
}

#[test]
fn unit_vectors_of_very_small_and_very_large_vectors_have_length_one() {
    let mut stream = Vectors(17);
    // squared lengths from the smallest normal numbers to the largest
    for exponent in [-62, -50, -31, -10, 0, 10, 31, 50, 62] {
        let factor = 2.0f32.powi(exponent);
        for _ in 0..200 {
            let a = stream.next();
            let a = [a[0] * factor, a[1] * factor, a[2] * factor];
            let q = float(squared_length(pack(a)));
            if !(q >= f32::MIN_POSITIVE && q.is_finite()) {
                continue;
            }
            let u = make_unit_vector(pack(a));
            let l = float(length(u));
            assert!((l - 1.0).abs() <= 1.0e-6, "length {l:?} at 2^{exponent}");
            for (from, to) in [(a[0], u.x()), (a[1], u.y()), (a[2], u.z())] {
                assert_eq!(to.is_sign_negative(), from.is_sign_negative());
            }
        }
    }
    // one component so small that its square is lost
    for a in [[1.0, 1.0e-30, 0.0], [3.0e-20, -4.0e-20, 1.0e-44], [1.0e19, 1.0, -0.0]] {
        let u = make_unit_vector(pack(a));
        let l = float(length(u));
        assert!((l - 1.0).abs() <= 1.0e-6, "length {l:?}");
    }
}
