use raytracer::hitable::HitRecord;
use raytracer::material::{reflect, refract, scatter, schlick, Material};
use raytracer::ray::Ray;
use raytracer::scalar::Scalar;
use raytracer::vec3::Vec3;

type V = [f32; 3];

fn num(x: f32) -> Scalar {
    Scalar::from_bits(x.to_bits())
}

fn float(s: Scalar) -> f32 {
    f32::from_bits(s.to_bits())
}

fn vec3(x: f32, y: f32, z: f32) -> Vec3 {
    Vec3::new(num(x), num(y), num(z))
}

fn pack(v: V) -> Vec3 {
    vec3(v[0], v[1], v[2])
}

fn bits(v: Vec3) -> [u32; 3] {
    [v.x().to_bits(), v.y().to_bits(), v.z().to_bits()]
}

fn bits_of(v: V) -> [u32; 3] {
    [v[0].to_bits(), v[1].to_bits(), v[2].to_bits()]
}

// The steps of the library, taken in the hardware's arithmetic.

fn dot(u: V, v: V) -> f32 {
    u[0] * v[0] + u[1] * v[1] + u[2] * v[2]
}

fn unit(v: V) -> V {
    let k = 1.0 / dot(v, v).sqrt();
    [v[0] * k, v[1] * k, v[2] * k]
}

fn reflected(v: V, n: V) -> V {
    let k = 2.0 * dot(v, n);
    [v[0] - k * n[0], v[1] - k * n[1], v[2] - k * n[2]]
}

fn refracted(v: V, n: V, ratio: f32) -> Option<V> {
    let uv = unit(v);
    let dt = dot(uv, v);
    let discriminant = 1.0 - ratio * ratio * (1.0 - dt * dt);
    if discriminant > 0.0 {
        let root = discriminant.sqrt();
        Some([
            ratio * (uv[0] - n[0] * dt) - n[0] * root,
            ratio * (uv[1] - n[1] * dt) - n[1] * root,
            ratio * (uv[2] - n[2] * dt) - n[2] * root,
        ])
    } else {
        None
    }
}

fn reflectance(cosine: f32, ref_idx: f32) -> f32 {
    let r0 = (1.0 - ref_idx) / (1.0 + ref_idx);
    let r0 = r0 * r0;
    let x = 1.0 - cosine;
    let x2 = x * x;
    r0 + (1.0 - r0) * (x * (x2 * x2))
}

/// A stream of numbers from one half to two, of either sign.
struct Numbers(u64);

impl Numbers {
    fn next(&mut self) -> f32 {
        self.0 = self.0.wrapping_mul(6364136223846793005).wrapping_add(1442695040888963407);
        f32::from_bits((((self.0 >> 32) as u32) & 0x80ff_ffff) | 0x3f00_0000)
    }

    fn vector(&mut self) -> V {
        [self.next(), self.next(), self.next()]
    }

    /// A number of the unit interval.
    fn unit(&mut self) -> f32 {
        let x = (self.next().abs() - 0.5) / 1.5;
        assert!((0.0..1.0).contains(&x));
        x
    }

    /// A vector inside the unit ball.
    fn ball(&mut self) -> V {
        let v = self.vector();
        [v[0] * 0.5, v[1] * 0.5, v[2] * 0.5]
    }
}

fn at_the_pole(mat: Material) -> HitRecord {
    HitRecord { t: num(0.5), p: vec3(0.0, 0.0, -0.5), normal: vec3(0.0, 0.0, 1.0), mat }
}

#[test]
fn reflection_mirrors_at_the_surface() {
    assert_eq!(reflect(vec3(1.0, -1.0, 0.0), vec3(0.0, 1.0, 0.0)), vec3(1.0, 1.0, 0.0));
    assert_eq!(reflect(vec3(0.0, 0.0, -1.0), vec3(0.0, 0.0, 1.0)), vec3(0.0, 0.0, 1.0));
    assert_eq!(reflect(vec3(3.0, 4.0, 0.0), vec3(1.0, 0.0, 0.0)), vec3(-3.0, 4.0, 0.0));
    // along the surface nothing changes
    assert_eq!(reflect(vec3(1.0, 0.0, 2.0), vec3(0.0, 1.0, 0.0)), vec3(1.0, 0.0, 2.0));
}

#[test]
fn reflection_agrees_with_the_hardware() {
    let mut stream = Numbers(41);
    for _ in 0..3000 {
        let (v, n) = (stream.vector(), stream.vector());
        assert_eq!(bits(reflect(pack(v), pack(n))), bits_of(reflected(v, n)));
    }
}

#[test]
fn refraction_follows_its_formula() {
    // ratio * (uv - n * dt) - n * root, with dt the length of the ray's
    // direction and a discriminant of one
    let bent = refract(vec3(0.0, 0.0, -1.0), vec3(0.0, 0.0, 1.0), num(1.0)).unwrap();
    assert_eq!(bent, vec3(0.0, 0.0, -3.0));
    let bent = refract(vec3(0.0, 0.0, -1.0), vec3(0.0, 0.0, 1.0), num(0.5)).unwrap();
    assert_eq!(bent, vec3(0.0, 0.0, -2.0));
    let bent = refract(vec3(0.0, 0.0, -1.0), vec3(0.0, 1.0, 0.0), num(2.0)).unwrap();
    assert_eq!(bent, vec3(0.0, -3.0, -2.0));
}

#[test]
fn refraction_needs_a_positive_discriminant() {
    // a ray of length one: the discriminant is one whatever the ratio
    assert!(refract(vec3(0.6, 0.0, -0.8), vec3(0.0, 0.0, 1.0), num(1.5)).is_some());
    // a ray of length two: one minus the ratio squared times minus three
    assert!(refract(vec3(0.0, 0.0, -2.0), vec3(0.0, 0.0, 1.0), num(1.5)).is_some());
    // a ray of length one half at a ratio of two: one minus four times three quarters
    assert!(refract(vec3(0.0, 0.0, -0.5), vec3(0.0, 0.0, 1.0), num(2.0)).is_none());
    // exactly zero: a ratio of two at a cosine whose square is three quarters
    assert!(refract(vec3(0.0, 0.0, -0.75), vec3(0.0, 0.0, 1.0), num(4.0)).is_none());
    // no direction at all
    assert!(refract(vec3(0.0, 0.0, 0.0), vec3(0.0, 0.0, 1.0), num(1.5)).is_none());
}

#[test]
fn refraction_agrees_with_the_hardware() {
    let mut stream = Numbers(42);
    let (mut some, mut none) = (0, 0);
    for _ in 0..3000 {
        let (v, n) = (stream.vector(), stream.vector());
        let ratio = stream.next().abs() * 1.5;
        let v = [v[0] * 0.5, v[1] * 0.5, v[2] * 0.5];
        let got = refract(pack(v), pack(n), num(ratio));
        match (got, refracted(v, n, ratio)) {
            (None, None) => none += 1,
            (Some(g), Some(e)) => {
                some += 1;
                assert_eq!(bits(g), bits_of(e));
            }
            (g, e) => panic!("got {g:?}, expected {e:?}"),
        }
    }
    assert!(some > 100 && none > 100, "{some} refracted, {none} not");
}

#[test]
fn reflectance_at_the_normal_and_at_grazing() {
    // looking straight on: r0 alone, the square of one fifth for glass
    let r0 = float(schlick(num(1.0), num(1.5)));
    assert_eq!(r0, (0.5f32 / 2.5) * (0.5 / 2.5));
    assert!((r0 - 0.04).abs() < 1.0e-6);
    // grazing: everything is reflected
    assert_eq!(float(schlick(num(0.0), num(1.5))), 1.0);
    // no step in the index, no reflection
    assert_eq!(float(schlick(num(1.0), num(1.0))), 0.0);
    // one half: r0 + (1 - r0) / 32
    assert_eq!(float(schlick(num(0.5), num(1.5))), reflectance(0.5, 1.5));
}

#[test]
fn reflectance_agrees_with_the_hardware() {
    let mut stream = Numbers(43);
    for _ in 0..3000 {
        let cosine = stream.next();
        let ref_idx = stream.next().abs() + 0.75;
        assert_eq!(
            schlick(num(cosine), num(ref_idx)).to_bits(),
            reflectance(cosine, ref_idx).to_bits()
        );
    }
}

#[test]
fn matte_surface_always_scatters() {
    let rec = at_the_pole(Material::Lambertian(vec3(0.1, 0.2, 0.5)));
    let r_in = Ray::new(vec3(0.0, 0.0, 0.0), vec3(0.0, 0.0, -1.0));
    let s = scatter(&r_in, &rec, vec3(0.25, -0.5, 0.5), num(0.0))
        .expect("a matte surface swallows nothing");
    assert_eq!(s.attenuation, vec3(0.1, 0.2, 0.5));
    // from the point met, towards one normal and one ball point away
    assert!(s.scattered == Ray::new(vec3(0.0, 0.0, -0.5), vec3(0.25, -0.5, 1.5)));
    // even into the surface
    let s = scatter(&r_in, &rec, vec3(0.0, 0.0, -0.5), num(0.0)).unwrap();
    assert!(s.scattered == Ray::new(vec3(0.0, 0.0, -0.5), vec3(0.0, 0.0, 0.5)));
}

#[test]
fn polished_mirror_reflects() {
    let rec = at_the_pole(Material::Metal(vec3(0.8, 0.6, 0.2), num(0.0)));
    let r_in = Ray::new(vec3(0.0, 3.0, 3.5), vec3(0.0, -3.0, -4.0));
    let s = scatter(&r_in, &rec, vec3(0.5, 0.5, 0.5), num(0.0)).expect("the ray leaves the mirror");
    assert_eq!(s.attenuation, vec3(0.8, 0.6, 0.2));
    assert_eq!(s.scattered.origin(), vec3(0.0, 0.0, -0.5));
    assert_eq!(bits(s.scattered.direction()), bits_of(reflected(unit([0.0, -3.0, -4.0]), [0.0, 0.0, 1.0])));
    let d = s.scattered.direction();
    assert!((float(d.y()) + 0.6).abs() < 1.0e-6 && (float(d.z()) - 0.8).abs() < 1.0e-6);
}

#[test]
fn rough_mirror_is_put_out_by_the_fuzz() {
    let rec = at_the_pole(Material::Metal(vec3(0.8, 0.6, 0.2), num(0.5)));
    let r_in = Ray::new(vec3(0.0, 0.0, 0.5), vec3(0.0, 0.0, -1.0));
    let s = scatter(&r_in, &rec, vec3(0.5, -0.25, 0.0), num(0.0)).unwrap();
    assert!(s.scattered == Ray::new(vec3(0.0, 0.0, -0.5), vec3(0.25, -0.125, 1.0)));
}

#[test]
fn mirror_swallows_what_goes_into_the_surface() {
    // the fuzz turns the reflection under the surface
    let rec = at_the_pole(Material::Metal(vec3(0.8, 0.6, 0.2), num(1.0)));
    let r_in = Ray::new(vec3(0.0, 4.0, -0.25), vec3(0.0, -4.0, -0.25));
    assert!(scatter(&r_in, &rec, vec3(0.0, 0.0, -0.75), num(0.0)).is_none());
    // a ray from underneath is reflected further under
    let rec = at_the_pole(Material::Metal(vec3(0.8, 0.6, 0.2), num(0.0)));
    let r_in = Ray::new(vec3(0.0, 0.0, -2.0), vec3(0.0, 0.0, 1.0));
    assert!(scatter(&r_in, &rec, vec3(0.0, 0.0, 0.0), num(0.0)).is_none());
    // along the surface the inner product is zero, which is not positive
    let r_in = Ray::new(vec3(0.0, -1.0, -0.5), vec3(0.0, 1.0, 0.0));
    assert!(scatter(&r_in, &rec, vec3(0.0, 0.0, 0.0), num(0.0)).is_none());
}

#[test]
fn clear_medium_reflects_below_the_reflectance_and_refracts_from_it_on() {
    let rec = at_the_pole(Material::Dielectric(num(1.5)));
    // entering, straight on: the reflectance is r0, the square of one fifth
    let r_in = Ray::new(vec3(0.0, 0.0, 0.5), vec3(0.0, 0.0, -1.0));
    let r0 = (0.5f32 / 2.5) * (0.5 / 2.5);
    let back = Ray::new(rec.p, vec3(0.0, 0.0, 1.0));
    let through = Ray::new(rec.p, pack(refracted([0.0, 0.0, -1.0], [0.0, 0.0, 1.0], 1.0 / 1.5).unwrap()));
    for (draw, expected) in [
        (0.0, back),
        (0.03, back),
        (f32::from_bits(r0.to_bits() - 1), back),
        (r0, through),
        (0.5, through),
        (0.99999994, through),
    ] {
        let s = scatter(&r_in, &rec, vec3(0.0, 0.0, 0.0), num(draw))
            .expect("a clear medium swallows nothing");
        assert_eq!(s.attenuation, vec3(1.0, 1.0, 1.0));
        assert!(s.scattered == expected, "draw {draw:?}");
    }
}

#[test]
fn clear_medium_that_cannot_refract_always_reflects() {
    let rec = at_the_pole(Material::Dielectric(num(1.5)));
    // leaving the medium with a direction of length one half: the
    // discriminant is one minus nine quarters times three quarters
    let r_in = Ray::new(vec3(0.0, 0.0, -1.0), vec3(0.3, 0.0, 0.4));
    assert!(refracted([0.3, 0.0, 0.4], [0.0, 0.0, -1.0], 1.5).is_none());
    let back = Ray::new(rec.p, pack(reflected([0.3, 0.0, 0.4], [0.0, 0.0, 1.0])));
    // whatever the sample, even one that is no unit sample
    for draw in [0.0, 0.25, 0.5, 0.99999994, 1.0, 2.5, -1.0, f32::INFINITY, f32::NAN] {
        let s = scatter(&r_in, &rec, vec3(0.0, 0.0, 0.0), num(draw)).unwrap();
        assert!(s.scattered == back, "draw {draw:?}");
        assert_eq!(s.attenuation, vec3(1.0, 1.0, 1.0));
    }
    let mut stream = Numbers(44);
    for _ in 0..500 {
        let s = scatter(&r_in, &rec, vec3(0.0, 0.0, 0.0), num(stream.unit())).unwrap();
        assert!(s.scattered == back);
    }
}

#[test]
fn what_chance_gives_is_read_where_it_is_needed_only() {
    let r_in = Ray::new(vec3(0.0, 0.0, 0.5), vec3(0.0, 0.0, -1.0));
    let matte = at_the_pole(Material::Lambertian(vec3(0.1, 0.2, 0.5)));
    let mirror = at_the_pole(Material::Metal(vec3(0.8, 0.6, 0.2), num(0.25)));
    let clear = at_the_pole(Material::Dielectric(num(1.5)));
    let ball = vec3(0.25, -0.5, 0.5);
    for draw in [0.0, 0.5, 0.99999994, f32::NAN] {
        for rec in [matte, mirror] {
            let s = scatter(&r_in, &rec, ball, num(draw)).unwrap();
            let t = scatter(&r_in, &rec, ball, num(0.25)).unwrap();
            assert_eq!(bits(s.scattered.direction()), bits(t.scattered.direction()));
        }
    }
    for other in [vec3(0.0, 0.0, 0.0), vec3(-0.5, 0.5, 0.5), vec3(f32::NAN, 0.0, 0.0)] {
        let s = scatter(&r_in, &clear, other, num(0.5)).unwrap();
        let t = scatter(&r_in, &clear, ball, num(0.5)).unwrap();
        assert_eq!(bits(s.scattered.direction()), bits(t.scattered.direction()));
    }
}

#[test]
fn scattering_agrees_with_the_hardware() {
    let mut stream = Numbers(45);
    let (mut absorbed, mut mirrored, mut bounced, mut bent) = (0, 0, 0, 0);
    for round in 0..6000 {
        let direction = stream.vector();
        let normal = unit(stream.vector());
        let p = stream.vector();
        let ball = stream.ball();
        let draw = stream.unit();
        let albedo = [0.8, 0.6, 0.2];
        let fuzz = 0.3;
        let ref_idx = 1.5;
        let mat = match round % 3 {
            0 => Material::Lambertian(pack(albedo)),
            1 => Material::Metal(pack(albedo), num(fuzz)),
            _ => Material::Dielectric(num(ref_idx)),
        };
        let rec = HitRecord { t: num(1.0), p: pack(p), normal: pack(normal), mat };
        let r_in = Ray::new(vec3(0.0, 0.0, 0.0), pack(direction));
        let got = scatter(&r_in, &rec, pack(ball), num(draw));
        let expected: Option<(V, V)> = match round % 3 {
            0 => {
                let target = [
                    p[0] + normal[0] + ball[0],
                    p[1] + normal[1] + ball[1],
                    p[2] + normal[2] + ball[2],
                ];
                Some((albedo, [target[0] - p[0], target[1] - p[1], target[2] - p[2]]))
            }
            1 => {
                let r = reflected(unit(direction), normal);
                let out = [r[0] + fuzz * ball[0], r[1] + fuzz * ball[1], r[2] + fuzz * ball[2]];
                if dot(out, normal) > 0.0 {
                    mirrored += 1;
                    Some((albedo, out))
                } else {
                    absorbed += 1;
                    None
                }
            }
            _ => {
                let facing = dot(direction, normal);
                let length = dot(direction, direction).sqrt();
                let (outward, ratio, cosine) = if facing > 0.0 {
                    ([-normal[0], -normal[1], -normal[2]], ref_idx, ref_idx * facing / length)
                } else {
                    (normal, 1.0 / ref_idx, -facing / length)
                };
                let (bend, chance) = match refracted(direction, outward, ratio) {
                    Some(v) => (v, reflectance(cosine, ref_idx)),
                    None => ([0.0, 0.0, 0.0], 1.0),
                };
                if draw < chance {
                    bounced += 1;
                    Some(([1.0, 1.0, 1.0], reflected(direction, normal)))
                } else {
                    bent += 1;
                    Some(([1.0, 1.0, 1.0], bend))
                }
            }
        };
        match (got, expected) {
            (None, None) => {}
            (Some(s), Some((attenuation, out))) => {
                assert_eq!(bits(s.attenuation), bits_of(attenuation));
                assert_eq!(bits(s.scattered.origin()), bits_of(p));
                assert_eq!(bits(s.scattered.direction()), bits_of(out), "round {round}");
            }
            (g, e) => panic!("round {round}: got {g:?}, expected {e:?}"),
        }
    }
    assert!(absorbed > 50 && mirrored > 50 && bounced > 50 && bent > 50);
}
