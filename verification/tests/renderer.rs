use pathtrace::bvh::Bvh;
use pathtrace::camera::Camera;
use pathtrace::fixed::{fdiv, fmul, isqrt, SCALE};
use pathtrace::material::{reflect, refract, schlick, Material};
use pathtrace::pixel::{Pixel, Pixels};
use pathtrace::ray::Ray;
use pathtrace::render::render_pixel;
use pathtrace::rng::{random_in_unit_disk, random_in_unit_sphere, Rng};
use pathtrace::scene::{random_scene, structured_art_scene, Scene};
use pathtrace::sphere::Sphere;
use pathtrace::tracer::{color, sky_color};
use pathtrace::vec3::Vec3;
use pathtrace::world::World;

fn v(x: i64, y: i64, z: i64) -> Vec3 {
    Vec3::new(x, y, z)
}

#[test]
fn fixed_point_ops() {
    assert_eq!(fmul(8192, 2048), 4096);
    assert_eq!(fmul(-8192, 2048), -4096);
    assert_eq!(fdiv(4096, 8192), 2048);
    assert_eq!(isqrt(16), 4);
    assert_eq!(isqrt(24), 4);
    assert_eq!(isqrt(25), 5);
    assert_eq!(isqrt((1u128 << 50) as u128), 1 << 25);
}

#[test]
fn vector_ops() {
    let a = v(4096, 8192, -4096);
    let b = v(4096, 4096, 4096);
    let s = a.add(&b);
    assert_eq!((s.x(), s.y(), s.z()), (8192, 12288, 0));
    let d = a.sub(&b);
    assert_eq!((d.x(), d.y(), d.z()), (0, 4096, -8192));
    // dot of (1,2,-1) and (1,1,1) is 2
    assert_eq!(Vec3::dot(&a, &b), 8192);
    // cross of x and y axes is the z axis
    let c = Vec3::cross(&v(4096, 0, 0), &v(0, 4096, 0));
    assert_eq!((c.x(), c.y(), c.z()), (0, 0, 4096));
}

#[test]
fn unit_vector_of_3_4_0() {
    let u = Vec3::unit_vector(&v(3 * 4096, 4 * 4096, 0));
    // length is exactly 5, so components floor to (0.6, 0.8, 0)
    assert_eq!(u.x(), 12288 * 4096 / 20480);
    assert_eq!(u.y(), 16384 * 4096 / 20480);
    assert_eq!(u.z(), 0);
    let n2 = u.x() * u.x() + u.y() * u.y();
    assert!(n2 <= 4096 * 4096);
    assert!(n2 > 4090 * 4090);
}

#[test]
fn sphere_hit_exact_roots() {
    // Unit ray along -z, sphere of radius 2 centered 10 units ahead:
    // the quadratic has roots at t = 8 and t = 12 exactly.
    let s = Sphere::new(v(0, 0, -10 * 4096), 2 * 4096, 0);
    let r = Ray::new(v(0, 0, 0), v(0, 0, -4096));
    let h = s.hit(&r, 4, 1 << 32).expect("hit expected");
    assert_eq!(h.t, 8 * 4096);
    assert_eq!((h.p.x(), h.p.y(), h.p.z()), (0, 0, -8 * 4096));
    // outward normal points back along +z
    assert_eq!((h.normal.x(), h.normal.y(), h.normal.z()), (0, 0, 4096));
}

#[test]
fn sphere_miss_on_negative_discriminant() {
    // Closest approach is 3 units from a radius-1 sphere: no real root.
    let s = Sphere::new(v(0, 3 * 4096, -10 * 4096), 4096, 0);
    let r = Ray::new(v(0, 0, 0), v(0, 0, -4096));
    assert!(s.hit(&r, 4, 1 << 32).is_none());
}

#[test]
fn sphere_hit_respects_open_interval() {
    let s = Sphere::new(v(0, 0, -10 * 4096), 2 * 4096, 0);
    let r = Ray::new(v(0, 0, 0), v(0, 0, -4096));
    // Window past the far root: nothing.
    assert!(s.hit(&r, 13 * 4096, 1 << 32).is_none());
    // Window between the roots: the far root is found.
    let h = s.hit(&r, 9 * 4096, 1 << 32).expect("far root");
    assert_eq!(h.t, 12 * 4096);
}

#[test]
fn reflect_involution_axis_normal() {
    // About an exact unit normal the reflection is an involution.
    let vv = v(1234, -567, 89);
    let n = v(0, 4096, 0);
    let r1 = reflect(&vv, &n);
    assert_eq!((r1.x(), r1.y(), r1.z()), (1234, 567, 89));
    let r2 = reflect(&r1, &n);
    assert_eq!((r2.x(), r2.y(), r2.z()), (1234, -567, 89));
}

#[test]
fn refract_total_internal_reflection() {
    // 45-degree incidence going from a dense medium out (ratio 2):
    // the critical angle is 30 degrees, so refraction must fail.
    let d = v(4096, -4096, 0);
    let n = v(0, 4096, 0);
    assert!(refract(&d, &n, 2 * 4096).is_none());
    // The same geometry with ratio 1/2 refracts.
    let r = refract(&d, &n, 2048).expect("refraction expected");
    // The refracted direction continues downward, bent toward the normal.
    assert!(r.y() < 0);
    assert!(r.x() > 0);
    assert!(r.x().abs() < r.y().abs());
}

#[test]
fn schlick_normal_incidence() {
    // cos = 1 for glass (index 1.5): r0a = floor(-0.2) steps, squared.
    let r = schlick(4096, 6144);
    assert_eq!(r, 164);
}

#[test]
fn sky_gradient_endpoints_and_monotonicity() {
    let bottom = sky_color(&v(0, -4096, 0));
    assert_eq!((bottom.x(), bottom.y(), bottom.z()), (4096, 4096, 4096));
    let top = sky_color(&v(0, 4096, 0));
    assert_eq!((top.x(), top.y(), top.z()), (2048, 2867, 4096));
    // Sweeping the vertical component, the red channel never increases.
    let mut prev = i64::MAX;
    let mut y = -4096i64;
    while y <= 4096 {
        let c = sky_color(&v(0, y, -2048));
        assert!(c.x() <= prev);
        prev = c.x();
        y += 512;
    }
}

#[test]
fn rng_samples_in_range() {
    let mut rng = Rng::new(42);
    for _ in 0..100 {
        let u = rng.next_unit();
        assert!((0..4096).contains(&u));
    }
    let s = random_in_unit_sphere(&mut rng);
    assert!(s.x() * s.x() + s.y() * s.y() + s.z() * s.z() <= 4096 * 4096);
    let d = random_in_unit_disk(&mut rng);
    assert_eq!(d.z(), 0);
    assert!(d.x() * d.x() + d.y() * d.y() <= 4096 * 4096);
}

fn two_sphere_fixture() -> (Vec<Sphere>, Vec<Sphere>) {
    let mk = || {
        vec![
            Sphere::new(v(0, 0, -5 * 4096), 4096, 0),
            Sphere::new(v(0, 0, -9 * 4096), 2 * 4096, 1),
            Sphere::new(v(3 * 4096, 0, -7 * 4096), 4096, 2),
        ]
    };
    (mk(), mk())
}

#[test]
fn accelerated_and_linear_queries_agree() {
    let (spheres, hitables) = two_sphere_fixture();
    let world = World { hitables };
    let bvh = Bvh::build(&spheres);
    let rays = [
        Ray::new(v(0, 0, 0), v(0, 0, -4096)),
        Ray::new(v(0, 0, 0), v(1638, 0, -4096)),
        Ray::new(v(0, 0, 0), v(0, 4096, 0)),
        Ray::new(v(12288, 0, 0), v(-4096, 0, -4096)),
    ];
    for r in rays.iter() {
        let a = world.hit(r, 4, 1 << 32);
        let b = bvh.hit(&spheres, r, 4, 1 << 32);
        match (a, b) {
            (None, None) => {},
            (Some(x), Some(y)) => {
                assert_eq!(x.t, y.t);
                assert_eq!((x.p.x(), x.p.y(), x.p.z()), (y.p.x(), y.p.y(), y.p.z()));
                assert_eq!(
                    (x.normal.x(), x.normal.y(), x.normal.z()),
                    (y.normal.x(), y.normal.y(), y.normal.z()),
                );
                assert_eq!(x.material, y.material);
            },
            _ => panic!("query paths disagree"),
        }
    }
    // The frontmost sphere wins along the axis.
    let h = world.hit(&Ray::new(v(0, 0, 0), v(0, 0, -4096)), 4, 1 << 32).unwrap();
    assert_eq!(h.material, 0);
    assert_eq!(h.t, 4 * 4096);
}

#[test]
fn empty_scene_is_pure_sky() {
    let scene = Scene::new(Vec::new(), Vec::new());
    let dirs = [v(0, 0, -4096), v(1000, 2000, -4096), v(0, -4096, 0)];
    for d in dirs.iter() {
        let r = Ray::new(v(0, 0, 0), *d);
        let mut rng = Rng::new(1);
        let c = color(&r, &scene, 0, 10, &mut rng);
        let sky = sky_color(d);
        assert_eq!((c.x(), c.y(), c.z()), (sky.x(), sky.y(), sky.z()));
    }
}

#[test]
fn one_diffuse_sphere_single_sample() {
    // One diffuse sphere ahead of the camera, one sample, depth 1:
    // the pixel is the albedo attenuating one bounce, deterministically.
    let albedo = v(2048, 1024, 512);
    let mk_scene = || {
        Scene::new(
            vec![Sphere::new(v(0, 0, -5 * 4096), 4096, 0)],
            vec![Material::lambertian(albedo)],
        )
    };
    let cam = Camera::new(
        &v(0, 0, 0),
        &v(0, 0, -4096),
        &v(0, 4096, 0),
        2048,
        4096,
        0,
        5 * 4096,
    );
    let scene = mk_scene();
    let mut rng_a = Rng::new(7);
    let px = render_pixel(&scene, &cam, 8, 8, 16, 16, 1, 1, &mut rng_a);
    // Replay the same draws through the public pipeline.
    let scene2 = mk_scene();
    let mut rng_b = Rng::new(7);
    let jx = rng_b.next_unit();
    let jy = rng_b.next_unit();
    let su = (((8i128 * 4096 + jx as i128) * 4096) / (16 * 4096)) as i64;
    let sv = (((8i128 * 4096 + jy as i128) * 4096) / (16 * 4096)) as i64;
    let ray = cam.get_ray(su, sv, &mut rng_b);
    let c = color(&ray, &scene2, 0, 1, &mut rng_b);
    let expect = |ch: i64| isqrt((ch as u128) * 4096) as i64;
    assert_eq!(
        (px.x(), px.y(), px.z()),
        (expect(c.x()), expect(c.y()), expect(c.z())),
    );
    // Each channel is bounded by the albedo (one multiplicative bounce).
    assert!(c.x() <= albedo.x() && c.y() <= albedo.y() && c.z() <= albedo.z());
}

#[test]
fn recursion_stops_at_depth_budget() {
    // Two nested shells around the origin: a mirror box in spirit.  A
    // tiny depth budget must still terminate and return a color.
    let scene = Scene::new(
        vec![
            Sphere::new(v(0, 0, 0), 10 * 4096, 0),
            Sphere::new(v(0, 0, 0), -9 * 4096, 0),
        ],
        vec![Material::metal(v(4096, 4096, 4096), 0)],
    );
    let r = Ray::new(v(0, 0, 0), v(0, 0, -4096));
    let mut rng = Rng::new(3);
    let c = color(&r, &scene, 0, 30, &mut rng);
    assert!(c.x() >= 0 && c.x() <= 4096);
    assert!(c.y() >= 0 && c.y() <= 4096);
    assert!(c.z() >= 0 && c.z() <= 4096);
}

#[test]
fn pixel_buffer_quantization() {
    let mut ps = Pixels::new();
    ps.push(Pixel::RGB8(v(4096, 0, 2048)));
    ps.push(Pixel::RGB8(v(5000, -5, 1)));
    let buf = ps.create_buffer();
    assert_eq!(buf.len(), 8);
    assert_eq!(&buf[0..4], &[255, 0, 127, 255]);
    assert_eq!(&buf[4..8], &[255, 0, 0, 255]);
}

#[test]
fn camera_points_at_target() {
    let cam = Camera::new(
        &v(0, 0, 0),
        &v(0, 0, -4096),
        &v(0, 4096, 0),
        2048,
        4096,
        0,
        4096,
    );
    let mut rng = Rng::new(9);
    let r = cam.get_ray(2048, 2048, &mut rng);
    let d = r.direction();
    assert!(d.z() < 0);
    assert!(d.x().abs() < 4096 && d.y().abs() < 4096);
}

#[test]
fn scene_builders_produce_scenes() {
    let (s1, _c1) = structured_art_scene(5461);
    assert_eq!(s1.spheres.len(), 4);
    assert_eq!(s1.materials.len(), 4);
    let (s2, _c2) = random_scene(5461, 12345);
    assert!(s2.spheres.len() >= 4);
    // Every sphere's material index is valid.
    for s in s2.spheres.iter() {
        assert!(s.material() < s2.materials.len());
    }
}

#[test]
fn metal_scatter_reflects_or_absorbs() {
    let m = Material::metal(v(3277, 3277, 3277), 0);
    let sphere = Sphere::new(v(0, 0, -5 * 4096), 4096, 0);
    let r = Ray::new(v(0, 0, 0), v(0, 0, -4096));
    let h = sphere.hit(&r, 4, 1 << 32).unwrap();
    let mut rng = Rng::new(11);
    // A head-on ray reflects straight back off a fuzzless mirror.
    let (att, scattered) = m.scatter(&r, &h, &mut rng).expect("reflection expected");
    assert_eq!((att.x(), att.y(), att.z()), (3277, 3277, 3277));
    assert!(scattered.direction().z() > 0);
}

#[test]
fn dielectric_always_scatters() {
    let m = Material::dielectric(6144);
    let sphere = Sphere::new(v(0, 0, -5 * 4096), 4096, 0);
    let r = Ray::new(v(0, 0, 0), v(0, 0, -4096));
    let h = sphere.hit(&r, 4, 1 << 32).unwrap();
    for seed in 0..16u64 {
        let mut rng = Rng::new(seed);
        let (att, _scattered) = m.scatter(&r, &h, &mut rng).expect("dielectric scatters");
        // A dielectric absorbs nothing.
        assert_eq!((att.x(), att.y(), att.z()), (4096, 4096, 4096));
    }
}

#[test]
fn sky_gradient_is_continuous() {
    // Adjacent vertical steps move every channel by at most one step.
    let mut prev = sky_color(&v(0, -4096, -4096));
    let mut y = -4095i64;
    while y <= 4096 {
        let c = sky_color(&v(0, y, -4096));
        assert!((c.x() - prev.x()).abs() <= 4);
        assert!((c.y() - prev.y()).abs() <= 4);
        assert!((c.z() - prev.z()).abs() <= 4);
        prev = c;
        y += 1;
    }
}

#[test]
fn structured_scene_renders() {
    let (scene, cam) = structured_art_scene(5461);
    let mut rng = Rng::new(2);
    let px = render_pixel(&scene, &cam, 2, 1, 4, 4, 2, 3, &mut rng);
    assert!((0..=4096).contains(&px.x()));
    assert!((0..=4096).contains(&px.y()));
    assert!((0..=4096).contains(&px.z()));
    // Rendering the same pixel with the same seed reproduces it.
    let mut rng2 = Rng::new(2);
    let px2 = render_pixel(&scene, &cam, 2, 1, 4, 4, 2, 3, &mut rng2);
    assert_eq!((px.x(), px.y(), px.z()), (px2.x(), px2.y(), px2.z()));
}

#[test]
fn grazing_hit_with_long_direction_is_reported() {
    // A ray with a long direction makes the parameter grid coarse, so
    // the point at the floored root can sit well off the surface; the
    // test must still report the in-interval root.
    let s = Sphere::new(v(0, 0, -40960), 512, 0);
    let r = Ray::new(v(0, 500, 0), v(0, 0, -0x100000));
    let h = s.hit(&r, 4, 1 << 32).expect("grazing root in interval");
    assert!(h.t > 4 && h.t < (1 << 32));
}
