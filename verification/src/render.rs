//! Per-pixel rendering: jittered primary samples through the camera,
//! averaged in linear space and gamma-corrected by a square root.

use crate::camera::{camera_wf, get_ray_spec, Camera, CameraV};
use crate::fixed::{div_floor, floor_div, isqrt, lemma_div_floor_mag, sqrt_of, SCALE};
use crate::material::MaterialV;
use crate::rng::{rng_next, unit_of, Rng};
use crate::scene::{mat_views, scene_wf, Scene};
use crate::sphere::SphereV;
use crate::tracer::{color, color_spec};
use crate::vec3::{add_v, zero_v, Vec3, V3};
use crate::world::views_of;
use vstd::prelude::*;

verus! {

/// One jittered sample of a pixel: two uniform draws perturb the pixel
/// coordinates, the camera produces the primary ray, and the
/// integrator estimates its radiance.
pub open spec fn render_sample_spec(
    cam: CameraV,
    spheres: Seq<SphereV>,
    mats: Seq<MaterialV>,
    x: int,
    y: int,
    width: int,
    height: int,
    max_depth: int,
    st: u64,
) -> (V3, u64) {
    let st1 = rng_next(st);
    let jx = unit_of(st1);
    let st2 = rng_next(st1);
    let jy = unit_of(st2);
    let su = div_floor((x * SCALE + jx) * SCALE, width * SCALE);
    let sv = div_floor((y * SCALE + jy) * SCALE, height * SCALE);
    let (ray, st3) = get_ray_spec(cam, su, sv, st2);
    color_spec(ray, spheres, mats, 0, max_depth, st3)
}

/// The running sum of sample radiances.
pub open spec fn sample_fold(
    cam: CameraV,
    spheres: Seq<SphereV>,
    mats: Seq<MaterialV>,
    x: int,
    y: int,
    width: int,
    height: int,
    max_depth: int,
    n: nat,
    st: u64,
    acc: V3,
) -> (V3, u64)
    decreases n,
{
    if n == 0 {
        (acc, st)
    } else {
        let r = render_sample_spec(cam, spheres, mats, x, y, width, height, max_depth, st);
        sample_fold(
            cam,
            spheres,
            mats,
            x,
            y,
            width,
            height,
            max_depth,
            (n - 1) as nat,
            r.1,
            add_v(acc, r.0),
        )
    }
}

/// The final pixel: the sample average, gamma-corrected channelwise by
/// the fixed-point square root.
pub open spec fn render_pixel_spec(
    cam: CameraV,
    spheres: Seq<SphereV>,
    mats: Seq<MaterialV>,
    x: int,
    y: int,
    width: int,
    height: int,
    samples: int,
    max_depth: int,
    st: u64,
) -> (V3, u64) {
    let r = sample_fold(
        cam,
        spheres,
        mats,
        x,
        y,
        width,
        height,
        max_depth,
        samples as nat,
        st,
        zero_v(),
    );
    let sum = r.0;
    let avg = V3 { x: sum.x / samples, y: sum.y / samples, z: sum.z / samples };
    (
        V3 {
            x: sqrt_of(avg.x * SCALE),
            y: sqrt_of(avg.y * SCALE),
            z: sqrt_of(avg.z * SCALE),
        },
        r.1,
    )
}

/// One channel of the gamma correction.
fn gamma_channel(v: i64) -> (g: i64)
    requires
        0 <= v <= SCALE,
    ensures
        g == sqrt_of(v * SCALE),
        0 <= g <= SCALE,
{
    proof {
        assert(0 <= v * SCALE <= 16777216) by (nonlinear_arith)
            requires
                0 <= v <= SCALE,
                SCALE == 4096,
        ;
    }
    let s = isqrt(((v as i128) * (SCALE as i128)) as u128);
    proof {
        assert(0 <= s as int * (s as int) <= v * SCALE);
        crate::fixed::lemma_sq_le(s as int, SCALE as int);
    }
    s as i64
}

/// Render one pixel with `samples` jittered rays.
pub fn render_pixel(
    scene: &Scene,
    camera: &Camera,
    x: u32,
    y: u32,
    width: u32,
    height: u32,
    samples: u32,
    max_depth: u32,
    rng: &mut Rng,
) -> (c: Vec3)
    requires
        scene_wf(*scene),
        camera_wf(camera@),
        x < width <= 0x10000,
        y < height <= 0x10000,
        0 < samples <= 0x10000,
        max_depth <= 0x10000,
    ensures
        (c@, final(rng)@) == render_pixel_spec(
            camera@,
            views_of(scene.spheres@),
            mat_views(scene.materials@),
            x as int,
            y as int,
            width as int,
            height as int,
            samples as int,
            max_depth as int,
            old(rng)@,
        ),
        0 <= c@.x <= SCALE && 0 <= c@.y <= SCALE && 0 <= c@.z <= SCALE,
{
    let ghost spheres = views_of(scene.spheres@);
    let ghost mats = mat_views(scene.materials@);
    let ghost st0 = rng@;
    let mut acc = Vec3 { x: 0, y: 0, z: 0 };
    let mut k: u32 = 0;
    while k < samples
        invariant
            scene_wf(*scene),
            camera_wf(camera@),
            x < width <= 0x10000,
            y < height <= 0x10000,
            0 < samples <= 0x10000,
            max_depth <= 0x10000,
            spheres == views_of(scene.spheres@),
            mats == mat_views(scene.materials@),
            0 <= k <= samples,
            0 <= acc@.x <= 4096 * k && 0 <= acc@.y <= 4096 * k && 0 <= acc@.z <= 4096 * k,
            sample_fold(
                camera@,
                spheres,
                mats,
                x as int,
                y as int,
                width as int,
                height as int,
                max_depth as int,
                (samples - k) as nat,
                rng@,
                acc@,
            ) == sample_fold(
                camera@,
                spheres,
                mats,
                x as int,
                y as int,
                width as int,
                height as int,
                max_depth as int,
                samples as nat,
                st0,
                zero_v(),
            ),
        decreases samples - k,
    {
        let jx = rng.next_unit();
        let jy = rng.next_unit();
        let a: i64 = (x as i64) * SCALE + jx;
        let b: i64 = (width as i64) * SCALE;
        let a2: i64 = (y as i64) * SCALE + jy;
        let b2: i64 = (height as i64) * SCALE;
        proof {
            crate::fixed::lemma_floor_div_bound(a * SCALE, b as int);
            crate::fixed::lemma_floor_div_bound(a2 * SCALE, b2 as int);
            lemma_div_floor_mag(a * SCALE, b as int, SCALE as int);
            lemma_div_floor_mag(a2 * SCALE, b2 as int, SCALE as int);
        }
        let su = floor_div((a as i128) * (SCALE as i128), b as i128) as i64;
        let sv = floor_div((a2 as i128) * (SCALE as i128), b2 as i128) as i64;
        let r = camera.get_ray(su, sv, rng);
        let col = color(&r, scene, 0, max_depth, rng);
        acc = acc.add(&col);
        k = k + 1;
    }
    proof {
        lemma_div_floor_mag(acc@.x, samples as int, SCALE as int);
        lemma_div_floor_mag(acc@.y, samples as int, SCALE as int);
        lemma_div_floor_mag(acc@.z, samples as int, SCALE as int);
        crate::fixed::lemma_floor_div_bound(acc@.x, samples as int);
        crate::fixed::lemma_floor_div_bound(acc@.y, samples as int);
        crate::fixed::lemma_floor_div_bound(acc@.z, samples as int);
    }
    let ax = floor_div(acc.x as i128, samples as i128) as i64;
    let ay = floor_div(acc.y as i128, samples as i128) as i64;
    let az = floor_div(acc.z as i128, samples as i128) as i64;
    Vec3 { x: gamma_channel(ax), y: gamma_channel(ay), z: gamma_channel(az) }
}

} // verus!
