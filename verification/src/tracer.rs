//! The path integrator: recursive shading with a fixed bounce budget,
//! and the sky gradient it falls back to on a miss.

use crate::fixed::{
    div_floor, floor_div, lemma_abs_mul_bound, lemma_div_floor_mag, lemma_floor_div_brackets,
    SCALE,
};
use crate::material::{color_ok, material_wf, scatter_spec, MaterialV};
use crate::ray::{Ray, RayV};
use crate::rng::Rng;
use crate::scene::{mat_views, scene_wf, Scene};
use crate::sphere::{ray_wf, SphereV, T_BOUND};
use crate::vec3::{add_v, bounded, cmul_v, smul_v, unit_v, zero_v, Vec3, V3};
use crate::world::{views_of, world_hit_spec};
use vstd::prelude::*;

verus! {

/// Offset applied along a scattered direction before the next query,
/// to avoid immediate re-intersection with the originating surface.
pub const SHIFT_FX: i64 = 4;

/// One interpolated channel of the sky gradient, from `w` at `t == 0`
/// to `b` at `t == 1`.
pub open spec fn lerp_channel(t: int, w: int, b: int) -> int {
    div_floor((SCALE - t) * w + t * b, SCALE as int)
}

/// The sky gradient as a function of the vertical component of the
/// normalized ray direction: white at the bottom, sky blue at the top.
pub open spec fn sky_of_y(y: int) -> V3 {
    let t = (y + SCALE) / 2;
    V3 {
        x: lerp_channel(t, SCALE as int, 2048),
        y: lerp_channel(t, SCALE as int, 2867),
        z: lerp_channel(t, SCALE as int, SCALE as int),
    }
}

/// The sky color of a ray direction; the zero direction reads the
/// gradient at its midpoint.
pub open spec fn sky_spec(d: V3) -> V3 {
    sky_of_y(
        if d == zero_v() {
            0
        } else {
            unit_v(d).y
        },
    )
}

/// An interpolated channel stays inside `[0, 1]`.
pub proof fn lemma_lerp_in_range(t: int, w: int, b: int)
    requires
        0 <= t <= SCALE,
        0 <= w <= SCALE,
        0 <= b <= SCALE,
    ensures
        0 <= lerp_channel(t, w, b) <= SCALE,
{
    lemma_abs_mul_bound(SCALE - t, w, SCALE as int, SCALE as int);
    lemma_abs_mul_bound(t, b, SCALE as int, SCALE as int);
    assert((SCALE - t) * w >= 0) by (nonlinear_arith)
        requires
            t <= SCALE,
            w >= 0,
    ;
    assert(t * b >= 0) by (nonlinear_arith)
        requires
            t >= 0,
            b >= 0,
    ;
    assert((SCALE - t) * w + t * b <= SCALE * SCALE) by (nonlinear_arith)
        requires
            0 <= t <= SCALE,
            0 <= w <= SCALE,
            0 <= b <= SCALE,
            SCALE == 4096,
    ;
    crate::fixed::lemma_floor_div_bound((SCALE - t) * w + t * b, SCALE as int);
    lemma_div_floor_mag((SCALE - t) * w + t * b, SCALE as int, SCALE as int);
}

/// The sky gradient is monotone along the vertical component: as `t`
/// grows, a channel moves from its `w` endpoint toward its `b`
/// endpoint, never back.
pub proof fn lemma_lerp_monotone(t1: int, t2: int, w: int, b: int)
    requires
        t1 <= t2,
    ensures
        b <= w ==> lerp_channel(t2, w, b) <= lerp_channel(t1, w, b),
        w <= b ==> lerp_channel(t1, w, b) <= lerp_channel(t2, w, b),
{
    let n1 = (SCALE - t1) * w + t1 * b;
    let n2 = (SCALE - t2) * w + t2 * b;
    assert(n2 - n1 == (t2 - t1) * (b - w)) by (nonlinear_arith)
        requires
            n1 == (SCALE - t1) * w + t1 * b,
            n2 == (SCALE - t2) * w + t2 * b,
    ;
    if b <= w {
        assert((t2 - t1) * (b - w) <= 0) by (nonlinear_arith)
            requires
                t2 - t1 >= 0,
                b - w <= 0,
        ;
        vstd::arithmetic::div_mod::lemma_div_is_ordered(n2, n1, SCALE as int);
    } else {
        assert((t2 - t1) * (b - w) >= 0) by (nonlinear_arith)
            requires
                t2 - t1 >= 0,
                b - w >= 0,
        ;
        vstd::arithmetic::div_mod::lemma_div_is_ordered(n1, n2, SCALE as int);
    }
}

/// The sky gradient is continuous: one grid step of `t` moves every
/// channel by at most one grid step of color.
pub proof fn lemma_lerp_step(t: int, w: int, b: int)
    requires
        0 <= w <= SCALE,
        0 <= b <= SCALE,
    ensures
        lerp_channel(t + 1, w, b) - 1 <= lerp_channel(t, w, b) <= lerp_channel(t + 1, w, b) + 1,
{
    let n1 = (SCALE - t) * w + t * b;
    let n2 = (SCALE - (t + 1)) * w + (t + 1) * b;
    assert(n2 - n1 == b - w) by (nonlinear_arith)
        requires
            n1 == (SCALE - t) * w + t * b,
            n2 == (SCALE - (t + 1)) * w + (t + 1) * b,
    ;
    lemma_floor_div_brackets(n1, SCALE as int);
    lemma_floor_div_brackets(n2, SCALE as int);
    let q1 = n1 / (SCALE as int);
    let q2 = n2 / (SCALE as int);
    assert(q2 - 1 <= q1 <= q2 + 1) by (nonlinear_arith)
        requires
            -SCALE <= n2 - n1 <= SCALE,
            SCALE * q1 <= n1 < SCALE * (q1 + 1),
            SCALE * q2 <= n2 < SCALE * (q2 + 1),
            SCALE == 4096,
    ;
}

/// The sky color of a direction.
pub fn sky_color(d: &Vec3) -> (c: Vec3)
    requires
        bounded(d@, 0x1000000000),
    ensures
        c@ == sky_spec(d@),
        color_ok(c@),
{
    let u = if d.x == 0 && d.y == 0 && d.z == 0 {
        Vec3 { x: 0, y: 0, z: 0 }
    } else {
        Vec3::unit_vector(d)
    };
    let t = floor_div((u.y as i128) + (SCALE as i128), 2) as i64;
    proof {
        lemma_lerp_in_range(t as int, SCALE as int, 2048);
        lemma_lerp_in_range(t as int, SCALE as int, 2867);
        lemma_lerp_in_range(t as int, SCALE as int, SCALE as int);
        lemma_abs_mul_bound(SCALE as int - t, SCALE as int, 8192, 4096);
        lemma_abs_mul_bound(t as int, SCALE as int, 8192, 4096);
    }
    let cx = floor_div(
        ((SCALE - t) as i128) * (SCALE as i128) + (t as i128) * 2048,
        SCALE as i128,
    ) as i64;
    let cy = floor_div(
        ((SCALE - t) as i128) * (SCALE as i128) + (t as i128) * 2867,
        SCALE as i128,
    ) as i64;
    let cz = floor_div(
        ((SCALE - t) as i128) * (SCALE as i128) + (t as i128) * (SCALE as i128),
        SCALE as i128,
    ) as i64;
    Vec3 { x: cx, y: cy, z: cz }
}

/// A componentwise product of colors is a color.
pub proof fn lemma_cmul_color(a: V3, b: V3)
    requires
        color_ok(a),
        color_ok(b),
    ensures
        color_ok(cmul_v(a, b)),
{
    lemma_abs_mul_bound(a.x, b.x, SCALE as int, SCALE as int);
    lemma_abs_mul_bound(a.y, b.y, SCALE as int, SCALE as int);
    lemma_abs_mul_bound(a.z, b.z, SCALE as int, SCALE as int);
    assert(a.x * b.x >= 0 && a.y * b.y >= 0 && a.z * b.z >= 0) by (nonlinear_arith)
        requires
            a.x >= 0 && a.y >= 0 && a.z >= 0 && b.x >= 0 && b.y >= 0 && b.z >= 0,
    ;
    assert(a.x * b.x <= SCALE * SCALE && a.y * b.y <= SCALE * SCALE && a.z * b.z <= SCALE
        * SCALE) by (nonlinear_arith)
        requires
            0 <= a.x <= SCALE && 0 <= a.y <= SCALE && 0 <= a.z <= SCALE,
            0 <= b.x <= SCALE && 0 <= b.y <= SCALE && 0 <= b.z <= SCALE,
    ;
    crate::fixed::lemma_floor_div_bound(a.x * b.x, SCALE as int);
    crate::fixed::lemma_floor_div_bound(a.y * b.y, SCALE as int);
    crate::fixed::lemma_floor_div_bound(a.z * b.z, SCALE as int);
    lemma_div_floor_mag(a.x * b.x, SCALE as int, SCALE as int);
    lemma_div_floor_mag(a.y * b.y, SCALE as int, SCALE as int);
    lemma_div_floor_mag(a.z * b.z, SCALE as int, SCALE as int);
}

/// The radiance estimate of a ray: terminal black past the depth
/// budget, the sky gradient on a miss, otherwise the scattered
/// recursion attenuated componentwise.
pub open spec fn color_spec(
    ray: RayV,
    spheres: Seq<SphereV>,
    mats: Seq<MaterialV>,
    depth: int,
    max_depth: int,
    s: u64,
) -> (V3, u64)
    decreases max_depth + 1 - depth,
{
    if depth > max_depth {
        (zero_v(), s)
    } else {
        match world_hit_spec(spheres, ray, 0, T_BOUND as int) {
            Some(h) => {
                let sc = scatter_spec(mats[h.material], ray, h, s);
                match sc.0 {
                    Some(pair) => {
                        let shifted = RayV {
                            orig: add_v(pair.1.orig, smul_v(pair.1.dir, SHIFT_FX as int)),
                            dir: pair.1.dir,
                        };
                        let rec = color_spec(shifted, spheres, mats, depth + 1, max_depth, sc.1);
                        (cmul_v(pair.0, rec.0), rec.1)
                    },
                    None => (zero_v(), sc.1),
                }
            },
            None => (sky_spec(ray.dir), s),
        }
    }
}

/// Recursive shading.  Termination is structural: each bounce raises
/// `depth`, and the recursion stops as soon as it passes `max_depth`,
/// whatever the scene holds.
pub fn color(r: &Ray, scene: &Scene, depth: u32, max_depth: u32, rng: &mut Rng) -> (c: Vec3)
    requires
        scene_wf(*scene),
        ray_wf(r@),
        max_depth <= 0x10000,
    ensures
        (c@, final(rng)@) == color_spec(
            r@,
            views_of(scene.spheres@),
            mat_views(scene.materials@),
            depth as int,
            max_depth as int,
            old(rng)@,
        ),
        color_ok(c@),
        scene.spheres@.len() == 0 && depth <= max_depth ==> c@ == sky_spec(r@.dir),
    decreases max_depth + 1 - depth,
{
    if depth > max_depth {
        return Vec3 { x: 0, y: 0, z: 0 };
    }
    match scene.bvh.hit(&scene.spheres, r, 0, T_BOUND) {
        Some(h) => {
            proof {
                let views = views_of(scene.spheres@);
                let j = choose|j: int|
                    0 <= j < scene.spheres@.len() && #[trigger] views[j].material == h@.material;
                assert(0 <= views[j].material < scene.materials@.len());
                assert(material_wf(mat_views(scene.materials@)[h@.material]));
                assert(scene.materials@[h@.material]@ == mat_views(scene.materials@)[h@.material]);
            }
            let m = &scene.materials[h.material];
            match m.scatter(r, &h, rng) {
                Some((att, sc)) => {
                    proof {
                        crate::vec3::lemma_smul_bound(
                            sc@.dir,
                            SHIFT_FX as int,
                            0x20000000,
                            4,
                            0x80000,
                        );
                    }
                    let shifted_o = sc.origin().add(&sc.direction().scale(SHIFT_FX));
                    let r2 = Ray::new(shifted_o, sc.direction());
                    let rec = color(&r2, scene, depth + 1, max_depth, rng);
                    proof {
                        lemma_cmul_color(att@, rec@);
                    }
                    att.mul_each(&rec)
                },
                None => Vec3 { x: 0, y: 0, z: 0 },
            }
        },
        None => sky_color(&r.direction()),
    }
}

} // verus!
