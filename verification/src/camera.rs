//! The camera: an orthonormal basis and image-plane frame derived once
//! from the viewing parameters, producing primary rays on demand, with
//! optional thin-lens depth of field.

use crate::fixed::{div_floor, floor_div, fmul, lemma_abs_mul_bound, lemma_div_floor_mag, SCALE};
use crate::ray::{Ray, RayV};
use crate::rng::{sample_disk_spec, Rng, SAMPLE_TRIES};
use crate::vec3::{
    add_v, bounded, cross_v, smul_v, sub_v, unit_v, zero_v, Vec3, V3,
};
use vstd::prelude::*;

verus! {

pub ghost struct CameraV {
    pub origin: V3,
    pub lower_left_corner: V3,
    pub horizontal: V3,
    pub vertical: V3,
    pub lens_radius: int,
    pub u: V3,
    pub v: V3,
}

/// Field bounds every constructed camera satisfies; they keep every
/// produced primary ray within the intersection test's domain.
pub open spec fn camera_wf(c: CameraV) -> bool {
    &&& bounded(c.origin, 0x8000000)
    &&& bounded(c.lower_left_corner, 0xC000000)
    &&& bounded(c.horizontal, 0x4000000)
    &&& bounded(c.vertical, 0x4000000)
    &&& 0 <= c.lens_radius <= 0x8000
    &&& bounded(c.u, SCALE as int)
    &&& bounded(c.v, 2 * SCALE as int)
}

/// What the constructor computes from the viewing parameters.
pub open spec fn camera_new_spec(
    look_from: V3,
    look_at: V3,
    v_up: V3,
    tan_half_vfov: int,
    aspect: int,
    aperture: int,
    focus_distance: int,
) -> CameraV {
    let lens_radius = aperture / 2;
    let half_width = div_floor(aspect * tan_half_vfov, SCALE as int);
    let w = unit_v(sub_v(look_from, look_at));
    let u = unit_v(cross_v(v_up, w));
    let v = cross_v(w, u);
    let fw = div_floor(half_width * focus_distance, SCALE as int);
    let fh = div_floor(tan_half_vfov * focus_distance, SCALE as int);
    let lower_left_corner = sub_v(
        sub_v(sub_v(look_from, smul_v(u, fw)), smul_v(v, fh)),
        smul_v(w, focus_distance),
    );
    CameraV {
        origin: look_from,
        lower_left_corner,
        horizontal: smul_v(u, 2 * fw),
        vertical: smul_v(v, 2 * fh),
        lens_radius,
        u,
        v,
    }
}

/// The primary ray for normalized image coordinates `(s, t)` (row 0 at
/// the top), and the generator state after the lens draw.  The
/// direction is normalized, so the ray parameter measures world
/// distance; a degenerate (zero) frame direction is passed through.
pub open spec fn get_ray_spec(c: CameraV, s: int, t: int, st: u64) -> (RayV, u64) {
    let (rd, st2) = sample_disk_spec(st, SAMPLE_TRIES as nat);
    let rdl = smul_v(rd, c.lens_radius);
    let offset = add_v(smul_v(c.u, rdl.x), smul_v(c.v, rdl.y));
    let orig = add_v(c.origin, offset);
    let dir0 = sub_v(
        sub_v(
            add_v(
                add_v(c.lower_left_corner, smul_v(c.horizontal, s)),
                smul_v(c.vertical, SCALE - t),
            ),
            c.origin,
        ),
        offset,
    );
    let dir = if dir0 == zero_v() {
        dir0
    } else {
        unit_v(dir0)
    };
    (RayV { orig, dir }, st2)
}

pub struct Camera {
    origin: Vec3,
    lower_left_corner: Vec3,
    horizontal: Vec3,
    vertical: Vec3,
    lens_radius: i64,
    u: Vec3,
    v: Vec3,
}

impl View for Camera {
    type V = CameraV;

    closed spec fn view(&self) -> CameraV {
        CameraV {
            origin: self.origin@,
            lower_left_corner: self.lower_left_corner@,
            horizontal: self.horizontal@,
            vertical: self.vertical@,
            lens_radius: self.lens_radius as int,
            u: self.u@,
            v: self.v@,
        }
    }
}

impl Camera {
    /// Build a camera.  The vertical field of view is given by the
    /// tangent of its half angle, in fixed point.  The admitted ranges
    /// are this camera's fixed-point budget: vertical field of view up
    /// to a right angle, aspect up to two, aperture up to sixteen
    /// units, focus distance up to 2048 units; they keep every frame
    /// coordinate, and so every primary ray, inside the intersection
    /// test's domain.
    pub fn new(
        look_from: &Vec3,
        look_at: &Vec3,
        v_up: &Vec3,
        tan_half_vfov: i64,
        aspect: i64,
        aperture: i64,
        focus_distance: i64,
    ) -> (c: Camera)
        requires
            bounded(look_from@, 0x8000000),
            bounded(look_at@, 0x8000000),
            bounded(v_up@, 0x10000),
            sub_v(look_from@, look_at@) != zero_v(),
            cross_v(v_up@, unit_v(sub_v(look_from@, look_at@))) != zero_v(),
            0 < tan_half_vfov <= SCALE,
            0 < aspect <= 2 * SCALE,
            0 <= aperture <= 0x10000,
            0 < focus_distance <= 0x800000,
        ensures
            c@ == camera_new_spec(
                look_from@,
                look_at@,
                v_up@,
                tan_half_vfov as int,
                aspect as int,
                aperture as int,
                focus_distance as int,
            ),
            camera_wf(c@),
    {
        let lens_radius = floor_div(aperture as i128, 2) as i64;
        let half_width = fmul(aspect, tan_half_vfov);
        proof {
            lemma_abs_mul_bound(aspect as int, tan_half_vfov as int, 8192, 4096);
            lemma_div_floor_mag(aspect * tan_half_vfov, SCALE as int, 8192);
        }
        let w = Vec3::unit_vector(&look_from.sub(look_at));
        proof {
            lemma_abs_mul_bound(v_up@.y, w@.z, 0x10000, 4096);
            lemma_abs_mul_bound(v_up@.z, w@.y, 0x10000, 4096);
            lemma_abs_mul_bound(v_up@.z, w@.x, 0x10000, 4096);
            lemma_abs_mul_bound(v_up@.x, w@.z, 0x10000, 4096);
            lemma_abs_mul_bound(v_up@.x, w@.y, 0x10000, 4096);
            lemma_abs_mul_bound(v_up@.y, w@.x, 0x10000, 4096);
            lemma_div_floor_mag(v_up@.y * w@.z - v_up@.z * w@.y, SCALE as int, 0x20000);
            lemma_div_floor_mag(v_up@.z * w@.x - v_up@.x * w@.z, SCALE as int, 0x20000);
            lemma_div_floor_mag(v_up@.x * w@.y - v_up@.y * w@.x, SCALE as int, 0x20000);
        }
        let u = Vec3::unit_vector(&Vec3::cross(v_up, &w));
        let v = Vec3::cross(&w, &u);
        proof {
            lemma_abs_mul_bound(w@.y, u@.z, 4096, 4096);
            lemma_abs_mul_bound(w@.z, u@.y, 4096, 4096);
            lemma_abs_mul_bound(w@.z, u@.x, 4096, 4096);
            lemma_abs_mul_bound(w@.x, u@.z, 4096, 4096);
            lemma_abs_mul_bound(w@.x, u@.y, 4096, 4096);
            lemma_abs_mul_bound(w@.y, u@.x, 4096, 4096);
            lemma_div_floor_mag(w@.y * u@.z - w@.z * u@.y, SCALE as int, 8192);
            lemma_div_floor_mag(w@.z * u@.x - w@.x * u@.z, SCALE as int, 8192);
            lemma_div_floor_mag(w@.x * u@.y - w@.y * u@.x, SCALE as int, 8192);
        }
        let fw = fmul(half_width, focus_distance);
        let fh = fmul(tan_half_vfov, focus_distance);
        proof {
            lemma_abs_mul_bound(half_width as int, focus_distance as int, 8192, 0x800000);
            lemma_div_floor_mag(half_width * focus_distance, SCALE as int, 0x1000000);
            lemma_abs_mul_bound(tan_half_vfov as int, focus_distance as int, 4096, 0x800000);
            lemma_div_floor_mag(tan_half_vfov * focus_distance, SCALE as int, 0x800000);
            crate::vec3::lemma_smul_bound(u@, fw as int, 4096, 0x1000000, 0x1000000);
            crate::vec3::lemma_smul_bound(v@, fh as int, 8192, 0x800000, 0x1000000);
            crate::vec3::lemma_smul_bound(w@, focus_distance as int, 4096, 0x800000, 0x800000);
            crate::vec3::lemma_smul_bound(u@, 2 * fw as int, 4096, 0x2000000, 0x2000000);
            crate::vec3::lemma_smul_bound(v@, 2 * fh as int, 8192, 0x1000000, 0x2000000);
        }
        let lower_left_corner = look_from.sub(&u.scale(fw)).sub(&v.scale(fh)).sub(
            &w.scale(focus_distance),
        );
        let horizontal = u.scale(2 * fw);
        let vertical = v.scale(2 * fh);
        Camera {
            origin: *look_from,
            lower_left_corner,
            horizontal,
            vertical,
            lens_radius,
            u,
            v,
        }
    }

    /// The primary ray through normalized image coordinates
    /// `(s, t)` in `[0, 1]`, with the origin perturbed on the lens disk.
    pub fn get_ray(&self, s: i64, t: i64, rng: &mut Rng) -> (r: Ray)
        requires
            camera_wf(self@),
            0 <= s <= SCALE,
            0 <= t <= SCALE,
        ensures
            (r@, final(rng)@) == get_ray_spec(self@, s as int, t as int, old(rng)@),
            crate::sphere::ray_wf(r@),
    {
        let rd = crate::rng::random_in_unit_disk(rng);
        proof {
            crate::vec3::lemma_smul_bound(rd@, self@.lens_radius, 4096, 0x8000, 0x8000);
        }
        let rdl = rd.scale(self.lens_radius);
        proof {
            crate::vec3::lemma_smul_bound(self@.u, rdl@.x, 4096, 0x8000, 0x8000);
            crate::vec3::lemma_smul_bound(self@.v, rdl@.y, 8192, 0x8000, 0x10000);
            crate::vec3::lemma_smul_bound(self@.horizontal, s as int, 0x4000000, 4096, 0x4000000);
            crate::vec3::lemma_smul_bound(
                self@.vertical,
                SCALE - t as int,
                0x4000000,
                4096,
                0x4000000,
            );
        }
        let offset = self.u.scale(rdl.x).add(&self.v.scale(rdl.y));
        let orig = self.origin.add(&offset);
        let dir0 = self.lower_left_corner.add(&self.horizontal.scale(s)).add(
            &self.vertical.scale(SCALE - t),
        ).sub(&self.origin).sub(&offset);
        let dir = if dir0.x == 0 && dir0.y == 0 && dir0.z == 0 {
            dir0
        } else {
            Vec3::unit_vector(&dir0)
        };
        Ray::new(orig, dir)
    }
}

} // verus!
