//! The material model: diffuse, metal and dielectric scattering, with
//! the reflection and refraction formulas they build on.

use crate::fixed::{
    div_floor, floor_div, fmul, fdiv, isqrt, lemma_abs_mul_bound, lemma_div_floor_mag,
    lemma_floor_div_brackets, lemma_sq_le, sqrt_of, SCALE,
};
use crate::ray::{Ray, RayV};
use crate::rng::{
    rng_next, sample_sphere_spec, unit_of, random_in_unit_sphere, Rng, SAMPLE_TRIES,
};
use crate::sphere::{HitRecord, HitV};
use crate::vec3::{
    add_v, bounded, dot_fx, dot_raw, len_fx, norm2_raw, smul_v, unit_v, zero_v, Vec3, V3,
};
use vstd::arithmetic::mul::{
    lemma_mul_inequality, lemma_mul_inequality_converse, lemma_mul_is_associative,
    lemma_mul_is_commutative, lemma_mul_is_distributive_add, lemma_mul_is_distributive_sub,
    lemma_mul_is_distributive_sub_other_way, lemma_mul_strict_inequality_converse,
    lemma_mul_unary_negation,
};
use vstd::prelude::*;

verus! {

/// Componentwise interval bound for colors: every channel in `[0, 1]`.
pub open spec fn color_ok(c: V3) -> bool {
    &&& 0 <= c.x <= SCALE
    &&& 0 <= c.y <= SCALE
    &&& 0 <= c.z <= SCALE
}

/// The reflection of `v` about the normal `n`:
/// `v - 2 * (v . n) * n`, with one floor division at the end.
pub open spec fn reflect_spec(v: V3, n: V3) -> V3 {
    let d = dot_raw(v, n);
    V3 {
        x: div_floor((SCALE * SCALE) * v.x - 2 * d * n.x, SCALE * SCALE),
        y: div_floor((SCALE * SCALE) * v.y - 2 * d * n.y, SCALE * SCALE),
        z: div_floor((SCALE * SCALE) * v.z - 2 * d * n.z, SCALE * SCALE),
    }
}

/// The reflection without any rounding, scaled by `n . n`:
/// `(n . n) * v - 2 * (v . n) * n`.
pub open spec fn reflect_exact(v: V3, n: V3) -> V3 {
    let d = dot_raw(v, n);
    let nn = dot_raw(n, n);
    V3 { x: nn * v.x - 2 * d * n.x, y: nn * v.y - 2 * d * n.y, z: nn * v.z - 2 * d * n.z }
}

/// Reflection is an involution: reflecting a reflected vector about the
/// same normal returns the original vector, at scale `(n . n)^2`; in
/// particular for an exactly unit normal (`n . n == SCALE^2`), the
/// rounding-free reflection composed with itself is the identity times
/// `SCALE^4`.
pub proof fn lemma_reflect_involution(v: V3, n: V3)
    ensures
        ({
            let nn = dot_raw(n, n);
            let rr = reflect_exact(reflect_exact(v, n), n);
            rr.x == nn * nn * v.x && rr.y == nn * nn * v.y && rr.z == nn * nn * v.z
        }),
{
    let d = dot_raw(v, n);
    let nn = dot_raw(n, n);
    let r = reflect_exact(v, n);
    lemma_reflect_dot(v.x, v.y, v.z, n.x, n.y, n.z);
    assert(dot_raw(r, n) == -(nn * d));
    let rr = reflect_exact(r, n);
    lemma_reflect_comp(v.x, n.x, d, nn);
    lemma_reflect_comp(v.y, n.y, d, nn);
    lemma_reflect_comp(v.z, n.z, d, nn);
}

/// The reflected vector's dot product with the normal is the negated
/// original one, scaled by `n . n`.
proof fn lemma_reflect_dot(vx: int, vy: int, vz: int, nx: int, ny: int, nz: int)
    ensures
        ({
            let d = vx * nx + vy * ny + vz * nz;
            let nn = nx * nx + ny * ny + nz * nz;
            (nn * vx - 2 * d * nx) * nx + (nn * vy - 2 * d * ny) * ny + (nn * vz - 2 * d * nz)
                * nz == -(nn * d)
        }),
{
    let d = vx * nx + vy * ny + vz * nz;
    let nn = nx * nx + ny * ny + nz * nz;
    lemma_mul_is_distributive_sub_other_way(nx, nn * vx, 2 * d * nx);
    lemma_mul_is_distributive_sub_other_way(ny, nn * vy, 2 * d * ny);
    lemma_mul_is_distributive_sub_other_way(nz, nn * vz, 2 * d * nz);
    lemma_mul_is_associative(nn, vx, nx);
    lemma_mul_is_associative(nn, vy, ny);
    lemma_mul_is_associative(nn, vz, nz);
    lemma_mul_is_associative(2 * d, nx, nx);
    lemma_mul_is_associative(2 * d, ny, ny);
    lemma_mul_is_associative(2 * d, nz, nz);
    lemma_mul_is_distributive_add(nn, vx * nx, vy * ny);
    lemma_mul_is_distributive_add(nn, vx * nx + vy * ny, vz * nz);
    lemma_mul_is_distributive_add(2 * d, nx * nx, ny * ny);
    lemma_mul_is_distributive_add(2 * d, nx * nx + ny * ny, nz * nz);
    lemma_mul_is_associative(2, d, nn);
    lemma_mul_is_commutative(d, nn);
}

/// One component of the double reflection.
proof fn lemma_reflect_comp(vi: int, ni: int, d: int, nn: int)
    ensures
        nn * (nn * vi - 2 * d * ni) - 2 * (-(nn * d)) * ni == nn * nn * vi,
{
    lemma_mul_is_distributive_sub(nn, nn * vi, 2 * d * ni);
    lemma_mul_is_associative(nn, nn, vi);
    lemma_mul_is_associative(nn, 2 * d, ni);
    lemma_mul_is_associative(nn, 2, d);
    lemma_mul_is_associative(2, nn, d);
    lemma_mul_unary_negation(2 * (nn * d), ni);
}

/// The executable reflection floors what the exact scaled form divides
/// by `SCALE^2` when the normal is exactly unit length.
pub proof fn lemma_reflect_floors_exact(v: V3, n: V3)
    requires
        dot_raw(n, n) == SCALE * SCALE,
    ensures
        reflect_spec(v, n).x == div_floor(reflect_exact(v, n).x, SCALE * SCALE),
        reflect_spec(v, n).y == div_floor(reflect_exact(v, n).y, SCALE * SCALE),
        reflect_spec(v, n).z == div_floor(reflect_exact(v, n).z, SCALE * SCALE),
{
}

/// The executable reflection is an involution up to rounding: about
/// an exactly unit normal, reflecting twice returns every component
/// within seven grid steps of the original vector.
pub proof fn lemma_reflect_involution_rounded(v: V3, n: V3)
    requires
        dot_raw(n, n) == SCALE * SCALE,
    ensures
        ({
            let r2 = reflect_spec(reflect_spec(v, n), n);
            &&& -7 <= r2.x - v.x <= 7
            &&& -7 <= r2.y - v.y <= 7
            &&& -7 <= r2.z - v.z <= 7
        }),
{
    let sc = SCALE as int;
    let s2 = sc * sc;
    assert(s2 == 16777216) by (nonlinear_arith)
        requires
            s2 == sc * sc,
            sc == 4096,
    ;
    assert(s2 * s2 == 281474976710656) by (nonlinear_arith)
        requires
            s2 == 16777216,
    ;
    // Components of a unit normal are at most one unit.
    assert(n.x * n.x >= 0) by (nonlinear_arith);
    assert(n.y * n.y >= 0) by (nonlinear_arith);
    assert(n.z * n.z >= 0) by (nonlinear_arith);
    lemma_sq_le(n.x, sc);
    lemma_sq_le(n.y, sc);
    lemma_sq_le(n.z, sc);
    let e1 = reflect_exact(v, n);
    let r1 = reflect_spec(v, n);
    lemma_reflect_floors_exact(v, n);
    lemma_floor_div_brackets(e1.x, s2);
    lemma_floor_div_brackets(e1.y, s2);
    lemma_floor_div_brackets(e1.z, s2);
    // Flooring remainders of the first reflection.
    let px = e1.x - s2 * r1.x;
    let py = e1.y - s2 * r1.y;
    let pz = e1.z - s2 * r1.z;
    assert(0 <= px < s2 && 0 <= py < s2 && 0 <= pz < s2);
    // Push the second exact reflection through the remainders:
    // s2 * E_i == rr_i - s2 * p_i + (2 * dp) * n_i, where rr is the
    // exact double reflection and dp the remainder's dot with n.
    let de1 = dot_raw(e1, n);
    let dp = px * n.x + py * n.y + pz * n.z;
    let dr1 = dot_raw(r1, n);
    assert(s2 * dr1 == de1 - dp) by {
        lemma_mul_is_distributive_add(s2, r1.x * n.x, r1.y * n.y);
        lemma_mul_is_distributive_add(s2, r1.x * n.x + r1.y * n.y, r1.z * n.z);
        lemma_mul_is_associative(s2, r1.x, n.x);
        lemma_mul_is_associative(s2, r1.y, n.y);
        lemma_mul_is_associative(s2, r1.z, n.z);
        lemma_mul_is_distributive_sub_other_way(n.x, e1.x, px);
        lemma_mul_is_distributive_sub_other_way(n.y, e1.y, py);
        lemma_mul_is_distributive_sub_other_way(n.z, e1.z, pz);
    }
    let ee = reflect_exact(r1, n);
    lemma_reflect_involution(v, n);
    let rr = reflect_exact(e1, n);
    assert(rr.x == (s2 * s2) * v.x && rr.y == (s2 * s2) * v.y && rr.z == (s2 * s2) * v.z);
    assert(s2 * ee.x == rr.x - s2 * px + (2 * dp) * n.x) by {
        lemma_mul_is_distributive_sub(s2, s2 * r1.x, 2 * dr1 * n.x);
        lemma_mul_is_associative(s2, s2, r1.x);
        lemma_mul_is_commutative(s2, s2 * r1.x);
        lemma_mul_is_associative(s2 * r1.x, s2, 1);
        lemma_mul_is_associative(s2, 2 * dr1, n.x);
        lemma_mul_is_associative(s2, 2, dr1);
        lemma_mul_is_commutative(s2, 2);
        lemma_mul_is_associative(2, s2, dr1);
        lemma_mul_is_distributive_sub(2, de1, dp);
        lemma_mul_is_distributive_sub_other_way(n.x, 2 * de1, 2 * dp);
        lemma_mul_is_distributive_sub(s2, e1.x, px);
        assert(s2 * (s2 * r1.x) == s2 * e1.x - s2 * px);
    }
    assert(s2 * ee.y == rr.y - s2 * py + (2 * dp) * n.y) by {
        lemma_mul_is_distributive_sub(s2, s2 * r1.y, 2 * dr1 * n.y);
        lemma_mul_is_associative(s2, s2, r1.y);
        lemma_mul_is_associative(s2, 2 * dr1, n.y);
        lemma_mul_is_associative(s2, 2, dr1);
        lemma_mul_is_commutative(s2, 2);
        lemma_mul_is_associative(2, s2, dr1);
        lemma_mul_is_distributive_sub(2, de1, dp);
        lemma_mul_is_distributive_sub_other_way(n.y, 2 * de1, 2 * dp);
        lemma_mul_is_distributive_sub(s2, e1.y, py);
        assert(s2 * (s2 * r1.y) == s2 * e1.y - s2 * py);
    }
    assert(s2 * ee.z == rr.z - s2 * pz + (2 * dp) * n.z) by {
        lemma_mul_is_distributive_sub(s2, s2 * r1.z, 2 * dr1 * n.z);
        lemma_mul_is_associative(s2, s2, r1.z);
        lemma_mul_is_associative(s2, 2 * dr1, n.z);
        lemma_mul_is_associative(s2, 2, dr1);
        lemma_mul_is_commutative(s2, 2);
        lemma_mul_is_associative(2, s2, dr1);
        lemma_mul_is_distributive_sub(2, de1, dp);
        lemma_mul_is_distributive_sub_other_way(n.z, 2 * de1, 2 * dp);
        lemma_mul_is_distributive_sub(s2, e1.z, pz);
        assert(s2 * (s2 * r1.z) == s2 * e1.z - s2 * pz);
    }
    // Bound the perturbation: |dp| <= 3 * s2 * SCALE, so the correction
    // term stays within six quarters of the grid cell.
    lemma_abs_mul_bound(px, n.x, s2, sc);
    lemma_abs_mul_bound(py, n.y, s2, sc);
    lemma_abs_mul_bound(pz, n.z, s2, sc);
    lemma_abs_mul_bound(2 * dp, n.x, 6 * (s2 * sc), sc);
    lemma_abs_mul_bound(2 * dp, n.y, 6 * (s2 * sc), sc);
    lemma_abs_mul_bound(2 * dp, n.z, 6 * (s2 * sc), sc);
    assert((6 * (s2 * sc)) * sc == 6 * (s2 * s2)) by {
        lemma_mul_is_associative(6, s2 * sc, sc);
        lemma_mul_is_associative(s2, sc, sc);
    }
    // Multiplying the remainder by s2 keeps it under one cell squared.
    lemma_mul_inequality(px, s2 - 1, s2);
    lemma_mul_inequality(py, s2 - 1, s2);
    lemma_mul_inequality(pz, s2 - 1, s2);
    lemma_mul_is_commutative(px, s2);
    lemma_mul_is_commutative(py, s2);
    lemma_mul_is_commutative(pz, s2);
    lemma_mul_is_distributive_sub_other_way(s2, s2, 1);
    vstd::arithmetic::mul::lemma_mul_basics(s2);
    assert(s2 * px <= s2 * s2 - s2);
    assert(s2 * py <= s2 * s2 - s2);
    assert(s2 * pz <= s2 * s2 - s2);
    assert(s2 * px >= 0 && s2 * py >= 0 && s2 * pz >= 0) by {
        vstd::arithmetic::mul::lemma_mul_nonnegative(s2, px);
        vstd::arithmetic::mul::lemma_mul_nonnegative(s2, py);
        vstd::arithmetic::mul::lemma_mul_nonnegative(s2, pz);
    }
    // Conclude per axis via the brackets of the second flooring.
    let r2 = reflect_spec(r1, n);
    lemma_reflect_floors_exact(r1, n);
    lemma_floor_div_brackets(ee.x, s2);
    lemma_floor_div_brackets(ee.y, s2);
    lemma_floor_div_brackets(ee.z, s2);
    lemma_round_step(v.x, r2.x, ee.x, s2);
    lemma_round_step(v.y, r2.y, ee.y, s2);
    lemma_round_step(v.z, r2.z, ee.z, s2);
}

/// From `s2^2 * (v - 7) <= s2 * e <= s2^2 * (v + 6)` and the flooring
/// brackets of `r = floor(e / s2)`, conclude `|r - v| <= 7`.
proof fn lemma_round_step(vi: int, ri: int, ei: int, s2: int)
    requires
        s2 >= 1,
        s2 * ri <= ei < s2 * (ri + 1),
        (s2 * s2) * vi - 7 * (s2 * s2) < s2 * ei <= (s2 * s2) * vi + 6 * (s2 * s2),
    ensures
        -7 <= ri - vi <= 7,
{
    lemma_mul_inequality(s2 * ri, ei, s2);
    lemma_mul_inequality(ei, s2 * (ri + 1), s2);
    lemma_mul_is_commutative(s2 * ri, s2);
    lemma_mul_is_commutative(ei, s2);
    lemma_mul_is_commutative(s2 * (ri + 1), s2);
    lemma_mul_is_associative(s2, ri, s2);
    lemma_mul_is_commutative(ri, s2);
    lemma_mul_is_associative(s2, s2, ri);
    lemma_mul_is_associative(s2, ri + 1, s2);
    lemma_mul_is_commutative(ri + 1, s2);
    lemma_mul_is_associative(s2, s2, ri + 1);
    lemma_mul_is_distributive_sub(s2 * s2, vi, 7);
    lemma_mul_is_distributive_add(s2 * s2, vi, 6);
    lemma_mul_is_distributive_add(s2 * s2, ri, 1);
    lemma_mul_is_commutative(s2 * s2, 7);
    lemma_mul_is_commutative(s2 * s2, 6);
    assert((s2 * s2) * ri <= (s2 * s2) * vi + 6 * (s2 * s2));
    assert((s2 * s2) * (ri + 1) > (s2 * s2) * vi - 7 * (s2 * s2));
    assert(s2 * s2 >= 1) by (nonlinear_arith)
        requires
            s2 >= 1,
    ;
    lemma_mul_is_commutative(s2 * s2, ri);
    lemma_mul_is_commutative(s2 * s2, vi + 6);
    lemma_mul_inequality_converse(ri, vi + 6, s2 * s2);
    lemma_mul_is_commutative(s2 * s2, vi - 7);
    lemma_mul_is_commutative(s2 * s2, ri + 1);
    lemma_mul_strict_inequality_converse(vi - 7, ri + 1, s2 * s2);
}

/// Reflect `v` about `n`.
pub fn reflect(v: &Vec3, n: &Vec3) -> (r: Vec3)
    requires
        bounded(v@, 0x2000),
        bounded(n@, 0x2000),
    ensures
        r@ == reflect_spec(v@, n@),
        bounded(r@, 0x40000),
{
    proof {
        lemma_abs_mul_bound(v@.x, n@.x, 0x2000, 0x2000);
        lemma_abs_mul_bound(v@.y, n@.y, 0x2000, 0x2000);
        lemma_abs_mul_bound(v@.z, n@.z, 0x2000, 0x2000);
        let d = dot_raw(v@, n@);
        lemma_abs_mul_bound(2 * d, n@.x, 0x18000000, 0x2000);
        lemma_abs_mul_bound(2 * d, n@.y, 0x18000000, 0x2000);
        lemma_abs_mul_bound(2 * d, n@.z, 0x18000000, 0x2000);
        lemma_abs_mul_bound(v@.x, SCALE * SCALE, 0x2000, 0x1000000);
        lemma_abs_mul_bound(v@.y, SCALE * SCALE, 0x2000, 0x1000000);
        lemma_abs_mul_bound(v@.z, SCALE * SCALE, 0x2000, 0x1000000);
        lemma_div_floor_mag((SCALE * SCALE) * v@.x - 2 * d * n@.x, SCALE * SCALE, 0x40000);
        lemma_div_floor_mag((SCALE * SCALE) * v@.y - 2 * d * n@.y, SCALE * SCALE, 0x40000);
        lemma_div_floor_mag((SCALE * SCALE) * v@.z - 2 * d * n@.z, SCALE * SCALE, 0x40000);
    }
    let d: i128 = (v.x as i128) * (n.x as i128) + (v.y as i128) * (n.y as i128) + (v.z as i128) * (
    n.z as i128);
    let s2: i128 = (SCALE as i128) * (SCALE as i128);
    let rx = floor_div(s2 * (v.x as i128) - 2 * d * (n.x as i128), s2);
    let ry = floor_div(s2 * (v.y as i128) - 2 * d * (n.y as i128), s2);
    let rz = floor_div(s2 * (v.z as i128) - 2 * d * (n.z as i128), s2);
    Vec3 { x: rx as i64, y: ry as i64, z: rz as i64 }
}

/// The tangential (surface-parallel) part of `w` with respect to `n`,
/// scaled by `n . n`.
pub open spec fn tangential(w: V3, n: V3) -> V3 {
    let d = dot_raw(w, n);
    let nn = dot_raw(n, n);
    V3 { x: nn * w.x - d * n.x, y: nn * w.y - d * n.y, z: nn * w.z - d * n.z }
}

/// Snell's law in vector form: however the normal component `s` of a
/// refracted direction is chosen, the direction
/// `eta * ((n . n) * uv - (uv . n) * n) - s * (n . n) * n` has a
/// tangential part equal to `eta * (n . n)` times the tangential part
/// of the incident direction — the sines of the two angles stand in the
/// ratio `eta`.
pub proof fn lemma_refract_tangential(uv: V3, n: V3, eta: int, s: int)
    ensures
        ({
            let d = dot_raw(uv, n);
            let nn = dot_raw(n, n);
            let w = V3 {
                x: eta * (nn * uv.x - d * n.x) - s * nn * n.x,
                y: eta * (nn * uv.y - d * n.y) - s * nn * n.y,
                z: eta * (nn * uv.z - d * n.z) - s * nn * n.z,
            };
            let tw = tangential(w, n);
            let tu = tangential(uv, n);
            tw.x == eta * nn * tu.x && tw.y == eta * nn * tu.y && tw.z == eta * nn * tu.z
        }),
{
    let d = dot_raw(uv, n);
    let nn = dot_raw(n, n);
    let w = V3 {
        x: eta * (nn * uv.x - d * n.x) - s * nn * n.x,
        y: eta * (nn * uv.y - d * n.y) - s * nn * n.y,
        z: eta * (nn * uv.z - d * n.z) - s * nn * n.z,
    };
    lemma_tang_dot(uv.x, uv.y, uv.z, n.x, n.y, n.z, eta, s);
    assert(dot_raw(w, n) == -(s * (nn * nn)));
    lemma_tang_comp(uv.x, n.x, d, nn, eta, s);
    lemma_tang_comp(uv.y, n.y, d, nn, eta, s);
    lemma_tang_comp(uv.z, n.z, d, nn, eta, s);
}

/// The refracted direction's dot product with the normal is the chosen
/// normal component, scaled by `(n . n)^2`.
proof fn lemma_tang_dot(
    ux: int,
    uy: int,
    uz: int,
    nx: int,
    ny: int,
    nz: int,
    eta: int,
    s: int,
)
    ensures
        ({
            let d = ux * nx + uy * ny + uz * nz;
            let nn = nx * nx + ny * ny + nz * nz;
            (eta * (nn * ux - d * nx) - s * nn * nx) * nx + (eta * (nn * uy - d * ny) - s * nn
                * ny) * ny + (eta * (nn * uz - d * nz) - s * nn * nz) * nz == -(s * (nn * nn))
        }),
{
    let d = ux * nx + uy * ny + uz * nz;
    let nn = nx * nx + ny * ny + nz * nz;
    lemma_mul_is_distributive_sub_other_way(nx, eta * (nn * ux - d * nx), s * nn * nx);
    lemma_mul_is_distributive_sub_other_way(ny, eta * (nn * uy - d * ny), s * nn * ny);
    lemma_mul_is_distributive_sub_other_way(nz, eta * (nn * uz - d * nz), s * nn * nz);
    lemma_mul_is_associative(eta, nn * ux - d * nx, nx);
    lemma_mul_is_associative(eta, nn * uy - d * ny, ny);
    lemma_mul_is_associative(eta, nn * uz - d * nz, nz);
    lemma_mul_is_distributive_sub_other_way(nx, nn * ux, d * nx);
    lemma_mul_is_distributive_sub_other_way(ny, nn * uy, d * ny);
    lemma_mul_is_distributive_sub_other_way(nz, nn * uz, d * nz);
    lemma_mul_is_associative(nn, ux, nx);
    lemma_mul_is_associative(nn, uy, ny);
    lemma_mul_is_associative(nn, uz, nz);
    lemma_mul_is_associative(d, nx, nx);
    lemma_mul_is_associative(d, ny, ny);
    lemma_mul_is_associative(d, nz, nz);
    lemma_mul_is_associative(s * nn, nx, nx);
    lemma_mul_is_associative(s * nn, ny, ny);
    lemma_mul_is_associative(s * nn, nz, nz);
    let yx = (nn * ux - d * nx) * nx;
    let yy = (nn * uy - d * ny) * ny;
    let yz = (nn * uz - d * nz) * nz;
    lemma_mul_is_distributive_add(eta, yx, yy);
    lemma_mul_is_distributive_add(eta, yx + yy, yz);
    lemma_mul_is_distributive_add(nn, ux * nx, uy * ny);
    lemma_mul_is_distributive_add(nn, ux * nx + uy * ny, uz * nz);
    lemma_mul_is_distributive_add(d, nx * nx, ny * ny);
    lemma_mul_is_distributive_add(d, nx * nx + ny * ny, nz * nz);
    lemma_mul_is_commutative(nn, d);
    assert(yx + yy + yz == 0);
    vstd::arithmetic::mul::lemma_mul_basics(eta);
    lemma_mul_is_distributive_add(s * nn, nx * nx, ny * ny);
    lemma_mul_is_distributive_add(s * nn, nx * nx + ny * ny, nz * nz);
    lemma_mul_is_associative(s, nn, nn);
}

/// One component of the tangential part of the refracted direction.
proof fn lemma_tang_comp(ui: int, ni: int, d: int, nn: int, eta: int, s: int)
    ensures
        nn * (eta * (nn * ui - d * ni) - s * nn * ni) - (-(s * (nn * nn))) * ni == eta * nn * (nn
            * ui - d * ni),
{
    lemma_mul_is_distributive_sub(nn, eta * (nn * ui - d * ni), s * nn * ni);
    lemma_mul_is_associative(nn, eta, nn * ui - d * ni);
    lemma_mul_is_commutative(nn, eta);
    lemma_mul_is_associative(nn, s * nn, ni);
    lemma_mul_is_associative(nn, s, nn);
    lemma_mul_is_commutative(nn, s);
    lemma_mul_is_associative(s, nn, nn);
    lemma_mul_unary_negation(s * (nn * nn), ni);
    lemma_mul_is_associative(s, nn, nn);
}

/// The refraction discriminant `1 - eta^2 * (1 - cos^2)`, in fixed
/// point, where `cos` is the fixed dot of the normalized incident
/// direction with the normal.
pub open spec fn refract_disc_spec(v: V3, n: V3, eta: int) -> int {
    let uv = unit_v(v);
    let dt = dot_fx(uv, n);
    let eta2 = div_floor(eta * eta, SCALE as int);
    let dt2 = div_floor(dt * dt, SCALE as int);
    let inner = SCALE - dt2;
    SCALE - div_floor(eta2 * inner, SCALE as int)
}

/// The refracted direction, when the discriminant is positive:
/// `eta * (uv - n * dt) - n * sqrt(disc)`, nothing on total internal
/// reflection.
pub open spec fn refract_spec(v: V3, n: V3, eta: int) -> Option<V3> {
    let uv = unit_v(v);
    let dt = dot_fx(uv, n);
    let disc = refract_disc_spec(v, n, eta);
    if disc > 0 {
        let sq = sqrt_of(disc * SCALE);
        Some(
            V3 {
                x: div_floor(eta * (uv.x - div_floor(n.x * dt, SCALE as int)), SCALE as int)
                    - div_floor(n.x * sq, SCALE as int),
                y: div_floor(eta * (uv.y - div_floor(n.y * dt, SCALE as int)), SCALE as int)
                    - div_floor(n.y * sq, SCALE as int),
                z: div_floor(eta * (uv.z - div_floor(n.z * dt, SCALE as int)), SCALE as int)
                    - div_floor(n.z * sq, SCALE as int),
            },
        )
    } else {
        None
    }
}

pub open spec fn opt_vec_view(o: Option<Vec3>) -> Option<V3> {
    match o {
        Some(v) => Some(v@),
        None => None,
    }
}

/// Refract `v` through the surface with outward normal `n` and index
/// ratio `eta`; nothing exactly when the discriminant is nonpositive
/// (total internal reflection).
pub fn refract(v: &Vec3, n: &Vec3, ni_over_nt: i64) -> (res: Option<Vec3>)
    requires
        bounded(v@, 0x1000000000),
        v@ != zero_v(),
        bounded(n@, 0x2000),
        0 <= ni_over_nt <= 4 * SCALE,
    ensures
        opt_vec_view(res) == refract_spec(v@, n@, ni_over_nt as int),
        res is None <==> refract_disc_spec(v@, n@, ni_over_nt as int) <= 0,
        res matches Some(r) ==> bounded(r@, 0x80000),
{
    let uv = Vec3::unit_vector(v);
    let dt = Vec3::dot(&uv, n);
    proof {
        lemma_abs_mul_bound(uv@.x, n@.x, SCALE as int, 0x2000);
        lemma_abs_mul_bound(uv@.y, n@.y, SCALE as int, 0x2000);
        lemma_abs_mul_bound(uv@.z, n@.z, SCALE as int, 0x2000);
        crate::fixed::lemma_div_floor_mag(dot_raw(uv@, n@), SCALE as int, 24576);
    }
    let eta2 = fmul(ni_over_nt, ni_over_nt);
    let dt2 = fmul(dt, dt);
    proof {
        lemma_abs_mul_bound(ni_over_nt as int, ni_over_nt as int, 16384, 16384);
        lemma_abs_mul_bound(dt as int, dt as int, 24576, 24576);
        lemma_div_floor_mag(ni_over_nt as int * ni_over_nt as int, SCALE as int, 65536);
        lemma_div_floor_mag(dt as int * dt as int, SCALE as int, 147456);
    }
    let inner = SCALE - dt2;
    let ei = fmul(eta2, inner);
    proof {
        lemma_abs_mul_bound(eta2 as int, inner as int, 65536, 151552);
        lemma_div_floor_mag(eta2 as int * inner as int, SCALE as int, 2424832);
    }
    let disc = SCALE - ei;
    if disc > 0 {
        proof {
            lemma_abs_mul_bound(disc as int, SCALE as int, 2428928, 4096);
        }
        let sq_raw = isqrt(((disc as i128) * (SCALE as i128)) as u128);
        proof {
            assert(0 <= sq_raw as int * (sq_raw as int) <= disc as int * SCALE);
            assert(9948889088 <= 102400 * 102400) by (nonlinear_arith);
            crate::fixed::lemma_sq_le(sq_raw as int, 102400);
        }
        let sq = sq_raw as i64;
        let mx = fmul(n.x, dt);
        let my = fmul(n.y, dt);
        let mz = fmul(n.z, dt);
        proof {
            lemma_abs_mul_bound(n@.x, dt as int, 0x2000, 24576);
            lemma_abs_mul_bound(n@.y, dt as int, 0x2000, 24576);
            lemma_abs_mul_bound(n@.z, dt as int, 0x2000, 24576);
            lemma_div_floor_mag(n@.x * dt, SCALE as int, 49152);
            lemma_div_floor_mag(n@.y * dt, SCALE as int, 49152);
            lemma_div_floor_mag(n@.z * dt, SCALE as int, 49152);
        }
        let gx = fmul(ni_over_nt, uv.x - mx);
        let gy = fmul(ni_over_nt, uv.y - my);
        let gz = fmul(ni_over_nt, uv.z - mz);
        proof {
            lemma_abs_mul_bound(ni_over_nt as int, uv@.x - mx, 16384, 53248);
            lemma_abs_mul_bound(ni_over_nt as int, uv@.y - my, 16384, 53248);
            lemma_abs_mul_bound(ni_over_nt as int, uv@.z - mz, 16384, 53248);
            lemma_div_floor_mag(ni_over_nt * (uv@.x - mx), SCALE as int, 212992);
            lemma_div_floor_mag(ni_over_nt * (uv@.y - my), SCALE as int, 212992);
            lemma_div_floor_mag(ni_over_nt * (uv@.z - mz), SCALE as int, 212992);
        }
        let hx = fmul(n.x, sq);
        let hy = fmul(n.y, sq);
        let hz = fmul(n.z, sq);
        proof {
            lemma_abs_mul_bound(n@.x, sq as int, 0x2000, 102400);
            lemma_abs_mul_bound(n@.y, sq as int, 0x2000, 102400);
            lemma_abs_mul_bound(n@.z, sq as int, 0x2000, 102400);
            lemma_div_floor_mag(n@.x * sq, SCALE as int, 204800);
            lemma_div_floor_mag(n@.y * sq, SCALE as int, 204800);
            lemma_div_floor_mag(n@.z * sq, SCALE as int, 204800);
        }
        Some(Vec3 { x: gx - hx, y: gy - hy, z: gz - hz })
    } else {
        None
    }
}

/// The Schlick reflectance approximation
/// `r0 + (1 - r0) * (1 - cos)^5` with `r0 = ((1 - n) / (1 + n))^2`.
pub open spec fn schlick_spec(cosine: int, ref_idx: int) -> int {
    let r0a = div_floor((SCALE - ref_idx) * SCALE, SCALE + ref_idx);
    let r0 = div_floor(r0a * r0a, SCALE as int);
    let x = SCALE - cosine;
    let x2 = div_floor(x * x, SCALE as int);
    let x4 = div_floor(x2 * x2, SCALE as int);
    let x5 = div_floor(x4 * x, SCALE as int);
    r0 + div_floor((SCALE - r0) * x5, SCALE as int)
}

/// The Schlick reflectance probability.
pub fn schlick(cosine: i64, ref_idx: i64) -> (r: i64)
    requires
        -0x10000 <= cosine <= 0x10000,
        SCALE / 4 <= ref_idx <= 4 * SCALE,
    ensures
        r == schlick_spec(cosine as int, ref_idx as int),
{
    let r0a = fdiv(SCALE - ref_idx, SCALE + ref_idx);
    proof {
        lemma_fdiv_small(ref_idx as int);
    }
    let r0 = fmul(r0a, r0a);
    proof {
        lemma_abs_mul_bound(r0a as int, r0a as int, 16384, 16384);
        lemma_div_floor_mag(r0a as int * r0a as int, SCALE as int, 65536);
    }
    let x = SCALE - cosine;
    let x2 = fmul(x, x);
    proof {
        lemma_abs_mul_bound(x as int, x as int, 69632, 69632);
        lemma_div_floor_mag(x as int * x as int, SCALE as int, 1183744);
    }
    let x4 = fmul(x2, x2);
    proof {
        lemma_abs_mul_bound(x2 as int, x2 as int, 1183744, 1183744);
        lemma_div_floor_mag(x2 as int * x2 as int, SCALE as int, 342102016);
    }
    let x5 = fmul(x4, x);
    proof {
        lemma_abs_mul_bound(x4 as int, x as int, 342102016, 69632);
        lemma_div_floor_mag(x4 as int * x as int, SCALE as int, 5815734272);
    }
    let y = fmul(SCALE - r0, x5);
    proof {
        lemma_abs_mul_bound(SCALE as int - r0 as int, x5 as int, 69632, 5815734272);
        lemma_div_floor_mag((SCALE as int - r0 as int) * x5 as int, SCALE as int, 98867482624);
    }
    r0 + y
}

/// `(1 - n) / (1 + n)` stays within one for the admitted index range.
proof fn lemma_fdiv_small(ref_idx: int)
    requires
        SCALE / 4 <= ref_idx <= 4 * SCALE,
    ensures
        -16384 <= div_floor((SCALE - ref_idx) * SCALE, SCALE + ref_idx) <= 16384,
{
    lemma_abs_mul_bound(SCALE - ref_idx, SCALE as int, 12288, SCALE as int);
    assert(16384 * (SCALE + ref_idx) >= 50331648) by (nonlinear_arith)
        requires
            ref_idx >= SCALE / 4,
            SCALE == 4096,
    ;
    lemma_div_floor_mag((SCALE - ref_idx) * SCALE, SCALE + ref_idx, 16384);
}

/// Clamp to a symmetric interval.
pub open spec fn iclamp(x: int, m: int) -> int {
    if x > m {
        m
    } else if x < -m {
        -m
    } else {
        x
    }
}

/// The mathematical value of a material.
pub ghost enum MaterialV {
    Lambertian { albedo: V3 },
    Metal { albedo: V3, fuzz: int },
    Dielectric { ref_idx: int },
}

/// A scattering material: diffuse, specular with roughness, or
/// refractive dielectric.
pub enum Material {
    Lambertian { albedo: Vec3 },
    Metal { albedo: Vec3, fuzz: i64 },
    Dielectric { ref_idx: i64 },
}

impl View for Material {
    type V = MaterialV;

    open spec fn view(&self) -> MaterialV {
        match *self {
            Material::Lambertian { albedo } => MaterialV::Lambertian { albedo: albedo@ },
            Material::Metal { albedo, fuzz } => MaterialV::Metal {
                albedo: albedo@,
                fuzz: fuzz as int,
            },
            Material::Dielectric { ref_idx } => MaterialV::Dielectric { ref_idx: ref_idx as int },
        }
    }
}

/// Parameter ranges the scattering model is specified for: albedo
/// channels in `[0, 1]`, fuzz in `[0, 1]`, refractive index in
/// `[1/4, 4]`.
pub open spec fn material_wf(m: MaterialV) -> bool {
    match m {
        MaterialV::Lambertian { albedo } => color_ok(albedo),
        MaterialV::Metal { albedo, fuzz } => color_ok(albedo) && 0 <= fuzz <= SCALE,
        MaterialV::Dielectric { ref_idx } => SCALE / 4 <= ref_idx <= 4 * SCALE,
    }
}

/// The hit records the scattering model accepts.
pub open spec fn hit_for_scatter(rec: HitV) -> bool {
    &&& bounded(rec.p, 0x100001C0)
    &&& bounded(rec.normal, 2 * SCALE)
}

/// A fixed-point color of full intensity on every channel.
pub open spec fn white_v() -> V3 {
    V3 { x: SCALE as int, y: SCALE as int, z: SCALE as int }
}

/// The scattering function: from a material, an incoming ray, a hit
/// record and a generator state to the attenuation and scattered ray
/// (or absorption), together with the state after all draws.
pub open spec fn scatter_spec(m: MaterialV, ray: RayV, rec: HitV, s: u64) -> (
    Option<(V3, RayV)>,
    u64,
) {
    match m {
        MaterialV::Lambertian { albedo } => {
            let (samp, s2) = crate::rng::sample_sphere_spec(s, SAMPLE_TRIES as nat);
            (Some((albedo, RayV { orig: rec.p, dir: add_v(rec.normal, samp) })), s2)
        },
        MaterialV::Metal { albedo, fuzz } => {
            if ray.dir == zero_v() {
                (None, s)
            } else {
                let (samp, s2) = crate::rng::sample_sphere_spec(s, SAMPLE_TRIES as nat);
                let refl = reflect_spec(unit_v(ray.dir), rec.normal);
                let dir = add_v(refl, smul_v(samp, fuzz));
                if dot_fx(dir, rec.normal) > 0 {
                    (Some((albedo, RayV { orig: rec.p, dir })), s2)
                } else {
                    (None, s2)
                }
            }
        },
        MaterialV::Dielectric { ref_idx } => {
            if ray.dir == zero_v() {
                (Some((white_v(), RayV { orig: rec.p, dir: ray.dir })), s)
            } else {
                let dn = dot_fx(ray.dir, rec.normal);
                let exiting = dn > 0;
                let outward = if exiting {
                    crate::vec3::neg_v(rec.normal)
                } else {
                    rec.normal
                };
                let eta = if exiting {
                    ref_idx
                } else {
                    div_floor(SCALE * SCALE, ref_idx)
                };
                let base = div_floor(dn * SCALE, len_fx(ray.dir));
                let cosine = iclamp(
                    if exiting {
                        div_floor(ref_idx * base, SCALE as int)
                    } else {
                        -base
                    },
                    0x10000,
                );
                let refl = RayV {
                    orig: rec.p,
                    dir: reflect_spec(unit_v(ray.dir), rec.normal),
                };
                match refract_spec(ray.dir, outward, eta) {
                    Some(rv) => {
                        let s2 = rng_next(s);
                        if unit_of(s2) > schlick_spec(cosine, ref_idx) {
                            (Some((white_v(), RayV { orig: rec.p, dir: rv })), s2)
                        } else {
                            (Some((white_v(), refl)), s2)
                        }
                    },
                    None => (Some((white_v(), refl)), s),
                }
            }
        },
    }
}

pub open spec fn scatter_view(o: Option<(Vec3, Ray)>) -> Option<(V3, RayV)> {
    match o {
        Some((a, r)) => Some((a@, r@)),
        None => None,
    }
}

impl Material {
    pub fn lambertian(albedo: Vec3) -> (m: Material)
        ensures
            m@ == (MaterialV::Lambertian { albedo: albedo@ }),
    {
        Material::Lambertian { albedo }
    }

    pub fn metal(albedo: Vec3, fuzz: i64) -> (m: Material)
        ensures
            m@ == (MaterialV::Metal { albedo: albedo@, fuzz: fuzz as int }),
    {
        Material::Metal { albedo, fuzz }
    }

    pub fn dielectric(ref_idx: i64) -> (m: Material)
        ensures
            m@ == (MaterialV::Dielectric { ref_idx: ref_idx as int }),
    {
        Material::Dielectric { ref_idx }
    }

    /// Scatter an incoming ray at a hit: the attenuation color and the
    /// new ray, or nothing when the ray is absorbed.  A diffuse
    /// material bounces toward the normal perturbed inside the unit
    /// ball; a metal reflects the normalized direction and perturbs it
    /// by its fuzz; a dielectric always scatters, choosing between the
    /// refracted direction (when one exists) and the reflection of the
    /// normalized direction by a draw against the Schlick reflectance.
    pub fn scatter(&self, ray: &Ray, rec: &HitRecord, rng: &mut Rng) -> (res: Option<(Vec3, Ray)>)
        requires
            material_wf(self@),
            hit_for_scatter(rec@),
            bounded(ray@.dir, 0x40000000),
        ensures
            (scatter_view(res), final(rng)@) == scatter_spec(self@, ray@, rec@, old(rng)@),
            res matches Some(p) ==> bounded(p.1@.orig, 0x100001C0) && bounded(
                p.1@.dir,
                0x80000,
            ) && color_ok(p.0@),
    {
        match self {
            Material::Lambertian { albedo } => {
                let samp = random_in_unit_sphere(rng);
                let dir = rec.normal.add(&samp);
                Some((*albedo, Ray::new(rec.p, dir)))
            },
            Material::Metal { albedo, fuzz } => {
                let d = ray.direction();
                if d.x == 0 && d.y == 0 && d.z == 0 {
                    None
                } else {
                    let samp = random_in_unit_sphere(rng);
                    let u = Vec3::unit_vector(&d);
                    let refl = reflect(&u, &rec.normal);
                    proof {
                        crate::vec3::lemma_smul_bound(
                            samp@,
                            *fuzz as int,
                            SCALE as int,
                            SCALE as int,
                            SCALE as int,
                        );
                    }
                    let dir = refl.add(&samp.scale(*fuzz));
                    if Vec3::dot(&dir, &rec.normal) > 0 {
                        Some((*albedo, Ray::new(rec.p, dir)))
                    } else {
                        None
                    }
                }
            },
            Material::Dielectric { ref_idx } => {
                let d = ray.direction();
                if d.x == 0 && d.y == 0 && d.z == 0 {
                    Some((Vec3 { x: SCALE, y: SCALE, z: SCALE }, Ray::new(rec.p, d)))
                } else {
                    let dn = Vec3::dot(&d, &rec.normal);
                    let exiting = dn > 0;
                    let outward = if exiting {
                        rec.normal.neg()
                    } else {
                        rec.normal
                    };
                    proof {
                        crate::fixed::lemma_floor_div_bound(
                            SCALE * SCALE,
                            *ref_idx as int,
                        );
                        crate::fixed::lemma_div_floor_mag(
                            SCALE * SCALE,
                            *ref_idx as int,
                            16384,
                        );
                    }
                    let eta = if exiting {
                        *ref_idx
                    } else {
                        fdiv(SCALE, *ref_idx)
                    };
                    let len = d.length();
                    proof {
                        crate::vec3::lemma_nonzero_len(d@);
                        let n2 = crate::vec3::norm2_raw(d@);
                        lemma_abs_mul_bound(d@.x, d@.x, 0x40000000, 0x40000000);
                        lemma_abs_mul_bound(d@.y, d@.y, 0x40000000, 0x40000000);
                        lemma_abs_mul_bound(d@.z, d@.z, 0x40000000, 0x40000000);
                        assert(d@.x * d@.x + d@.y * d@.y + d@.z * d@.z >= d@.x * d@.x)
                            by (nonlinear_arith);
                        assert(d@.x * d@.x + d@.y * d@.y + d@.z * d@.z >= d@.y * d@.y)
                            by (nonlinear_arith);
                        assert(d@.x * d@.x + d@.y * d@.y + d@.z * d@.z >= d@.z * d@.z)
                            by (nonlinear_arith);
                        crate::vec3::lemma_component_le_sqrt(d@.x, n2);
                        crate::vec3::lemma_component_le_sqrt(d@.y, n2);
                        crate::vec3::lemma_component_le_sqrt(d@.z, n2);
                        lemma_abs_mul_bound(d@.x, rec@.normal.x, len as int, 3 * SCALE);
                        lemma_abs_mul_bound(d@.y, rec@.normal.y, len as int, 3 * SCALE);
                        lemma_abs_mul_bound(d@.z, rec@.normal.z, len as int, 3 * SCALE);
                        crate::fixed::lemma_div_floor_mag(
                            dot_raw(d@, rec@.normal),
                            SCALE as int,
                            9 * (len as int),
                        );
                        crate::fixed::lemma_div_floor_mag(
                            dn * SCALE,
                            len as int,
                            36864,
                        );
                    }
                    let base = fdiv(dn, len);
                    proof {
                        lemma_abs_mul_bound(*ref_idx as int, base as int, 16384, 36864);
                        crate::fixed::lemma_div_floor_mag(
                            *ref_idx as int * base,
                            SCALE as int,
                            147456,
                        );
                    }
                    let cos0 = if exiting {
                        fmul(*ref_idx, base)
                    } else {
                        -base
                    };
                    let cosine = if cos0 > 0x10000 {
                        0x10000
                    } else if cos0 < -0x10000 {
                        -0x10000
                    } else {
                        cos0
                    };
                    let white = Vec3 { x: SCALE, y: SCALE, z: SCALE };
                    let u = Vec3::unit_vector(&d);
                    let refl_dir = reflect(&u, &rec.normal);
                    match refract(&d, &outward, eta) {
                        Some(rv) => {
                            let draw = rng.next_unit();
                            let sch = schlick(cosine, *ref_idx);
                            if draw > sch {
                                Some((white, Ray::new(rec.p, rv)))
                            } else {
                                Some((white, Ray::new(rec.p, refl_dir)))
                            }
                        },
                        None => Some((white, Ray::new(rec.p, refl_dir))),
                    }
                }
            },
        }
    }
}

} // verus!
