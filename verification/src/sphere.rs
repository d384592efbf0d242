//! Spheres and the ray-sphere intersection test.
//!
//! The test solves the quadratic `|oc + t * d|^2 = r^2` exactly over the
//! raw integer scale, takes the integer square root of the discriminant,
//! and returns the smaller root when it lies strictly inside the query
//! interval, else the larger root when it does, else nothing.
//! `lemma_root_near_surface` bounds how far the point at a floored root
//! can drift from the sphere surface, which lets the tree traversal
//! prune by (slightly inflated) bounding boxes without losing a hit.

use crate::fixed::{
    div_floor, floor_div, iabs, isqrt, lemma_abs_mul_bound, lemma_div_floor_mag_signed,
    lemma_floor_div_brackets, lemma_sq_le, lemma_sqrt_exists, lemma_sqrt_unique, sqrt_of, SCALE,
};
use crate::ray::{point_at, Ray, RayV};
use crate::vec3::{bounded, dot_raw, sub_v, Vec3, V3};
use vstd::arithmetic::mul::{
    lemma_mul_basics, lemma_mul_cancels_negatives, lemma_mul_inequality,
    lemma_mul_inequality_converse, lemma_mul_is_associative, lemma_mul_is_commutative,
    lemma_mul_is_distributive_add, lemma_mul_is_distributive_add_other_way,
    lemma_mul_is_distributive_sub, lemma_mul_is_distributive_sub_other_way,
    lemma_mul_nonnegative, lemma_mul_unary_negation,
};
use vstd::prelude::*;

verus! {

/// Bound on scene coordinates and radii (raw scale).
pub const C_BOUND: i64 = 0x8000000;

/// Bound on ray origin components (raw scale).
pub const RAY_BOUND: i64 = 0x20000000;

/// Bound on ray direction components (raw scale): directions up to 256
/// world units long per axis, which every camera and scattered ray
/// respects.  Keeping directions short keeps the parameter grid fine,
/// so a floored root can drift only `ROOT_SLACK` from the surface.
pub const DIR_BOUND: i64 = 0x100000;

/// Smallest admitted radius magnitude (raw scale): one sixteenth of a
/// world unit.  Together with `ROOT_SLACK` it keeps computed surface
/// normals within twice unit length.
pub const R_MIN: i64 = 0x200;

/// Bound on query interval endpoints.
pub const T_BOUND: i64 = 0x100000000;

/// How far (in raw `SCALE * SCALE` offset units) the point at an
/// accepted root can lie from the exact sphere surface: the square
/// root of `3 * DIR_BOUND^2`, rounded up.  Proven in
/// `lemma_root_near_surface`.
pub const ROOT_SLACK: i64 = 1816187;

pub ghost struct SphereV {
    pub center: V3,
    pub radius: int,
    pub material: int,
}

pub ghost struct HitV {
    pub t: int,
    pub p: V3,
    pub normal: V3,
    pub material: int,
}

/// Scene geometry the intersection test is specified for.
pub open spec fn sphere_wf(s: SphereV) -> bool {
    &&& bounded(s.center, C_BOUND as int)
    &&& R_MIN <= iabs(s.radius)
    &&& -C_BOUND <= s.radius <= C_BOUND
}

/// Rays the intersection test is specified for.
pub open spec fn ray_wf(r: RayV) -> bool {
    &&& bounded(r.orig, RAY_BOUND as int)
    &&& bounded(r.dir, DIR_BOUND as int)
}

/// Origin-to-center offset.
pub open spec fn oc_v(r: RayV, s: SphereV) -> V3 {
    sub_v(r.orig, s.center)
}

/// Quadratic coefficient `a = d . d` (raw scale squared).
pub open spec fn quad_a(r: RayV) -> int {
    dot_raw(r.dir, r.dir)
}

/// Quadratic coefficient `b = oc . d`.
pub open spec fn quad_b(r: RayV, s: SphereV) -> int {
    dot_raw(oc_v(r, s), r.dir)
}

/// Quadratic coefficient `c = oc . oc - r^2`.
pub open spec fn quad_c(r: RayV, s: SphereV) -> int {
    dot_raw(oc_v(r, s), oc_v(r, s)) - s.radius * s.radius
}

/// The discriminant `b^2 - a * c`, computed exactly.
pub open spec fn disc_of(r: RayV, s: SphereV) -> int {
    quad_b(r, s) * quad_b(r, s) - quad_a(r) * quad_c(r, s)
}

/// The smaller fixed-point root `floor((-b - sqrt(disc)) * SCALE / a)`.
pub open spec fn root_minus(r: RayV, s: SphereV) -> int {
    div_floor((-quad_b(r, s) - sqrt_of(disc_of(r, s))) * SCALE, quad_a(r))
}

/// The larger fixed-point root `floor((-b + sqrt(disc)) * SCALE / a)`.
pub open spec fn root_plus(r: RayV, s: SphereV) -> int {
    div_floor((-quad_b(r, s) + sqrt_of(disc_of(r, s))) * SCALE, quad_a(r))
}

/// Offset of the ray point at parameter `t` from the center, at raw
/// scale `SCALE * SCALE`, before the floor of point evaluation.
pub open spec fn radial_offset(r: RayV, s: SphereV, t: int) -> V3 {
    V3 {
        x: SCALE * (r.orig.x - s.center.x) + t * r.dir.x,
        y: SCALE * (r.orig.y - s.center.y) + t * r.dir.y,
        z: SCALE * (r.orig.z - s.center.z) + t * r.dir.z,
    }
}

/// The point at `t` lies within `ROOT_SLACK` offset units of the
/// sphere surface, on every axis.
pub open spec fn near_surface(r: RayV, s: SphereV, t: int) -> bool {
    let q = radial_offset(r, s, t);
    let m = SCALE * iabs(s.radius) + ROOT_SLACK;
    &&& -m <= q.x <= m
    &&& -m <= q.y <= m
    &&& -m <= q.z <= m
}

/// The parameter the test returns: the smaller root if it lies
/// strictly inside the interval, else the larger root if it does, else
/// nothing.  A nonpositive discriminant (no real intersection) never
/// produces a parameter.
pub open spec fn hit_t_spec(r: RayV, s: SphereV, t1: int, t2: int) -> Option<int> {
    if quad_a(r) <= 0 {
        None
    } else if disc_of(r, s) <= 0 {
        None
    } else if t1 < root_minus(r, s) < t2 {
        Some(root_minus(r, s))
    } else if t1 < root_plus(r, s) < t2 {
        Some(root_plus(r, s))
    } else {
        None
    }
}

/// Outward normal `(p - center) / radius`; a negative radius flips it.
pub open spec fn normal_v(s: SphereV, p: V3) -> V3 {
    V3 {
        x: div_floor((p.x - s.center.x) * SCALE, s.radius),
        y: div_floor((p.y - s.center.y) * SCALE, s.radius),
        z: div_floor((p.z - s.center.z) * SCALE, s.radius),
    }
}

/// The full intersection record at parameter `t`.
pub open spec fn hit_rec_spec(r: RayV, s: SphereV, t: int) -> HitV {
    let p = point_at(r, t);
    HitV { t, p, normal: normal_v(s, p), material: s.material }
}

/// What the intersection test returns.
pub open spec fn sphere_hit_spec(r: RayV, s: SphereV, t1: int, t2: int) -> Option<HitV> {
    match hit_t_spec(r, s, t1, t2) {
        Some(t) => Some(hit_rec_spec(r, s, t)),
        None => None,
    }
}

/// Rearranging a product of four factors.
proof fn lemma_mul_swap(p: int, q: int, r: int, s: int)
    ensures
        (p * q) * (r * s) == (p * r) * (q * s),
{
    lemma_mul_is_associative(p, q, r * s);
    lemma_mul_is_associative(q, r, s);
    lemma_mul_is_commutative(q, r);
    lemma_mul_is_associative(r, q, s);
    lemma_mul_is_associative(p, r, q * s);
}

/// The square of a sum.
proof fn lemma_add_sq(p: int, q: int)
    ensures
        (p + q) * (p + q) == p * p + 2 * (p * q) + q * q,
{
    lemma_mul_is_distributive_add_other_way(p + q, p, q);
    lemma_mul_is_distributive_add(p, p, q);
    lemma_mul_is_distributive_add(q, p, q);
    lemma_mul_is_commutative(q, p);
}

/// The square of a difference.
proof fn lemma_sub_sq(p: int, q: int)
    ensures
        (p - q) * (p - q) == p * p - 2 * (p * q) + q * q,
{
    lemma_mul_is_distributive_sub_other_way(p - q, p, q);
    lemma_mul_is_distributive_sub(p, p, q);
    lemma_mul_is_distributive_sub(q, p, q);
    lemma_mul_is_commutative(q, p);
}

/// The product of two sums of three terms.
proof fn lemma_trinomial_mul(x1: int, x2: int, x3: int, y1: int, y2: int, y3: int)
    ensures
        (x1 + x2 + x3) * (y1 + y2 + y3) == x1 * y1 + x1 * y2 + x1 * y3 + x2 * y1 + x2 * y2 + x2
            * y3 + x3 * y1 + x3 * y2 + x3 * y3,
{
    lemma_mul_is_distributive_add_other_way(y1 + y2 + y3, x1 + x2, x3);
    lemma_mul_is_distributive_add_other_way(y1 + y2 + y3, x1, x2);
    lemma_mul_is_distributive_add(x1, y1 + y2, y3);
    lemma_mul_is_distributive_add(x1, y1, y2);
    lemma_mul_is_distributive_add(x2, y1 + y2, y3);
    lemma_mul_is_distributive_add(x2, y1, y2);
    lemma_mul_is_distributive_add(x3, y1 + y2, y3);
    lemma_mul_is_distributive_add(x3, y1, y2);
}

/// The Cauchy-Schwarz inequality for integer triples, by Lagrange's
/// identity: the gap is a sum of three squares.
proof fn lemma_cauchy_schwarz(ax: int, ay: int, az: int, bx: int, by: int, bz: int)
    ensures
        (ax * bx + ay * by + az * bz) * (ax * bx + ay * by + az * bz) <= (ax * ax + ay * ay + az
            * az) * (bx * bx + by * by + bz * bz),
{
    lemma_trinomial_mul(ax * ax, ay * ay, az * az, bx * bx, by * by, bz * bz);
    lemma_trinomial_mul(ax * bx, ay * by, az * bz, ax * bx, ay * by, az * bz);
    lemma_mul_swap(ax, bx, ax, bx);
    lemma_mul_swap(ax, bx, ay, by);
    lemma_mul_swap(ax, bx, az, bz);
    lemma_mul_swap(ay, by, ax, bx);
    lemma_mul_swap(ay, by, ay, by);
    lemma_mul_swap(ay, by, az, bz);
    lemma_mul_swap(az, bz, ax, bx);
    lemma_mul_swap(az, bz, ay, by);
    lemma_mul_swap(az, bz, az, bz);
    lemma_mul_is_commutative(ax, ay);
    lemma_mul_is_commutative(ax, az);
    lemma_mul_is_commutative(ay, az);
    lemma_mul_is_commutative(bx, by);
    lemma_mul_is_commutative(bx, bz);
    lemma_mul_is_commutative(by, bz);
    let g1 = ax * by - ay * bx;
    let g2 = ay * bz - az * by;
    let g3 = az * bx - ax * bz;
    lemma_sub_sq(ax * by, ay * bx);
    lemma_sub_sq(ay * bz, az * by);
    lemma_sub_sq(az * bx, ax * bz);
    lemma_mul_swap(ax, by, ax, by);
    lemma_mul_swap(ax, by, ay, bx);
    lemma_mul_swap(ay, bx, ay, bx);
    lemma_mul_swap(ay, bz, ay, bz);
    lemma_mul_swap(ay, bz, az, by);
    lemma_mul_swap(az, by, az, by);
    lemma_mul_swap(az, bx, az, bx);
    lemma_mul_swap(az, bx, ax, bz);
    lemma_mul_swap(ax, bz, ax, bz);
    assert(g1 * g1 >= 0) by (nonlinear_arith);
    assert(g2 * g2 >= 0) by (nonlinear_arith);
    assert(g3 * g3 >= 0) by (nonlinear_arith);
    assert((ax * ax + ay * ay + az * az) * (bx * bx + by * by + bz * bz) - (ax * bx + ay * by
        + az * bz) * (ax * bx + ay * by + az * bz) == g1 * g1 + g2 * g2 + g3 * g3);
}

/// The point at an accepted root stays close to the sphere surface:
/// with directions bounded by `DIR_BOUND`, each axis of the radial
/// offset is within `ROOT_SLACK` of the exact radius.  The slack
/// accounts for the flooring of the square root and of the root
/// quotient: one parameter step moves the point by at most the
/// direction's length.
pub proof fn lemma_root_near_surface(r: RayV, s: SphereV, t: int)
    requires
        sphere_wf(s),
        bounded(r.dir, DIR_BOUND as int),
        quad_a(r) >= 1,
        disc_of(r, s) > 0,
        t == root_minus(r, s) || t == root_plus(r, s),
    ensures
        near_surface(r, s, t),
{
    let sc = SCALE as int;
    let ox = r.orig.x - s.center.x;
    let oy = r.orig.y - s.center.y;
    let oz = r.orig.z - s.center.z;
    let dx = r.dir.x;
    let dy = r.dir.y;
    let dz = r.dir.z;
    let aq = quad_a(r);
    let bq = quad_b(r, s);
    let doto = ox * ox + oy * oy + oz * oz;
    let dd = disc_of(r, s);
    let rr = iabs(s.radius);
    // |radius|^2 equals radius^2
    lemma_mul_cancels_negatives(s.radius, s.radius);
    assert(rr * rr == s.radius * s.radius);
    // Expand the squared norm of the radial offset:
    // F == SCALE^2 * |oc|^2 + 2 * SCALE * t * (oc . d) + t^2 * |d|^2.
    let q = radial_offset(r, s, t);
    let ff = q.x * q.x + q.y * q.y + q.z * q.z;
    lemma_add_sq(sc * ox, t * dx);
    lemma_add_sq(sc * oy, t * dy);
    lemma_add_sq(sc * oz, t * dz);
    lemma_mul_swap(sc, ox, sc, ox);
    lemma_mul_swap(sc, oy, sc, oy);
    lemma_mul_swap(sc, oz, sc, oz);
    lemma_mul_swap(sc, ox, t, dx);
    lemma_mul_swap(sc, oy, t, dy);
    lemma_mul_swap(sc, oz, t, dz);
    lemma_mul_swap(t, dx, t, dx);
    lemma_mul_swap(t, dy, t, dy);
    lemma_mul_swap(t, dz, t, dz);
    lemma_mul_is_distributive_add(sc * sc, ox * ox, oy * oy);
    lemma_mul_is_distributive_add(sc * sc, ox * ox + oy * oy, oz * oz);
    lemma_mul_is_distributive_add(sc * t, ox * dx, oy * dy);
    lemma_mul_is_distributive_add(sc * t, ox * dx + oy * dy, oz * dz);
    lemma_mul_is_distributive_add(t * t, dx * dx, dy * dy);
    lemma_mul_is_distributive_add(t * t, dx * dx + dy * dy, dz * dz);
    assert(ff == (sc * sc) * doto + 2 * ((sc * t) * bq) + (t * t) * aq);
    // Complete the square: aq * F == u^2 + SCALE^2 * (aq * |oc|^2 - bq^2)
    // for u = aq * t + bq * SCALE.
    let u = aq * t + bq * sc;
    lemma_add_sq(aq * t, bq * sc);
    lemma_mul_swap(aq, t, aq, t);
    lemma_mul_swap(aq, t, bq, sc);
    lemma_mul_swap(bq, sc, bq, sc);
    lemma_mul_is_distributive_add(
        aq,
        (sc * sc) * doto + 2 * ((sc * t) * bq),
        (t * t) * aq,
    );
    lemma_mul_is_distributive_add(aq, (sc * sc) * doto, 2 * ((sc * t) * bq));
    lemma_mul_is_associative(aq, sc * sc, doto);
    lemma_mul_is_commutative(aq, sc * sc);
    lemma_mul_is_associative(sc * sc, aq, doto);
    lemma_mul_is_associative(aq, 2, (sc * t) * bq);
    lemma_mul_is_associative(2, aq, (sc * t) * bq);
    lemma_mul_is_associative(aq, sc * t, bq);
    lemma_mul_is_commutative(aq, sc * t);
    lemma_mul_is_associative(sc * t, aq, bq);
    lemma_mul_is_commutative(aq, bq);
    lemma_mul_swap(aq, bq, t, sc);
    lemma_mul_is_commutative(t, sc);
    lemma_mul_is_commutative(t * t, aq);
    lemma_mul_is_associative(aq, aq, t * t);
    assert(aq * ((t * t) * aq) == (aq * aq) * (t * t)) by {
        lemma_mul_is_commutative(t * t, aq);
        lemma_mul_is_associative(aq, aq, t * t);
    }
    assert((aq * t) * (bq * sc) == (aq * bq) * (t * sc));
    assert(aq * (2 * ((sc * t) * bq)) == 2 * ((aq * bq) * (t * sc))) by {
        lemma_mul_is_associative(aq, 2, (sc * t) * bq);
        lemma_mul_is_commutative(aq, 2);
        lemma_mul_is_associative(2, aq, (sc * t) * bq);
        lemma_mul_is_associative(aq, sc * t, bq);
        lemma_mul_is_commutative(aq, sc * t);
        lemma_mul_is_associative(sc * t, aq, bq);
        lemma_mul_is_commutative(sc * t, aq * bq);
        lemma_mul_is_associative(aq * bq, sc, t);
        lemma_mul_is_commutative(sc, t);
        lemma_mul_is_associative(aq * bq, t, sc);
    }
    lemma_mul_is_commutative(bq * bq, sc * sc);
    lemma_mul_is_distributive_sub(sc * sc, aq * doto, bq * bq);
    assert(aq * ff - u * u == (sc * sc) * (aq * doto - bq * bq));
    // Cauchy-Schwarz gives bq^2 <= aq * |oc|^2, and the discriminant
    // identity turns the gap into aq * radius^2 - disc.
    lemma_cauchy_schwarz(ox, oy, oz, dx, dy, dz);
    lemma_mul_is_commutative(doto, aq);
    assert(bq * bq <= aq * doto);
    lemma_mul_is_distributive_sub(aq, doto, s.radius * s.radius);
    assert(aq * doto - bq * bq == aq * (rr * rr) - dd);
    assert(dd <= aq * (rr * rr));
    // Square roots of the discriminant and of aq.
    lemma_sqrt_exists(dd as nat);
    let w0 = choose|w0: int| 0 <= w0 && #[trigger] (w0 * w0) <= dd < (w0 + 1) * (w0 + 1);
    lemma_sqrt_unique(dd, w0);
    let s0 = sqrt_of(dd);
    lemma_sqrt_exists(aq as nat);
    let w1 = choose|w1: int| 0 <= w1 && #[trigger] (w1 * w1) <= aq < (w1 + 1) * (w1 + 1);
    lemma_sqrt_unique(aq, w1);
    let ka = sqrt_of(aq);
    let kk = ka + 1;
    // The root quotient brackets u between -(s0 * SCALE) - aq and s0 * SCALE.
    lemma_mul_nonnegative(s0, sc);
    if t == root_minus(r, s) {
        lemma_floor_div_brackets((-bq - s0) * sc, aq);
        lemma_mul_is_distributive_sub_other_way(sc, -bq, s0);
        lemma_mul_unary_negation(bq, sc);
        lemma_mul_is_distributive_add(aq, t, 1);
        lemma_mul_basics(aq);
        assert(-(s0 * sc) - aq < u <= -(s0 * sc));
    } else {
        lemma_floor_div_brackets((-bq + s0) * sc, aq);
        lemma_mul_is_distributive_add_other_way(sc, -bq, s0);
        lemma_mul_unary_negation(bq, sc);
        lemma_mul_is_distributive_add(aq, t, 1);
        lemma_mul_basics(aq);
        assert(s0 * sc - aq < u <= s0 * sc);
    }
    assert(-(s0 * sc + aq) <= u <= s0 * sc + aq);
    lemma_abs_mul_bound(u, u, s0 * sc + aq, s0 * sc + aq);
    lemma_add_sq(s0 * sc, aq);
    lemma_mul_swap(s0, sc, s0, sc);
    // s0 <= kk * rr, because otherwise s0^2 would exceed aq * rr^2 >= disc.
    lemma_mul_nonnegative(kk, rr);
    if s0 > kk * rr {
        lemma_mul_inequality(kk * rr + 1, s0, s0);
        lemma_mul_inequality(kk * rr + 1, s0, kk * rr + 1);
        lemma_mul_is_commutative(kk * rr + 1, s0);
        lemma_add_sq(kk * rr, 1);
        lemma_mul_swap(kk, rr, kk, rr);
        lemma_mul_basics(kk * rr);
        lemma_mul_nonnegative(kk * rr, 1);
        assert((kk * rr) * (kk * rr) >= 0) by (nonlinear_arith);
        assert(aq < kk * kk);
        lemma_mul_inequality(aq + 1, kk * kk, rr * rr);
        lemma_mul_is_distributive_add_other_way(rr * rr, aq, 1);
        lemma_mul_basics(rr * rr);
        assert(rr * rr >= 1) by (nonlinear_arith)
            requires
                rr >= 1,
        ;
        lemma_mul_is_commutative(aq, rr * rr);
        assert(s0 * s0 > aq * (rr * rr));
        assert(false);
    }
    // Assemble: aq * F <= aq * (SCALE * rr + kk)^2, then cancel aq.
    lemma_mul_inequality(s0 * s0, dd, sc * sc);
    lemma_mul_is_commutative(dd, sc * sc);
    lemma_mul_is_distributive_sub(sc * sc, aq * (rr * rr), dd);
    let m0 = sc * rr + kk;
    lemma_add_sq(sc * rr, kk);
    lemma_mul_swap(sc, rr, sc, rr);
    lemma_mul_is_distributive_add(aq, (sc * sc) * (rr * rr) + 2 * ((sc * rr) * kk), kk * kk);
    lemma_mul_is_distributive_add(aq, (sc * sc) * (rr * rr), 2 * ((sc * rr) * kk));
    assert(aq * ((sc * sc) * (rr * rr)) == (sc * sc) * (aq * (rr * rr))) by {
        lemma_mul_is_associative(aq, sc * sc, rr * rr);
        lemma_mul_is_commutative(aq, sc * sc);
        lemma_mul_is_associative(sc * sc, aq, rr * rr);
    }
    // middle term: 2 * ((s0 * sc) * aq) <= aq * (2 * ((sc * rr) * kk))
    lemma_mul_inequality(s0, kk * rr, sc);
    lemma_mul_is_associative(kk, rr, sc);
    lemma_mul_is_commutative(rr, sc);
    lemma_mul_is_associative(kk, sc, rr);
    lemma_mul_is_commutative(kk, sc * rr);
    assert((kk * rr) * sc == (sc * rr) * kk) by {
        lemma_mul_is_associative(kk, rr, sc);
        lemma_mul_is_commutative(rr, sc);
        lemma_mul_is_associative(kk, sc, rr);
        lemma_mul_is_commutative(kk, sc * rr);
        lemma_mul_is_associative(sc * rr, kk, 1);
        lemma_mul_basics(sc * rr);
        lemma_mul_basics(kk);
        lemma_mul_is_commutative(sc * rr, kk);
    }
    lemma_mul_inequality(s0 * sc, (sc * rr) * kk, aq);
    assert(aq * (2 * ((sc * rr) * kk)) == 2 * (((sc * rr) * kk) * aq)) by {
        lemma_mul_is_associative(aq, 2, (sc * rr) * kk);
        lemma_mul_is_commutative(aq, 2);
        lemma_mul_is_associative(2, aq, (sc * rr) * kk);
        lemma_mul_is_commutative(aq, (sc * rr) * kk);
    }
    // last term: aq * aq <= aq * (kk * kk)
    lemma_mul_inequality(aq, kk * kk, aq);
    lemma_mul_is_commutative(aq, kk * kk);
    assert(aq * ff <= aq * (m0 * m0));
    lemma_mul_is_commutative(aq, ff);
    lemma_mul_is_commutative(aq, m0 * m0);
    lemma_mul_inequality_converse(ff, m0 * m0, aq);
    // Per-axis bound, and the slack constant covers kk.
    lemma_abs_mul_bound(dx, dx, DIR_BOUND as int, DIR_BOUND as int);
    lemma_abs_mul_bound(dy, dy, DIR_BOUND as int, DIR_BOUND as int);
    lemma_abs_mul_bound(dz, dz, DIR_BOUND as int, DIR_BOUND as int);
    assert(aq <= 3298534883328);
    if ka >= 1816187 {
        lemma_mul_inequality(1816187, ka, ka);
        lemma_mul_inequality(1816187, ka, 1816187);
        lemma_mul_is_commutative(1816187, ka);
        assert(1816187 * 1816187 > 3298534883328) by (nonlinear_arith);
        assert(false);
    }
    assert(kk <= ROOT_SLACK);
    assert(q.x * q.x >= 0) by (nonlinear_arith);
    assert(q.y * q.y >= 0) by (nonlinear_arith);
    assert(q.z * q.z >= 0) by (nonlinear_arith);
    lemma_mul_nonnegative(sc, rr);
    lemma_sq_le(q.x, m0);
    lemma_sq_le(q.y, m0);
    lemma_sq_le(q.z, m0);
    assert(m0 <= sc * rr + ROOT_SLACK);
}

/// Result of an intersection: hit parameter, point, outward unit-ish
/// normal and the material index of the hit sphere.
pub struct HitRecord {
    pub t: i64,
    pub p: Vec3,
    pub normal: Vec3,
    pub material: usize,
}

impl View for HitRecord {
    type V = HitV;

    open spec fn view(&self) -> HitV {
        HitV { t: self.t as int, p: self.p@, normal: self.normal@, material: self.material as int }
    }
}

pub open spec fn opt_hit_view(o: Option<HitRecord>) -> Option<HitV> {
    match o {
        Some(h) => Some(h@),
        None => None,
    }
}

/// A sphere: center, signed radius (a negative radius flips the normal
/// inward, for hollow shells), and an index into the scene's materials.
pub struct Sphere {
    center: Vec3,
    radius: i64,
    material: usize,
}

impl View for Sphere {
    type V = SphereV;

    closed spec fn view(&self) -> SphereV {
        SphereV { center: self.center@, radius: self.radius as int, material: self.material as int }
    }
}

impl Sphere {
    pub fn new(center: Vec3, radius: i64, material: usize) -> (s: Sphere)
        ensures
            s@ == (SphereV { center: center@, radius: radius as int, material: material as int }),
    {
        Sphere { center, radius, material }
    }

    pub fn center(&self) -> (c: Vec3)
        ensures
            c@ == self@.center,
    {
        self.center
    }

    pub fn radius(&self) -> (r: i64)
        ensures
            r == self@.radius,
    {
        self.radius
    }

    pub fn material(&self) -> (m: usize)
        ensures
            m == self@.material,
    {
        self.material
    }

    /// Build the record for an accepted parameter.
    fn rec_at(&self, r: &Ray, t: i64) -> (h: HitRecord)
        requires
            sphere_wf(self@),
            ray_wf(r@),
            -T_BOUND <= t <= T_BOUND,
            near_surface(r@, self@, t as int),
        ensures
            h@ == hit_rec_spec(r@, self@, t as int),
            bounded(h@.p, C_BOUND as int + C_BOUND as int + 448),
            bounded(h@.normal, 2 * SCALE as int),
    {
        let p = r.point_at_parameter(t);
        proof {
            let rad = iabs(self@.radius);
            let q = radial_offset(r@, self@, t as int);
            vstd::arithmetic::mul::lemma_mul_is_commutative(t as int, r@.dir.x);
            vstd::arithmetic::mul::lemma_mul_is_commutative(t as int, r@.dir.y);
            vstd::arithmetic::mul::lemma_mul_is_commutative(t as int, r@.dir.z);
            lemma_floor_div_brackets(t * r@.dir.x, SCALE as int);
            lemma_floor_div_brackets(t * r@.dir.y, SCALE as int);
            lemma_floor_div_brackets(t * r@.dir.z, SCALE as int);
            let fx = div_floor(r@.dir.x * t, SCALE as int);
            let fy = div_floor(r@.dir.y * t, SCALE as int);
            let fz = div_floor(r@.dir.z * t, SCALE as int);
            assert(p@.x == r@.orig.x + fx && p@.y == r@.orig.y + fy && p@.z == r@.orig.z + fz);
            assert(SCALE * fx <= t * r@.dir.x < SCALE * (fx + 1));
            assert(SCALE * fy <= t * r@.dir.y < SCALE * (fy + 1));
            assert(SCALE * fz <= t * r@.dir.z < SCALE * (fz + 1));
            assert(q.x == SCALE * (r@.orig.x - self@.center.x) + t * r@.dir.x);
            assert(q.y == SCALE * (r@.orig.y - self@.center.y) + t * r@.dir.y);
            assert(q.z == SCALE * (r@.orig.z - self@.center.z) + t * r@.dir.z);
            assert(bounded(sub_v(p@, self@.center), rad + 444));
            lemma_abs_mul_bound(p@.x - self@.center.x, SCALE as int, rad + 444, 4096);
            lemma_abs_mul_bound(p@.y - self@.center.y, SCALE as int, rad + 444, 4096);
            lemma_abs_mul_bound(p@.z - self@.center.z, SCALE as int, rad + 444, 4096);
            lemma_div_floor_mag_signed(
                (p@.x - self@.center.x) * SCALE,
                self@.radius,
                2 * SCALE as int,
            );
            lemma_div_floor_mag_signed(
                (p@.y - self@.center.y) * SCALE,
                self@.radius,
                2 * SCALE as int,
            );
            lemma_div_floor_mag_signed(
                (p@.z - self@.center.z) * SCALE,
                self@.radius,
                2 * SCALE as int,
            );
        }
        let ndx: i128 = (p.x as i128 - self.center.x as i128) * (SCALE as i128);
        let ndy: i128 = (p.y as i128 - self.center.y as i128) * (SCALE as i128);
        let ndz: i128 = (p.z as i128 - self.center.z as i128) * (SCALE as i128);
        let (nx, ny, nz) = if self.radius > 0 {
            (
                floor_div(ndx, self.radius as i128),
                floor_div(ndy, self.radius as i128),
                floor_div(ndz, self.radius as i128),
            )
        } else {
            (
                floor_div(-ndx, -(self.radius as i128)),
                floor_div(-ndy, -(self.radius as i128)),
                floor_div(-ndz, -(self.radius as i128)),
            )
        };
        HitRecord {
            t,
            p,
            normal: Vec3 { x: nx as i64, y: ny as i64, z: nz as i64 },
            material: self.material,
        }
    }

    /// The intersection test: the smaller root when it lies strictly
    /// inside `(t_min, t_max)`, else the larger root when it does, else
    /// nothing; never a hit when the discriminant is nonpositive.
    pub fn hit(&self, r: &Ray, t_min: i64, t_max: i64) -> (res: Option<HitRecord>)
        requires
            sphere_wf(self@),
            ray_wf(r@),
            -T_BOUND <= t_min <= T_BOUND,
            -T_BOUND <= t_max <= T_BOUND,
        ensures
            opt_hit_view(res) == sphere_hit_spec(r@, self@, t_min as int, t_max as int),
            disc_of(r@, self@) <= 0 ==> res is None,
            res matches Some(h) ==> t_min < h.t < t_max,
            res matches Some(h) ==> bounded(h@.p, C_BOUND as int + C_BOUND as int + 448),
            res matches Some(h) ==> bounded(h@.normal, 2 * SCALE as int),
            res matches Some(h) ==> h@.material == self@.material,
    {
        let o = r.origin();
        let d = r.direction();
        let ocx: i128 = o.x as i128 - self.center.x as i128;
        let ocy: i128 = o.y as i128 - self.center.y as i128;
        let ocz: i128 = o.z as i128 - self.center.z as i128;
        let dx: i128 = d.x as i128;
        let dy: i128 = d.y as i128;
        let dz: i128 = d.z as i128;
        proof {
            lemma_abs_mul_bound(dx as int, dx as int, RAY_BOUND as int, RAY_BOUND as int);
            lemma_abs_mul_bound(dy as int, dy as int, RAY_BOUND as int, RAY_BOUND as int);
            lemma_abs_mul_bound(dz as int, dz as int, RAY_BOUND as int, RAY_BOUND as int);
            lemma_abs_mul_bound(ocx as int, dx as int, 0x28000000, RAY_BOUND as int);
            lemma_abs_mul_bound(ocy as int, dy as int, 0x28000000, RAY_BOUND as int);
            lemma_abs_mul_bound(ocz as int, dz as int, 0x28000000, RAY_BOUND as int);
            lemma_abs_mul_bound(ocx as int, ocx as int, 0x28000000, 0x28000000);
            lemma_abs_mul_bound(ocy as int, ocy as int, 0x28000000, 0x28000000);
            lemma_abs_mul_bound(ocz as int, ocz as int, 0x28000000, 0x28000000);
            lemma_abs_mul_bound(self@.radius, self@.radius, C_BOUND as int, C_BOUND as int);
            assert(dx as int * (dx as int) >= 0) by (nonlinear_arith);
            assert(dy as int * (dy as int) >= 0) by (nonlinear_arith);
            assert(dz as int * (dz as int) >= 0) by (nonlinear_arith);
        }
        let a: i128 = dx * dx + dy * dy + dz * dz;
        if a <= 0 {
            return None;
        }
        let b: i128 = ocx * dx + ocy * dy + ocz * dz;
        let c: i128 = ocx * ocx + ocy * ocy + ocz * ocz - (self.radius as i128) * (
        self.radius as i128);
        proof {
            lemma_abs_mul_bound(b as int, b as int, 0xF00000000000000, 0xF00000000000000);
            lemma_abs_mul_bound(a as int, c as int, 0xC00000000000000, 0x1300000000000000);
        }
        let disc: i128 = b * b - a * c;
        if disc <= 0 {
            return None;
        }
        let sq: i128 = isqrt(disc as u128) as i128;
        proof {
            assert(0 <= sq as int <= 0x4000000000000000) by (nonlinear_arith)
                requires
                    0 <= sq as int,
                    (sq as int) * (sq as int) <= disc as int,
                    (disc as int) < 0x2000000000000000000000000000000,
            ;
        }
        proof {
            lemma_abs_mul_bound(-(b as int) - (sq as int), SCALE as int, 0x5000000000000000, 4096);
            lemma_abs_mul_bound(-(b as int) + (sq as int), SCALE as int, 0x5000000000000000, 4096);
        }
        let tm = floor_div((-b - sq) * (SCALE as i128), a);
        if (t_min as i128) < tm && tm < (t_max as i128) {
            proof {
                lemma_root_near_surface(r@, self@, tm as int);
            }
            return Some(self.rec_at(r, tm as i64));
        }
        let tp = floor_div((-b + sq) * (SCALE as i128), a);
        if (t_min as i128) < tp && tp < (t_max as i128) {
            proof {
                lemma_root_near_surface(r@, self@, tp as int);
            }
            return Some(self.rec_at(r, tp as i64));
        }
        None
    }
}

} // verus!
