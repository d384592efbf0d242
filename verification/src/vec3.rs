//! Three-component vectors over fixed-point scalars, used for points,
//! directions and colors alike.

use crate::fixed::{
    div_floor, fmul, isqrt, lemma_abs_mul_bound, lemma_floor_div_brackets, lemma_sqrt_unique,
    sqrt_of, SCALE,
};
use vstd::prelude::*;

verus! {

/// The mathematical value of a vector: three unbounded integers, each
/// the corresponding fixed-point component.
pub ghost struct V3 {
    pub x: int,
    pub y: int,
    pub z: int,
}

/// All three components lie in `[-m, m]`.
pub open spec fn bounded(v: V3, m: int) -> bool {
    &&& -m <= v.x <= m
    &&& -m <= v.y <= m
    &&& -m <= v.z <= m
}

pub open spec fn zero_v() -> V3 {
    V3 { x: 0, y: 0, z: 0 }
}

pub open spec fn add_v(a: V3, b: V3) -> V3 {
    V3 { x: a.x + b.x, y: a.y + b.y, z: a.z + b.z }
}

pub open spec fn sub_v(a: V3, b: V3) -> V3 {
    V3 { x: a.x - b.x, y: a.y - b.y, z: a.z - b.z }
}

pub open spec fn neg_v(a: V3) -> V3 {
    V3 { x: -a.x, y: -a.y, z: -a.z }
}

/// Scale by a fixed-point factor `k`: each component becomes
/// `floor(c * k / SCALE)`.
pub open spec fn smul_v(a: V3, k: int) -> V3 {
    V3 {
        x: div_floor(a.x * k, SCALE as int),
        y: div_floor(a.y * k, SCALE as int),
        z: div_floor(a.z * k, SCALE as int),
    }
}

/// Componentwise fixed-point product (used for color attenuation).
pub open spec fn cmul_v(a: V3, b: V3) -> V3 {
    V3 {
        x: div_floor(a.x * b.x, SCALE as int),
        y: div_floor(a.y * b.y, SCALE as int),
        z: div_floor(a.z * b.z, SCALE as int),
    }
}

/// The raw dot product: scale `SCALE * SCALE`, computed exactly.
pub open spec fn dot_raw(a: V3, b: V3) -> int {
    a.x * b.x + a.y * b.y + a.z * b.z
}

/// The fixed-point dot product: `floor(dot_raw / SCALE)`.
pub open spec fn dot_fx(a: V3, b: V3) -> int {
    div_floor(dot_raw(a, b), SCALE as int)
}

/// Squared length at raw scale `SCALE * SCALE`; exact and nonnegative.
pub open spec fn norm2_raw(a: V3) -> int {
    dot_raw(a, a)
}

/// Fixed-point length: the integer square root of the raw squared
/// length, which lands back on scale `SCALE`.
pub open spec fn len_fx(a: V3) -> int {
    sqrt_of(norm2_raw(a))
}

/// The cross product, with each raw product brought back to scale.
pub open spec fn cross_v(a: V3, b: V3) -> V3 {
    V3 {
        x: div_floor(a.y * b.z - a.z * b.y, SCALE as int),
        y: div_floor(a.z * b.x - a.x * b.z, SCALE as int),
        z: div_floor(a.x * b.y - a.y * b.x, SCALE as int),
    }
}

/// The unit vector in the direction of `a`.
pub open spec fn unit_v(a: V3) -> V3 {
    V3 {
        x: div_floor(a.x * SCALE, len_fx(a)),
        y: div_floor(a.y * SCALE, len_fx(a)),
        z: div_floor(a.z * SCALE, len_fx(a)),
    }
}

#[derive(Clone, Copy, PartialEq, Eq, Structural, Debug)]
pub struct Vec3 {
    pub x: i64,
    pub y: i64,
    pub z: i64,
}

impl View for Vec3 {
    type V = V3;

    open spec fn view(&self) -> V3 {
        V3 { x: self.x as int, y: self.y as int, z: self.z as int }
    }
}

/// A nonzero vector has a positive fixed-point length.
pub proof fn lemma_nonzero_len(a: V3)
    requires
        a != zero_v(),
    ensures
        norm2_raw(a) >= 1,
        len_fx(a) >= 1,
{
    assert(norm2_raw(a) >= 1) by (nonlinear_arith)
        requires
            a.x != 0 || a.y != 0 || a.z != 0,
    ;
    let s = len_fx(a);
    assert(0 <= s && s * s <= norm2_raw(a) < (s + 1) * (s + 1)) by {
        crate::fixed::lemma_sqrt_exists(norm2_raw(a) as nat);
        let w = choose|w: int| 0 <= w && #[trigger] (w * w) <= norm2_raw(a) < (w + 1) * (w + 1);
        lemma_sqrt_unique(norm2_raw(a), w);
    }
    assert(s >= 1) by (nonlinear_arith)
        requires
            norm2_raw(a) >= 1,
            0 <= s,
            s * s <= norm2_raw(a) < (s + 1) * (s + 1),
    ;
}

/// The square root of a value `n` bounds every integer whose square is
/// at most `n`.
pub proof fn lemma_component_le_sqrt(x: int, n: int)
    requires
        x * x <= n,
        0 <= sqrt_of(n) && sqrt_of(n) * sqrt_of(n) <= n < (sqrt_of(n) + 1) * (sqrt_of(n) + 1),
    ensures
        -sqrt_of(n) <= x <= sqrt_of(n),
{
    let s = sqrt_of(n);
    assert(-s <= x <= s) by (nonlinear_arith)
        requires
            x * x <= n,
            0 <= s,
            n < (s + 1) * (s + 1),
    ;
}

/// Dividing `x * s` by `len` stays within `[-s, s]` when `|x| <= len`.
pub proof fn lemma_div_scaled_bound(x: int, len: int, s: int)
    requires
        len >= 1,
        s >= 0,
        -len <= x <= len,
    ensures
        -s <= (x * s) / len <= s,
{
    lemma_floor_div_brackets(x * s, len);
    let q = (x * s) / len;
    assert(-s <= q <= s) by (nonlinear_arith)
        requires
            len >= 1,
            s >= 0,
            -len <= x <= len,
            len * q <= x * s < len * (q + 1),
    ;
}

/// Bound on the result of scaling: if `|a| <= m` componentwise and
/// `|k| <= n` with `m * n <= q * SCALE`, the scaled vector stays in
/// `[-q, q]`.
pub proof fn lemma_smul_bound(a: V3, k: int, m: int, n: int, q: int)
    requires
        bounded(a, m),
        -n <= k <= n,
        0 <= m,
        0 <= n,
        m * n <= q * (SCALE as int),
        0 <= q,
    ensures
        bounded(smul_v(a, k), q),
{
    lemma_abs_mul_bound(a.x, k, m, n);
    lemma_abs_mul_bound(a.y, k, m, n);
    lemma_abs_mul_bound(a.z, k, m, n);
    crate::fixed::lemma_div_floor_mag(a.x * k, SCALE as int, q);
    crate::fixed::lemma_div_floor_mag(a.y * k, SCALE as int, q);
    crate::fixed::lemma_div_floor_mag(a.z * k, SCALE as int, q);
}

/// The same bound for the componentwise product.
pub proof fn lemma_cmul_bound(a: V3, b: V3, m: int, n: int, q: int)
    requires
        bounded(a, m),
        bounded(b, n),
        0 <= m,
        0 <= n,
        m * n <= q * (SCALE as int),
        0 <= q,
    ensures
        bounded(cmul_v(a, b), q),
{
    lemma_abs_mul_bound(a.x, b.x, m, n);
    lemma_abs_mul_bound(a.y, b.y, m, n);
    lemma_abs_mul_bound(a.z, b.z, m, n);
    crate::fixed::lemma_div_floor_mag(a.x * b.x, SCALE as int, q);
    crate::fixed::lemma_div_floor_mag(a.y * b.y, SCALE as int, q);
    crate::fixed::lemma_div_floor_mag(a.z * b.z, SCALE as int, q);
}

impl Vec3 {
    pub fn new(x: i64, y: i64, z: i64) -> (r: Vec3)
        ensures
            r@ == (V3 { x: x as int, y: y as int, z: z as int }),
    {
        Vec3 { x, y, z }
    }

    pub fn x(&self) -> (r: i64)
        ensures
            r == self@.x,
    {
        self.x
    }

    pub fn y(&self) -> (r: i64)
        ensures
            r == self@.y,
    {
        self.y
    }

    pub fn z(&self) -> (r: i64)
        ensures
            r == self@.z,
    {
        self.z
    }

    pub fn r(&self) -> (r: i64)
        ensures
            r == self@.x,
    {
        self.x
    }

    pub fn g(&self) -> (r: i64)
        ensures
            r == self@.y,
    {
        self.y
    }

    pub fn b(&self) -> (r: i64)
        ensures
            r == self@.z,
    {
        self.z
    }

    pub fn add(&self, o: &Vec3) -> (r: Vec3)
        requires
            bounded(self@, 0x2000000000000000),
            bounded(o@, 0x2000000000000000),
        ensures
            r@ == add_v(self@, o@),
    {
        Vec3 { x: self.x + o.x, y: self.y + o.y, z: self.z + o.z }
    }

    pub fn sub(&self, o: &Vec3) -> (r: Vec3)
        requires
            bounded(self@, 0x2000000000000000),
            bounded(o@, 0x2000000000000000),
        ensures
            r@ == sub_v(self@, o@),
    {
        Vec3 { x: self.x - o.x, y: self.y - o.y, z: self.z - o.z }
    }

    pub fn neg(&self) -> (r: Vec3)
        requires
            bounded(self@, 0x7FFFFFFFFFFFFFFF),
        ensures
            r@ == neg_v(self@),
    {
        Vec3 { x: -self.x, y: -self.y, z: -self.z }
    }

    /// Scale by a fixed-point factor.
    pub fn scale(&self, k: i64) -> (r: Vec3)
        requires
            bounded(self@, 0x2000000000),
            -0x2000000000 <= k <= 0x2000000000,
        ensures
            r@ == smul_v(self@, k as int),
    {
        Vec3 { x: fmul(self.x, k), y: fmul(self.y, k), z: fmul(self.z, k) }
    }

    /// Componentwise fixed-point product.
    pub fn mul_each(&self, o: &Vec3) -> (r: Vec3)
        requires
            bounded(self@, 0x2000000000),
            bounded(o@, 0x2000000000),
        ensures
            r@ == cmul_v(self@, o@),
    {
        Vec3 { x: fmul(self.x, o.x), y: fmul(self.y, o.y), z: fmul(self.z, o.z) }
    }

    /// Fixed-point dot product.
    pub fn dot(a: &Vec3, b: &Vec3) -> (r: i64)
        requires
            bounded(a@, 0x1000000000),
            bounded(b@, 0x1000000000),
        ensures
            r == dot_fx(a@, b@),
    {
        proof {
            lemma_abs_mul_bound(a@.x, b@.x, 0x1000000000, 0x1000000000);
            lemma_abs_mul_bound(a@.y, b@.y, 0x1000000000, 0x1000000000);
            lemma_abs_mul_bound(a@.z, b@.z, 0x1000000000, 0x1000000000);
        }
        let raw: i128 = (a.x as i128) * (b.x as i128) + (a.y as i128) * (b.y as i128)
            + (a.z as i128) * (b.z as i128);
        let q = crate::fixed::floor_div(raw, SCALE as i128);
        proof {
            crate::fixed::lemma_floor_div_bound(raw as int, SCALE as int);
        }
        q as i64
    }

    /// Cross product.
    pub fn cross(a: &Vec3, b: &Vec3) -> (r: Vec3)
        requires
            bounded(a@, 0x1000000000),
            bounded(b@, 0x1000000000),
        ensures
            r@ == cross_v(a@, b@),
    {
        proof {
            lemma_abs_mul_bound(a@.y, b@.z, 0x1000000000, 0x1000000000);
            lemma_abs_mul_bound(a@.z, b@.y, 0x1000000000, 0x1000000000);
            lemma_abs_mul_bound(a@.z, b@.x, 0x1000000000, 0x1000000000);
            lemma_abs_mul_bound(a@.x, b@.z, 0x1000000000, 0x1000000000);
            lemma_abs_mul_bound(a@.x, b@.y, 0x1000000000, 0x1000000000);
            lemma_abs_mul_bound(a@.y, b@.x, 0x1000000000, 0x1000000000);
        }
        let cx: i128 = (a.y as i128) * (b.z as i128) - (a.z as i128) * (b.y as i128);
        let cy: i128 = (a.z as i128) * (b.x as i128) - (a.x as i128) * (b.z as i128);
        let cz: i128 = (a.x as i128) * (b.y as i128) - (a.y as i128) * (b.x as i128);
        let qx = crate::fixed::floor_div(cx, SCALE as i128);
        let qy = crate::fixed::floor_div(cy, SCALE as i128);
        let qz = crate::fixed::floor_div(cz, SCALE as i128);
        proof {
            crate::fixed::lemma_floor_div_bound(cx as int, SCALE as int);
            crate::fixed::lemma_floor_div_bound(cy as int, SCALE as int);
            crate::fixed::lemma_floor_div_bound(cz as int, SCALE as int);
        }
        Vec3 { x: qx as i64, y: qy as i64, z: qz as i64 }
    }

    /// Fixed-point squared length, `floor(norm2_raw / SCALE)`.
    pub fn squared_length(&self) -> (r: i64)
        requires
            bounded(self@, 0x1000000000),
        ensures
            r == dot_fx(self@, self@),
    {
        Vec3::dot(self, self)
    }

    /// Fixed-point length: the integer square root of the raw squared
    /// length.
    pub fn length(&self) -> (r: i64)
        requires
            bounded(self@, 0x1000000000),
        ensures
            r == len_fx(self@),
            0 <= r <= 0x2000000000,
            r * r <= norm2_raw(self@) < (r + 1) * (r + 1),
    {
        proof {
            lemma_abs_mul_bound(self@.x, self@.x, 0x1000000000, 0x1000000000);
            lemma_abs_mul_bound(self@.y, self@.y, 0x1000000000, 0x1000000000);
            lemma_abs_mul_bound(self@.z, self@.z, 0x1000000000, 0x1000000000);
            assert(self@.x * self@.x >= 0) by (nonlinear_arith);
            assert(self@.y * self@.y >= 0) by (nonlinear_arith);
            assert(self@.z * self@.z >= 0) by (nonlinear_arith);
        }
        let raw: i128 = (self.x as i128) * (self.x as i128) + (self.y as i128) * (self.y as i128)
            + (self.z as i128) * (self.z as i128);
        let s = isqrt(raw as u128);
        proof {
            let n = norm2_raw(self@);
            assert((0x2000000000int + 1) * (0x2000000000int + 1) > 0x3000000000000000000int)
                by (nonlinear_arith);
            lemma_component_le_sqrt(s as int, n);
            assert(s as int * (s as int) <= n);
            if s as int > 0x2000000000 {
                assert((s as int) * (s as int) > 0x3000000000000000000int) by (nonlinear_arith)
                    requires
                        s as int > 0x2000000000,
                ;
            }
        }
        s as i64
    }

    /// The unit vector in the direction of `v`.
    pub fn unit_vector(v: &Vec3) -> (r: Vec3)
        requires
            bounded(v@, 0x1000000000),
            v@ != zero_v(),
        ensures
            r@ == unit_v(v@),
            bounded(r@, SCALE as int),
    {
        let len = v.length();
        proof {
            lemma_nonzero_len(v@);
            let n = norm2_raw(v@);
            lemma_abs_mul_bound(v@.x, v@.x, 0x1000000000, 0x1000000000);
            lemma_abs_mul_bound(v@.y, v@.y, 0x1000000000, 0x1000000000);
            lemma_abs_mul_bound(v@.z, v@.z, 0x1000000000, 0x1000000000);
            assert(v@.x * v@.y * 0 == 0) by (nonlinear_arith);
            assert(v@.x * v@.x + v@.y * v@.y + v@.z * v@.z >= v@.x * v@.x) by (nonlinear_arith);
            assert(v@.x * v@.x + v@.y * v@.y + v@.z * v@.z >= v@.y * v@.y) by (nonlinear_arith);
            assert(v@.x * v@.x + v@.y * v@.y + v@.z * v@.z >= v@.z * v@.z) by (nonlinear_arith);
            lemma_component_le_sqrt(v@.x, n);
            lemma_component_le_sqrt(v@.y, n);
            lemma_component_le_sqrt(v@.z, n);
            lemma_div_scaled_bound(v@.x, len as int, SCALE as int);
            lemma_div_scaled_bound(v@.y, len as int, SCALE as int);
            lemma_div_scaled_bound(v@.z, len as int, SCALE as int);
        }
        let ux = crate::fixed::floor_div((v.x as i128) * (SCALE as i128), len as i128);
        let uy = crate::fixed::floor_div((v.y as i128) * (SCALE as i128), len as i128);
        let uz = crate::fixed::floor_div((v.z as i128) * (SCALE as i128), len as i128);
        Vec3 { x: ux as i64, y: uy as i64, z: uz as i64 }
    }

    /// Normalize in place.
    pub fn make_unit_vector(&mut self)
        requires
            bounded(old(self)@, 0x1000000000),
            old(self)@ != zero_v(),
        ensures
            final(self)@ == unit_v(old(self)@),
            bounded(final(self)@, SCALE as int),
    {
        *self = Vec3::unit_vector(self);
    }
}

} // verus!
