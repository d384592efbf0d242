//! Axis-aligned bounding boxes over the integer grid, and the exact
//! ray-box interval test the tree traversal prunes with.
//!
//! The box test asks: is there an integer parameter `t` strictly inside
//! the query interval whose ray point lies in the box?  A sphere's box
//! is inflated by the worst-case excursion of a floored root
//! (`ROOT_SLACK`), so by `lemma_root_near_surface` every parameter the
//! sphere test can return reaches the box, and a failed box test
//! soundly rules out every sphere inside it.

use crate::fixed::{
    ceil_div, floor_div, iabs, imax, imin, lemma_mul_ge_ceil, lemma_mul_le_floor, lemma_sq_le,
    SCALE,
};
use crate::ray::{Ray, RayV};
use crate::sphere::{
    hit_t_spec, lemma_root_near_surface, near_surface, radial_offset, sphere_hit_spec, sphere_wf,
    ray_wf, Sphere, SphereV, RAY_BOUND, ROOT_SLACK, T_BOUND,
};
use crate::vec3::{bounded, Vec3, V3};
use vstd::prelude::*;

verus! {

/// Bound on box corner coordinates.
pub const B_BOUND: i64 = 0x10000200;

pub ghost struct AabbV {
    pub lo: V3,
    pub hi: V3,
}

#[derive(Clone, Copy, PartialEq, Eq, Structural, Debug)]
pub struct Aabb {
    pub lo: Vec3,
    pub hi: Vec3,
}

impl View for Aabb {
    type V = AabbV;

    open spec fn view(&self) -> AabbV {
        AabbV { lo: self.lo@, hi: self.hi@ }
    }
}

pub open spec fn aabb_bounded(b: AabbV) -> bool {
    &&& bounded(b.lo, B_BOUND as int)
    &&& bounded(b.hi, B_BOUND as int)
}

/// The box of a sphere, inflated by the worst-case excursion of a
/// floored root: it contains every point the intersection test can
/// accept on that sphere.
pub open spec fn sphere_box_v(s: SphereV) -> AabbV {
    AabbV {
        lo: V3 {
            x: s.center.x - (iabs(s.radius) + 448),
            y: s.center.y - (iabs(s.radius) + 448),
            z: s.center.z - (iabs(s.radius) + 448),
        },
        hi: V3 {
            x: s.center.x + (iabs(s.radius) + 448),
            y: s.center.y + (iabs(s.radius) + 448),
            z: s.center.z + (iabs(s.radius) + 448),
        },
    }
}

/// The smallest box containing both arguments.
pub open spec fn merge_v(a: AabbV, b: AabbV) -> AabbV {
    AabbV {
        lo: V3 { x: imin(a.lo.x, b.lo.x), y: imin(a.lo.y, b.lo.y), z: imin(a.lo.z, b.lo.z) },
        hi: V3 { x: imax(a.hi.x, b.hi.x), y: imax(a.hi.y, b.hi.y), z: imax(a.hi.z, b.hi.z) },
    }
}

/// `outer` contains `inner`.
pub open spec fn contains_box(outer: AabbV, inner: AabbV) -> bool {
    &&& outer.lo.x <= inner.lo.x && inner.hi.x <= outer.hi.x
    &&& outer.lo.y <= inner.lo.y && inner.hi.y <= outer.hi.y
    &&& outer.lo.z <= inner.lo.z && inner.hi.z <= outer.hi.z
}

pub proof fn lemma_merge_contains(a: AabbV, b: AabbV)
    ensures
        contains_box(merge_v(a, b), a),
        contains_box(merge_v(a, b), b),
{
}

pub proof fn lemma_contains_trans(a: AabbV, b: AabbV, c: AabbV)
    requires
        contains_box(a, b),
        contains_box(b, c),
    ensures
        contains_box(a, c),
{
}

/// One slab: the ray point at `t` lies between the two planes of an
/// axis, stated without division.
pub open spec fn slab_ok(lo: int, hi: int, o: int, d: int, t: int) -> bool {
    SCALE * (lo - o) <= t * d && t * d <= SCALE * (hi - o)
}

/// The ray point at integer parameter `t` lies inside the box.
pub open spec fn in_slabs(b: AabbV, r: RayV, t: int) -> bool {
    &&& slab_ok(b.lo.x, b.hi.x, r.orig.x, r.dir.x, t)
    &&& slab_ok(b.lo.y, b.hi.y, r.orig.y, r.dir.y, t)
    &&& slab_ok(b.lo.z, b.hi.z, r.orig.z, r.dir.z, t)
}

/// Some integer parameter strictly inside `(t1, t2)` reaches the box.
pub open spec fn box_hit_spec(b: AabbV, r: RayV, t1: int, t2: int) -> bool {
    exists|t: int| t1 < t < t2 && #[trigger] in_slabs(b, r, t)
}

/// Every parameter the sphere test can return reaches the sphere's
/// box: if a sphere inside `b` reports a hit in the interval, the box
/// test over the same interval must pass.
pub proof fn lemma_hit_in_box(r: RayV, s: SphereV, b: AabbV, t1: int, t2: int)
    requires
        sphere_wf(s),
        ray_wf(r),
        contains_box(b, sphere_box_v(s)),
        sphere_hit_spec(r, s, t1, t2) is Some,
    ensures
        box_hit_spec(b, r, t1, t2),
{
    let t = hit_t_spec(r, s, t1, t2)->Some_0;
    lemma_root_near_surface(r, s, t);
    let q = radial_offset(r, s, t);
    let m = SCALE * iabs(s.radius) + ROOT_SLACK;
    assert(m <= SCALE * (iabs(s.radius) + 448));
    assert(in_slabs(b, r, t));
}

/// Build the box of a sphere.
pub fn sphere_box(s: &Sphere) -> (b: Aabb)
    requires
        sphere_wf(s@),
    ensures
        b@ == sphere_box_v(s@),
        aabb_bounded(b@),
{
    let c = s.center();
    let rad = s.radius();
    let half = if rad >= 0 {
        rad + 448
    } else {
        -rad + 448
    };
    Aabb {
        lo: Vec3 { x: c.x - half, y: c.y - half, z: c.z - half },
        hi: Vec3 { x: c.x + half, y: c.y + half, z: c.z + half },
    }
}

/// Merge two boxes.
pub fn merge(a: &Aabb, b: &Aabb) -> (m: Aabb)
    ensures
        m@ == merge_v(a@, b@),
{
    Aabb {
        lo: Vec3 {
            x: if a.lo.x <= b.lo.x {
                a.lo.x
            } else {
                b.lo.x
            },
            y: if a.lo.y <= b.lo.y {
                a.lo.y
            } else {
                b.lo.y
            },
            z: if a.lo.z <= b.lo.z {
                a.lo.z
            } else {
                b.lo.z
            },
        },
        hi: Vec3 {
            x: if a.hi.x >= b.hi.x {
                a.hi.x
            } else {
                b.hi.x
            },
            y: if a.hi.y >= b.hi.y {
                a.hi.y
            } else {
                b.hi.y
            },
            z: if a.hi.z >= b.hi.z {
                a.hi.z
            } else {
                b.hi.z
            },
        },
    }
}

/// The meaning of one clipping step: the result interval holds exactly
/// the integer parameters of the incoming interval that satisfy the slab.
pub open spec fn clip_ok(
    res: (i128, i128),
    lo_t: int,
    hi_t: int,
    lo: int,
    hi: int,
    o: int,
    d: int,
) -> bool {
    forall|t: int| res.0 <= t <= res.1 <==> (lo_t <= t <= hi_t && #[trigger] slab_ok(
        lo,
        hi,
        o,
        d,
        t,
    ))
}

/// Clip the integer interval `[lo_t, hi_t]` to one slab.
fn clip_axis(o: i64, d: i64, lo: i64, hi: i64, lo_t: i128, hi_t: i128) -> (res: (i128, i128))
    requires
        -RAY_BOUND <= o <= RAY_BOUND,
        -RAY_BOUND <= d <= RAY_BOUND,
        -B_BOUND <= lo <= B_BOUND,
        -B_BOUND <= hi <= B_BOUND,
        -0x1000000000000 <= lo_t <= 0x1000000000000,
        -0x1000000000000 <= hi_t <= 0x1000000000000,
    ensures
        clip_ok(res, lo_t as int, hi_t as int, lo as int, hi as int, o as int, d as int),
        -0x1000000000000 <= res.0 <= 0x1000000000000,
        -0x1000000000000 <= res.1 <= 0x1000000000000,
{
    let a: i128 = (SCALE as i128) * (lo as i128 - o as i128);
    let b: i128 = (SCALE as i128) * (hi as i128 - o as i128);
    if d > 0 {
        let ql = ceil_div(a, d as i128);
        let qh = floor_div(b, d as i128);
        let nlo = if lo_t >= ql {
            lo_t
        } else {
            ql
        };
        let nhi = if hi_t <= qh {
            hi_t
        } else {
            qh
        };
        proof {
            assert forall|t: int| nlo <= t <= nhi <==> (lo_t <= t <= hi_t && slab_ok(
                lo as int,
                hi as int,
                o as int,
                d as int,
                t,
            )) by {
                lemma_mul_ge_ceil(t, d as int, a as int);
                lemma_mul_le_floor(t, d as int, b as int);
            }
        }
        if nlo <= nhi {
            (nlo, nhi)
        } else {
            (1, 0)
        }
    } else if d < 0 {
        let ql = ceil_div(-b, -(d as i128));
        let qh = floor_div(-a, -(d as i128));
        let nlo = if lo_t >= ql {
            lo_t
        } else {
            ql
        };
        let nhi = if hi_t <= qh {
            hi_t
        } else {
            qh
        };
        proof {
            assert forall|t: int| nlo <= t <= nhi <==> (lo_t <= t <= hi_t && slab_ok(
                lo as int,
                hi as int,
                o as int,
                d as int,
                t,
            )) by {
                lemma_mul_ge_ceil(t, -(d as int), -(b as int));
                lemma_mul_le_floor(t, -(d as int), -(a as int));
                assert(t * (d as int) <= b as int <==> t * (-(d as int)) >= -(b as int))
                    by (nonlinear_arith);
                assert(t * (d as int) >= a as int <==> t * (-(d as int)) <= -(a as int))
                    by (nonlinear_arith);
            }
        }
        if nlo <= nhi {
            (nlo, nhi)
        } else {
            (1, 0)
        }
    } else {
        if a <= 0 && 0 <= b {
            proof {
                assert forall|t: int| #[trigger] (t * (d as int)) == 0 by {
                    assert(t * 0 == 0) by (nonlinear_arith);
                }
            }
            (lo_t, hi_t)
        } else {
            proof {
                assert forall|t: int| #[trigger] (t * (d as int)) == 0 by {
                    assert(t * 0 == 0) by (nonlinear_arith);
                }
            }
            (1, 0)
        }
    }
}

/// The exact box test: does some integer parameter strictly inside
/// `(t1, t2)` reach the box?
pub fn box_hit(b: &Aabb, r: &Ray, t1: i64, t2: i64) -> (ret: bool)
    requires
        aabb_bounded(b@),
        ray_wf(r@),
        -T_BOUND <= t1 <= T_BOUND,
        -T_BOUND <= t2 <= T_BOUND,
    ensures
        ret == box_hit_spec(b@, r@, t1 as int, t2 as int),
{
    let o = r.origin();
    let d = r.direction();
    let (l1, h1) = clip_axis(o.x, d.x, b.lo.x, b.hi.x, t1 as i128 + 1, t2 as i128 - 1);
    let (l2, h2) = clip_axis(o.y, d.y, b.lo.y, b.hi.y, l1, h1);
    let (l3, h3) = clip_axis(o.z, d.z, b.lo.z, b.hi.z, l2, h2);
    let ret = l3 <= h3;
    proof {
        // Restate each clipping fact over this function's own terms, so
        // the quantified characterizations instantiate here.
        assert(clip_ok(
            (l1, h1),
            t1 as int + 1,
            t2 as int - 1,
            b@.lo.x,
            b@.hi.x,
            r@.orig.x,
            r@.dir.x,
        ));
        assert(clip_ok((l2, h2), l1 as int, h1 as int, b@.lo.y, b@.hi.y, r@.orig.y, r@.dir.y));
        assert(clip_ok((l3, h3), l2 as int, h2 as int, b@.lo.z, b@.hi.z, r@.orig.z, r@.dir.z));
        if ret {
            let t = l3 as int;
            assert(slab_ok(b@.lo.z, b@.hi.z, r@.orig.z, r@.dir.z, t));
            assert(l2 <= t <= h2);
            assert(slab_ok(b@.lo.y, b@.hi.y, r@.orig.y, r@.dir.y, t));
            assert(l1 <= t <= h1);
            assert(slab_ok(b@.lo.x, b@.hi.x, r@.orig.x, r@.dir.x, t));
            assert(t1 < t && t < t2);
            assert(in_slabs(b@, r@, t));
        } else {
            if box_hit_spec(b@, r@, t1 as int, t2 as int) {
                let t = choose|t: int|
                    t1 < t < t2 && #[trigger] in_slabs(b@, r@, t);
                assert(slab_ok(b@.lo.x, b@.hi.x, r@.orig.x, r@.dir.x, t));
                assert(slab_ok(b@.lo.y, b@.hi.y, r@.orig.y, r@.dir.y, t));
                assert(slab_ok(b@.lo.z, b@.hi.z, r@.orig.z, r@.dir.z, t));
                assert(l1 <= t <= h1);
                assert(l2 <= t <= h2);
                assert(l3 <= t <= h3);
                assert(false);
            }
        }
    }
    ret
}

} // verus!
