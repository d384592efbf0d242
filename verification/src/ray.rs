//! Rays: an origin, a direction, and parameterized point evaluation.

use crate::fixed::SCALE;
use crate::vec3::{add_v, bounded, smul_v, Vec3, V3};
use vstd::prelude::*;

verus! {

/// The mathematical value of a ray.
pub ghost struct RayV {
    pub orig: V3,
    pub dir: V3,
}

/// The point reached after parameter `t` (fixed point): each component
/// is `origin + floor(t * dir / SCALE)`.
pub open spec fn point_at(r: RayV, t: int) -> V3 {
    add_v(r.orig, smul_v(r.dir, t))
}

#[derive(Clone, Copy, PartialEq, Eq, Structural, Debug)]
pub struct Ray {
    a: Vec3,
    b: Vec3,
}

impl View for Ray {
    type V = RayV;

    closed spec fn view(&self) -> RayV {
        RayV { orig: self.a@, dir: self.b@ }
    }
}

impl Ray {
    pub fn new(a: Vec3, b: Vec3) -> (r: Ray)
        ensures
            r@ == (RayV { orig: a@, dir: b@ }),
    {
        Ray { a, b }
    }

    pub fn origin(&self) -> (r: Vec3)
        ensures
            r@ == self@.orig,
    {
        self.a
    }

    pub fn direction(&self) -> (r: Vec3)
        ensures
            r@ == self@.dir,
    {
        self.b
    }

    pub fn point_at_parameter(&self, t: i64) -> (r: Vec3)
        requires
            bounded(self@.orig, 0x1000000000000000),
            bounded(self@.dir, 0x40000000),
            -0x1000000000 <= t <= 0x1000000000,
        ensures
            r@ == point_at(self@, t as int),
    {
        proof {
            crate::vec3::lemma_smul_bound(
                self@.dir,
                t as int,
                0x40000000,
                0x1000000000,
                0x40000000000000,
            );
        }
        let d = self.b.scale(t);
        self.a.add(&d)
    }
}

} // verus!
