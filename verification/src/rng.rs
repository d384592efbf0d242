//! A deterministic, explicitly seeded pseudo-random source.
//!
//! Rendering consumes uniform fixed-point samples in `[0, 1)`.  Making
//! the generator part of the library keeps every draw a pure function
//! of the seed, so whole renders are reproducible and fully specified.

use crate::fixed::SCALE;
use crate::vec3::{bounded, norm2_raw, zero_v, Vec3, V3};
use vstd::prelude::*;

verus! {

/// Multiplier of the linear congruential step.
pub const RNG_MUL: u64 = 6364136223846793005;

/// Increment of the linear congruential step.
pub const RNG_INC: u64 = 1442695040888963407;

/// Retry budget of the rejection samplers; a miss this many times in a
/// row has probability well below `2^-60`, and the samplers then fall
/// back to the zero vector (which lies in every unit ball).
pub const SAMPLE_TRIES: u32 = 64;

/// One step of the generator.  Opaque: callers reason about it as an
/// abstract state-transition function.
#[verifier::opaque]
pub open spec fn rng_next(s: u64) -> u64 {
    s.wrapping_mul(RNG_MUL).wrapping_add(RNG_INC)
}

/// The fixed-point sample in `[0, SCALE)` read off a state.  Opaque,
/// but always within `[0, SCALE)` (see `lemma_unit_of_range`).
#[verifier::opaque]
pub open spec fn unit_of(s: u64) -> int {
    ((s >> 32) % (SCALE as u64)) as int
}

/// One candidate draw for the unit-ball samplers: three coordinates in
/// `[-SCALE, SCALE - 2]`, i.e. `2 * u - 1` world units for `u` in `[0, 1)`.
/// `unit_of` lands in `[0, SCALE)`.
pub proof fn lemma_unit_of_range(s: u64)
    ensures
        0 <= unit_of(s) < SCALE,
{
    reveal(unit_of);
}

pub open spec fn ball_draw(s: u64) -> V3 {
    let s1 = rng_next(s);
    let s2 = rng_next(s1);
    let s3 = rng_next(s2);
    V3 {
        x: 2 * unit_of(s1) - SCALE,
        y: 2 * unit_of(s2) - SCALE,
        z: 2 * unit_of(s3) - SCALE,
    }
}

/// The state after one candidate draw.
pub open spec fn ball_draw_state(s: u64) -> u64 {
    rng_next(rng_next(rng_next(s)))
}

/// Rejection sampling in the unit ball with a fuel bound: accept the
/// first draw whose raw squared length is at most `SCALE * SCALE`.
pub open spec fn sample_sphere_spec(s: u64, fuel: nat) -> (V3, u64)
    decreases fuel,
{
    let v = ball_draw(s);
    let s2 = ball_draw_state(s);
    if norm2_raw(v) <= (SCALE * SCALE) as int {
        (v, s2)
    } else if fuel == 0 {
        (zero_v(), s2)
    } else {
        sample_sphere_spec(s2, (fuel - 1) as nat)
    }
}

/// The disk sampler: as the ball sampler, but two coordinates and a
/// zero vertical component.
pub open spec fn disk_draw(s: u64) -> V3 {
    let s1 = rng_next(s);
    let s2 = rng_next(s1);
    V3 { x: 2 * unit_of(s1) - SCALE, y: 2 * unit_of(s2) - SCALE, z: 0 }
}

pub open spec fn disk_draw_state(s: u64) -> u64 {
    rng_next(rng_next(s))
}

pub open spec fn sample_disk_spec(s: u64, fuel: nat) -> (V3, u64)
    decreases fuel,
{
    let v = disk_draw(s);
    let s2 = disk_draw_state(s);
    if norm2_raw(v) <= (SCALE * SCALE) as int {
        (v, s2)
    } else if fuel == 0 {
        (zero_v(), s2)
    } else {
        sample_disk_spec(s2, (fuel - 1) as nat)
    }
}

/// The generator: 64 bits of state, advanced by a linear congruential
/// step; samples are taken from the upper half of the state.
pub struct Rng {
    state: u64,
}

impl View for Rng {
    type V = u64;

    closed spec fn view(&self) -> u64 {
        self.state
    }
}

impl Rng {
    pub fn new(seed: u64) -> (r: Rng)
        ensures
            r@ == seed,
    {
        Rng { state: seed }
    }

    /// A uniform fixed-point sample in `[0, 1)` world units.
    pub fn next_unit(&mut self) -> (r: i64)
        ensures
            final(self)@ == rng_next(old(self)@),
            r == unit_of(final(self)@),
            0 <= r < SCALE,
    {
        proof {
            reveal(rng_next);
            reveal(unit_of);
        }
        self.state = self.state.wrapping_mul(RNG_MUL).wrapping_add(RNG_INC);
        ((self.state >> 32) % (SCALE as u64)) as i64
    }

    /// One coordinate of a candidate draw: uniform in `[-1, 1)` world
    /// units, even steps.
    fn next_signed(&mut self) -> (r: i64)
        ensures
            final(self)@ == rng_next(old(self)@),
            r == 2 * unit_of(final(self)@) - SCALE,
            -SCALE <= r < SCALE,
    {
        let u = self.next_unit();
        2 * u - SCALE
    }
}

fn sample_sphere_rec(rng: &mut Rng, fuel: u32) -> (r: Vec3)
    ensures
        (r@, final(rng)@) == sample_sphere_spec(old(rng)@, fuel as nat),
        norm2_raw(r@) <= (SCALE * SCALE) as int,
        bounded(r@, SCALE as int),
    decreases fuel,
{
    let x = rng.next_signed();
    let y = rng.next_signed();
    let z = rng.next_signed();
    proof {
        crate::fixed::lemma_abs_mul_bound(x as int, x as int, SCALE as int, SCALE as int);
        crate::fixed::lemma_abs_mul_bound(y as int, y as int, SCALE as int, SCALE as int);
        crate::fixed::lemma_abs_mul_bound(z as int, z as int, SCALE as int, SCALE as int);
        assert(x * x >= 0) by (nonlinear_arith);
        assert(y * y >= 0) by (nonlinear_arith);
        assert(z * z >= 0) by (nonlinear_arith);
    }
    let n2 = x * x + y * y + z * z;
    if n2 <= SCALE * SCALE {
        Vec3 { x, y, z }
    } else if fuel == 0 {
        Vec3 { x: 0, y: 0, z: 0 }
    } else {
        sample_sphere_rec(rng, fuel - 1)
    }
}

/// A point inside the closed unit ball, by rejection sampling.
pub fn random_in_unit_sphere(rng: &mut Rng) -> (r: Vec3)
    ensures
        (r@, final(rng)@) == sample_sphere_spec(old(rng)@, SAMPLE_TRIES as nat),
        norm2_raw(r@) <= (SCALE * SCALE) as int,
        bounded(r@, SCALE as int),
{
    sample_sphere_rec(rng, SAMPLE_TRIES)
}

fn sample_disk_rec(rng: &mut Rng, fuel: u32) -> (r: Vec3)
    ensures
        (r@, final(rng)@) == sample_disk_spec(old(rng)@, fuel as nat),
        norm2_raw(r@) <= (SCALE * SCALE) as int,
        bounded(r@, SCALE as int),
        r@.z == 0,
    decreases fuel,
{
    let x = rng.next_signed();
    let y = rng.next_signed();
    proof {
        crate::fixed::lemma_abs_mul_bound(x as int, x as int, SCALE as int, SCALE as int);
        crate::fixed::lemma_abs_mul_bound(y as int, y as int, SCALE as int, SCALE as int);
        assert(x * x >= 0) by (nonlinear_arith);
        assert(y * y >= 0) by (nonlinear_arith);
    }
    let n2 = x * x + y * y;
    if n2 <= SCALE * SCALE {
        Vec3 { x, y, z: 0 }
    } else if fuel == 0 {
        Vec3 { x: 0, y: 0, z: 0 }
    } else {
        sample_disk_rec(rng, fuel - 1)
    }
}

/// A point inside the closed unit disk in the `x`-`y` plane.
pub fn random_in_unit_disk(rng: &mut Rng) -> (r: Vec3)
    ensures
        (r@, final(rng)@) == sample_disk_spec(old(rng)@, SAMPLE_TRIES as nat),
        norm2_raw(r@) <= (SCALE * SCALE) as int,
        bounded(r@, SCALE as int),
        r@.z == 0,
{
    sample_disk_rec(rng, SAMPLE_TRIES)
}

} // verus!
