//! The linear-scan scene query: fold over all spheres, keeping the
//! closest accepted hit and shrinking the open search interval as hits
//! are found.  `lemma_world_hit_closest` states the semantic contract:
//! the result is a genuine hit and no sphere has a closer one.

use crate::ray::RayV;
use crate::sphere::{
    disc_of, opt_hit_view, quad_a, root_minus, root_plus, sphere_hit_spec, sphere_wf, ray_wf,
    HitRecord, HitV, Sphere, SphereV, C_BOUND, T_BOUND,
};
use crate::fixed::{sqrt_of, SCALE};
use crate::ray::Ray;
use crate::vec3::bounded;
use vstd::prelude::*;

verus! {

/// The views of a list of spheres.
pub open spec fn views_of(s: Seq<Sphere>) -> Seq<SphereV> {
    s.map_values(|x: Sphere| x@)
}

/// Every sphere of the sequence is well-formed.
pub open spec fn spheres_wf(s: Seq<SphereV>) -> bool {
    forall|i: int| 0 <= i < s.len() ==> sphere_wf(#[trigger] s[i])
}

/// The fold: test each sphere against `(t_min, closest)`, tightening
/// `closest` and replacing the record whenever a hit lands inside.
pub open spec fn scan_hits(
    ss: Seq<SphereV>,
    r: RayV,
    t_min: int,
    closest: int,
    cur: Option<HitV>,
) -> Option<HitV>
    decreases ss.len(),
{
    if ss.len() == 0 {
        cur
    } else {
        match sphere_hit_spec(r, ss[0], t_min, closest) {
            Some(h) => scan_hits(ss.skip(1), r, t_min, h.t, Some(h)),
            None => scan_hits(ss.skip(1), r, t_min, closest, cur),
        }
    }
}

/// What the scene query returns.
pub open spec fn world_hit_spec(ss: Seq<SphereV>, r: RayV, t_min: int, t_max: int) -> Option<
    HitV,
> {
    scan_hits(ss, r, t_min, t_max, None)
}

/// An accepted hit lies strictly inside the query interval.
pub proof fn lemma_hit_in_interval(r: RayV, s: SphereV, t1: int, t2: int)
    ensures
        sphere_hit_spec(r, s, t1, t2) matches Some(h) ==> t1 < h.t < t2,
{
}

/// Shrinking the upper end of the interval keeps exactly the hits that
/// fall below it: the test against `(t_min, t2)` returns the hit of
/// `(t_min, t)` when that hit's parameter is below `t2`, and nothing
/// otherwise.
pub proof fn lemma_hit_shrink(r: RayV, s: SphereV, t_min: int, t: int, t2: int)
    requires
        t2 <= t,
    ensures
        sphere_hit_spec(r, s, t_min, t2) == (match sphere_hit_spec(r, s, t_min, t) {
            Some(h) => if h.t < t2 {
                Some(h)
            } else {
                None::<HitV>
            },
            None => None::<HitV>,
        }),
{
    if quad_a(r) > 0 && disc_of(r, s) > 0 {
        crate::fixed::lemma_sqrt_exists(disc_of(r, s) as nat);
        let w = choose|w: int|
            0 <= w && #[trigger] (w * w) <= disc_of(r, s) < (w + 1) * (w + 1);
        crate::fixed::lemma_sqrt_unique(disc_of(r, s), w);
        let sd = sqrt_of(disc_of(r, s));
        let a = quad_a(r);
        let b = crate::sphere::quad_b(r, s);
        assert((-b - sd) * SCALE <= (-b + sd) * SCALE) by (nonlinear_arith)
            requires
                sd >= 0,
        ;
        vstd::arithmetic::div_mod::lemma_div_is_ordered((-b - sd) * SCALE, (-b + sd) * SCALE, a);
        assert(root_minus(r, s) <= root_plus(r, s));
    }
}

/// A record already found is never dropped by further folding.
pub proof fn lemma_scan_some(ss: Seq<SphereV>, r: RayV, t_min: int, c: int, cur: Option<HitV>)
    requires
        cur is Some,
    ensures
        scan_hits(ss, r, t_min, c, cur) is Some,
    decreases ss.len(),
{
    if ss.len() > 0 {
        match sphere_hit_spec(r, ss[0], t_min, c) {
            Some(h) => {
                lemma_scan_some(ss.skip(1), r, t_min, h.t, Some(h));
            },
            None => {
                lemma_scan_some(ss.skip(1), r, t_min, c, cur);
            },
        }
    }
}

/// The fold splits over concatenation: folding `s1 + s2` is folding
/// `s2` from the state reached after `s1`.
pub proof fn lemma_scan_append(
    s1: Seq<SphereV>,
    s2: Seq<SphereV>,
    r: RayV,
    t_min: int,
    c0: int,
    cur0: Option<HitV>,
)
    requires
        match cur0 {
            Some(h) => h.t == c0,
            None => true,
        },
    ensures
        ({
            let m = scan_hits(s1, r, t_min, c0, cur0);
            let c1 = match m {
                Some(h) => h.t,
                None => c0,
            };
            scan_hits(s1 + s2, r, t_min, c0, cur0) == scan_hits(s2, r, t_min, c1, m)
        }),
    decreases s1.len(),
{
    if s1.len() == 0 {
        assert(s1 + s2 =~= s2);
    } else {
        assert((s1 + s2)[0] == s1[0]);
        assert((s1 + s2).skip(1) =~= s1.skip(1) + s2);
        match sphere_hit_spec(r, s1[0], t_min, c0) {
            Some(h) => {
                lemma_scan_some(s1.skip(1), r, t_min, h.t, Some(h));
                lemma_scan_append(s1.skip(1), s2, r, t_min, h.t, Some(h));
            },
            None => {
                lemma_scan_append(s1.skip(1), s2, r, t_min, c0, cur0);
            },
        }
    }
}

/// Folding a run of spheres none of which hits leaves the accumulator
/// unchanged.
pub proof fn lemma_scan_all_none(
    ss: Seq<SphereV>,
    r: RayV,
    t_min: int,
    c: int,
    cur: Option<HitV>,
)
    requires
        forall|i: int|
            0 <= i < ss.len() ==> sphere_hit_spec(r, #[trigger] ss[i], t_min, c) is None,
    ensures
        scan_hits(ss, r, t_min, c, cur) == cur,
    decreases ss.len(),
{
    if ss.len() > 0 {
        assert(sphere_hit_spec(r, ss[0], t_min, c) is None);
        assert(forall|i: int| 0 <= i < ss.skip(1).len() ==> #[trigger] ss.skip(1)[i] == ss[i + 1]);
        lemma_scan_all_none(ss.skip(1), r, t_min, c, cur);
    }
}

/// Induction behind `lemma_world_hit_closest`, generalized over the
/// fold accumulator.
proof fn lemma_scan_closest(
    ss: Seq<SphereV>,
    r: RayV,
    t_min: int,
    t_max: int,
    closest: int,
    cur: Option<HitV>,
)
    requires
        closest <= t_max,
        match cur {
            Some(c) => c.t == closest && t_min < c.t < t_max,
            None => closest == t_max,
        },
    ensures
        ({
            let res = scan_hits(ss, r, t_min, closest, cur);
            &&& (res is None ==> cur is None)
            &&& (res is None ==> forall|i: int|
                0 <= i < ss.len() ==> sphere_hit_spec(r, #[trigger] ss[i], t_min, t_max) is None)
            &&& (res matches Some(h) ==> t_min < h.t <= closest)
            &&& (res matches Some(h) ==> cur == Some(h) || exists|i: int|
                0 <= i < ss.len() && sphere_hit_spec(r, #[trigger] ss[i], t_min, t_max) == Some(h))
            &&& (forall|i: int|
                0 <= i < ss.len() ==> match sphere_hit_spec(r, #[trigger] ss[i], t_min, t_max) {
                    Some(g) => res matches Some(h) && h.t <= g.t,
                    None => true,
                })
        }),
    decreases ss.len(),
{
    if ss.len() == 0 {
    } else {
        let s0 = ss[0];
        lemma_hit_shrink(r, s0, t_min, t_max, closest);
        lemma_hit_in_interval(r, s0, t_min, t_max);
        let sh = sphere_hit_spec(r, s0, t_min, closest);
        let rest = ss.skip(1);
        assert(forall|i: int| 0 <= i < rest.len() ==> #[trigger] rest[i] == ss[i + 1]);
        let res = scan_hits(ss, r, t_min, closest, cur);
        match sh {
            Some(h0) => {
                lemma_hit_in_interval(r, s0, t_min, closest);
                lemma_scan_closest(rest, r, t_min, t_max, h0.t, Some(h0));
                assert(res == scan_hits(rest, r, t_min, h0.t, Some(h0)));
                assert(sphere_hit_spec(r, ss[0], t_min, t_max) == Some(h0));
                assert(res is Some);
                assert forall|i: int| 0 <= i < ss.len() implies match sphere_hit_spec(
                    r,
                    #[trigger] ss[i],
                    t_min,
                    t_max,
                ) {
                    Some(g) => res matches Some(h) && h.t <= g.t,
                    None => true,
                } by {
                    if i == 0 {
                        assert(sphere_hit_spec(r, ss[0], t_min, t_max) == Some(h0));
                    } else {
                        assert(ss[i] == rest[i - 1]);
                    }
                }
            },
            None => {
                lemma_scan_closest(rest, r, t_min, t_max, closest, cur);
                assert(res == scan_hits(rest, r, t_min, closest, cur));
                assert forall|i: int| 0 <= i < ss.len() && res is None implies sphere_hit_spec(
                    r,
                    #[trigger] ss[i],
                    t_min,
                    t_max,
                ) is None by {
                    if i == 0 {
                        match sphere_hit_spec(r, ss[0], t_min, t_max) {
                            Some(g) => {
                                assert(g.t >= closest);
                                assert(cur is None);
                                assert(g.t < t_max);
                                assert(false);
                            },
                            None => {},
                        }
                    } else {
                        assert(ss[i] == rest[i - 1]);
                    }
                }
                assert forall|i: int| 0 <= i < ss.len() implies match sphere_hit_spec(
                    r,
                    #[trigger] ss[i],
                    t_min,
                    t_max,
                ) {
                    Some(g) => res matches Some(h) && h.t <= g.t,
                    None => true,
                } by {
                    if i == 0 {
                        match sphere_hit_spec(r, ss[0], t_min, t_max) {
                            Some(g) => {
                                assert(g.t >= closest);
                                if res is None {
                                    assert(cur is None);
                                    assert(g.t < t_max);
                                    assert(false);
                                }
                            },
                            None => {},
                        }
                    } else {
                        assert(ss[i] == rest[i - 1]);
                    }
                }
            },
        }
    }
}

/// The scene query returns a genuine intersection and the closest one:
/// if it returns nothing, no sphere reports a hit in the interval; if
/// it returns a record, some sphere produced exactly that record, and
/// no sphere's hit has a smaller parameter.
pub proof fn lemma_world_hit_closest(ss: Seq<SphereV>, r: RayV, t_min: int, t_max: int)
    ensures
        ({
            let res = world_hit_spec(ss, r, t_min, t_max);
            &&& (res is None ==> forall|i: int|
                0 <= i < ss.len() ==> sphere_hit_spec(r, #[trigger] ss[i], t_min, t_max) is None)
            &&& (res matches Some(h) ==> exists|i: int|
                0 <= i < ss.len() && sphere_hit_spec(r, #[trigger] ss[i], t_min, t_max) == Some(h))
            &&& (res matches Some(h) ==> forall|i: int|
                0 <= i < ss.len() ==> match sphere_hit_spec(r, #[trigger] ss[i], t_min, t_max) {
                    Some(g) => h.t <= g.t,
                    None => true,
                })
        }),
{
    lemma_scan_closest(ss, r, t_min, t_max, t_max, None);
}

/// The scene: a list of spheres queried by linear scan.
pub struct World {
    pub hitables: Vec<Sphere>,
}

impl World {
    /// The closest accepted hit in the open interval `(t_min, t_max)`,
    /// or nothing.
    pub fn hit(&self, r: &Ray, t_min: i64, t_max: i64) -> (res: Option<HitRecord>)
        requires
            spheres_wf(views_of(self.hitables@)),
            ray_wf(r@),
            -T_BOUND <= t_min <= T_BOUND,
            -T_BOUND <= t_max <= T_BOUND,
        ensures
            opt_hit_view(res) == world_hit_spec(
                views_of(self.hitables@),
                r@,
                t_min as int,
                t_max as int,
            ),
            res matches Some(h) ==> t_min < h.t < t_max,
            res matches Some(h) ==> bounded(h@.p, C_BOUND as int + C_BOUND as int + 448),
            res matches Some(h) ==> bounded(h@.normal, 2 * SCALE as int),
            res matches Some(h) ==> exists|j: int|
                0 <= j < self.hitables@.len() && #[trigger] views_of(self.hitables@)[j].material
                    == h@.material,
    {
        let ghost all = views_of(self.hitables@);
        proof {
            assert(all.skip(0) =~= all);
        }
        let mut closest: i64 = t_max;
        let mut best: Option<HitRecord> = None;
        let mut i: usize = 0;
        while i < self.hitables.len()
            invariant
                spheres_wf(all),
                ray_wf(r@),
                -T_BOUND <= t_min <= T_BOUND,
                -T_BOUND <= t_max <= T_BOUND,
                all == views_of(self.hitables@),
                0 <= i <= self.hitables@.len(),
                -T_BOUND <= closest <= t_max,
                scan_hits(all.skip(i as int), r@, t_min as int, closest as int, opt_hit_view(best))
                    == world_hit_spec(all, r@, t_min as int, t_max as int),
                match best {
                    Some(h) => {
                        &&& h@.t == closest
                        &&& t_min < h@.t < t_max
                        &&& bounded(h@.p, C_BOUND as int + C_BOUND as int + 448)
                        &&& bounded(h@.normal, 2 * SCALE as int)
                        &&& exists|j: int|
                            0 <= j < all.len() && #[trigger] all[j].material == h@.material
                    },
                    None => closest == t_max,
                },
            decreases self.hitables@.len() - i,
        {
            let ghost pre = all.skip(i as int);
            proof {
                assert(pre[0] == all[i as int]);
                assert(pre.skip(1) =~= all.skip(i as int + 1));
            }
            let sp = &self.hitables[i];
            match sp.hit(r, t_min, closest) {
                Some(h) => {
                    proof {
                        assert(all[i as int].material == h@.material);
                    }
                    closest = h.t;
                    best = Some(h);
                },
                None => {},
            }
            i = i + 1;
        }
        best
    }
}

} // verus!
