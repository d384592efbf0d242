//! The bounding-volume hierarchy: a balanced binary tree over the
//! sphere list, built once, queried with exact box pruning.
//!
//! The tree's leaves enumerate the sphere indices in list order, and
//! every node's box contains the (inflated) box of every sphere below
//! it.  A subtree is skipped only when the exact ray-box test fails,
//! which `lemma_hit_in_box` shows can never discard an accepted hit —
//! so the query provably returns exactly what the linear scan returns.

use crate::aabb::{
    aabb_bounded, box_hit, contains_box, lemma_hit_in_box, merge, sphere_box, sphere_box_v, Aabb,
};
use crate::fixed::SCALE;
use crate::ray::Ray;
use crate::sphere::{
    opt_hit_view, sphere_hit_spec, ray_wf, HitRecord, HitV, Sphere, SphereV, C_BOUND, T_BOUND,
};
use crate::vec3::bounded;
use crate::world::{
    lemma_scan_all_none, lemma_scan_append, scan_hits, spheres_wf, views_of, world_hit_spec,
};
use vstd::prelude::*;

verus! {

pub enum BvhNode {
    Leaf(usize),
    Node { bb: Aabb, left: Box<BvhNode>, right: Box<BvhNode> },
}

/// The sphere indices below a node, in left-to-right order.
pub open spec fn leaves_of(n: BvhNode) -> Seq<int>
    decreases n,
{
    match n {
        BvhNode::Leaf(i) => seq![i as int],
        BvhNode::Node { bb, left, right } => leaves_of(*left) + leaves_of(*right),
    }
}

/// The bounding box a node answers for.
pub open spec fn node_box(n: BvhNode, ss: Seq<SphereV>) -> crate::aabb::AabbV
    decreases n,
{
    match n {
        BvhNode::Leaf(i) => sphere_box_v(ss[i as int]),
        BvhNode::Node { bb, left, right } => bb@,
    }
}

/// Structural invariant: indices in range, and every node's box
/// contains both children's boxes.
pub open spec fn bvh_wf(n: BvhNode, ss: Seq<SphereV>) -> bool
    decreases n,
{
    match n {
        BvhNode::Leaf(i) => i < ss.len(),
        BvhNode::Node { bb, left, right } => {
            &&& bvh_wf(*left, ss)
            &&& bvh_wf(*right, ss)
            &&& contains_box(bb@, node_box(*left, ss))
            &&& contains_box(bb@, node_box(*right, ss))
            &&& aabb_bounded(bb@)
        },
    }
}

/// The spheres named by a sequence of indices.
pub open spec fn gather(ss: Seq<SphereV>, idx: Seq<int>) -> Seq<SphereV> {
    idx.map_values(|i: int| ss[i])
}

/// A well-formed node's box contains the box of every sphere below it.
pub proof fn lemma_node_covers(n: BvhNode, ss: Seq<SphereV>)
    requires
        bvh_wf(n, ss),
    ensures
        forall|k: int|
            0 <= k < leaves_of(n).len() ==> 0 <= #[trigger] leaves_of(n)[k] < ss.len()
                && contains_box(node_box(n, ss), sphere_box_v(ss[leaves_of(n)[k]])),
    decreases n,
{
    match n {
        BvhNode::Leaf(i) => {
            assert(leaves_of(n)[0] == i as int);
        },
        BvhNode::Node { bb, left, right } => {
            lemma_node_covers(*left, ss);
            lemma_node_covers(*right, ss);
            let ll = leaves_of(*left);
            let lr = leaves_of(*right);
            assert forall|k: int|
                0 <= k < leaves_of(n).len() implies 0 <= #[trigger] leaves_of(n)[k] < ss.len()
                && contains_box(node_box(n, ss), sphere_box_v(ss[leaves_of(n)[k]])) by {
                if k < ll.len() {
                    assert(leaves_of(n)[k] == ll[k]);
                    crate::aabb::lemma_contains_trans(
                        bb@,
                        node_box(*left, ss),
                        sphere_box_v(ss[ll[k]]),
                    );
                } else {
                    assert(leaves_of(n)[k] == lr[k - ll.len()]);
                    crate::aabb::lemma_contains_trans(
                        bb@,
                        node_box(*right, ss),
                        sphere_box_v(ss[lr[k - ll.len()]]),
                    );
                }
            }
        },
    }
}

/// What the traversal carries: the record found so far (if any) sits
/// exactly at the current interval end and within the scene's bounds.
pub open spec fn acc_ok(best: Option<HitV>, closest: int, t_min: int, ss: Seq<SphereV>) -> bool {
    match best {
        Some(h) => {
            &&& h.t == closest
            &&& t_min < h.t
            &&& bounded(h.p, C_BOUND as int + C_BOUND as int + 448)
            &&& bounded(h.normal, 2 * SCALE as int)
            &&& exists|j: int| 0 <= j < ss.len() && #[trigger] ss[j].material == h.material
        },
        None => true,
    }
}

/// Compute a node's box.
fn node_box_exec(n: &BvhNode, spheres: &Vec<Sphere>) -> (b: Aabb)
    requires
        bvh_wf(*n, views_of(spheres@)),
        spheres_wf(views_of(spheres@)),
    ensures
        b@ == node_box(*n, views_of(spheres@)),
        aabb_bounded(b@),
{
    match n {
        BvhNode::Leaf(i) => {
            proof {
                assert(views_of(spheres@)[*i as int] == spheres@[*i as int]@);
            }
            sphere_box(&spheres[*i])
        },
        BvhNode::Node { bb, left, right } => *bb,
    }
}

/// Build the subtree over the index range `[lo, hi)` by halving it.
fn build_rec(spheres: &Vec<Sphere>, lo: usize, hi: usize) -> (n: BvhNode)
    requires
        spheres_wf(views_of(spheres@)),
        lo < hi <= spheres@.len(),
    ensures
        bvh_wf(n, views_of(spheres@)),
        leaves_of(n) =~= Seq::new((hi - lo) as nat, |k: int| lo + k),
    decreases hi - lo,
{
    if hi - lo == 1 {
        let n = BvhNode::Leaf(lo);
        proof {
            assert(leaves_of(n) =~= Seq::new(1nat, |k: int| lo + k));
        }
        n
    } else {
        let mid = lo + (hi - lo) / 2;
        let l = build_rec(spheres, lo, mid);
        let rgt = build_rec(spheres, mid, hi);
        let bbl = node_box_exec(&l, spheres);
        let bbr = node_box_exec(&rgt, spheres);
        let bb = merge(&bbl, &bbr);
        proof {
            crate::aabb::lemma_merge_contains(bbl@, bbr@);
        }
        let n = BvhNode::Node { bb, left: Box::new(l), right: Box::new(rgt) };
        proof {
            assert(leaves_of(n) =~= Seq::new((hi - lo) as nat, |k: int| lo + k));
        }
        n
    }
}

/// Recursive query: fold the node's leaves into the accumulator,
/// skipping the whole subtree when the ray provably misses its box.
fn query_node(
    node: &BvhNode,
    spheres: &Vec<Sphere>,
    r: &Ray,
    t_min: i64,
    closest: i64,
    best: Option<HitRecord>,
) -> (res: Option<HitRecord>)
    requires
        bvh_wf(*node, views_of(spheres@)),
        spheres_wf(views_of(spheres@)),
        ray_wf(r@),
        -T_BOUND <= t_min <= T_BOUND,
        -T_BOUND <= closest <= T_BOUND,
        acc_ok(opt_hit_view(best), closest as int, t_min as int, views_of(spheres@)),
    ensures
        opt_hit_view(res) == scan_hits(
            gather(views_of(spheres@), leaves_of(*node)),
            r@,
            t_min as int,
            closest as int,
            opt_hit_view(best),
        ),
        res is None ==> best is None,
        res matches Some(h) ==> h.t <= closest,
        best is None ==> (res matches Some(h) ==> h.t < closest),
        acc_ok(
            opt_hit_view(res),
            match res {
                Some(h) => h.t as int,
                None => closest as int,
            },
            t_min as int,
            views_of(spheres@),
        ),
    decreases node,
{
    let ghost views = views_of(spheres@);
    match node {
        BvhNode::Leaf(i) => {
            let ghost gs = gather(views, leaves_of(*node));
            proof {
                assert(views[*i as int] == spheres@[*i as int]@);
                assert(gs.len() == 1);
                assert(gs[0] == views[*i as int]);
                assert(gs.skip(1).len() == 0);
            }
            match spheres[*i].hit(r, t_min, closest) {
                Some(h) => {
                    proof {
                        assert(views[*i as int].material == h@.material);
                        assert(sphere_hit_spec(r@, gs[0], t_min as int, closest as int) == Some(
                            h@,
                        ));
                        assert(scan_hits(gs, r@, t_min as int, closest as int, opt_hit_view(best))
                            == scan_hits(gs.skip(1), r@, t_min as int, h@.t, Some(h@)));
                    }
                    Some(h)
                },
                None => {
                    proof {
                        assert(sphere_hit_spec(r@, gs[0], t_min as int, closest as int)
                            is None);
                        assert(scan_hits(gs, r@, t_min as int, closest as int, opt_hit_view(best))
                            == scan_hits(
                            gs.skip(1),
                            r@,
                            t_min as int,
                            closest as int,
                            opt_hit_view(best),
                        ));
                    }
                    best
                },
            }
        },
        BvhNode::Node { bb, left, right } => {
            if !box_hit(bb, r, t_min, closest) {
                proof {
                    lemma_node_covers(*node, views);
                    let idx = leaves_of(*node);
                    let gs = gather(views, idx);
                    assert forall|k: int| 0 <= k < gs.len() implies sphere_hit_spec(
                        r@,
                        #[trigger] gs[k],
                        t_min as int,
                        closest as int,
                    ) is None by {
                        assert(gs[k] == views[idx[k]]);
                        assert(contains_box(bb@, sphere_box_v(views[idx[k]])));
                        if sphere_hit_spec(r@, gs[k], t_min as int, closest as int) is Some {
                            lemma_hit_in_box(
                                r@,
                                gs[k],
                                bb@,
                                t_min as int,
                                closest as int,
                            );
                            assert(false);
                        }
                    }
                    lemma_scan_all_none(
                        gs,
                        r@,
                        t_min as int,
                        closest as int,
                        opt_hit_view(best),
                    );
                }
                best
            } else {
                let res_l = query_node(left, spheres, r, t_min, closest, best);
                let c2 = match &res_l {
                    Some(h) => h.t,
                    None => closest,
                };
                let res = query_node(right, spheres, r, t_min, c2, res_l);
                proof {
                    let gl = gather(views, leaves_of(**left));
                    let gr = gather(views, leaves_of(**right));
                    assert(gather(views, leaves_of(*node)) =~= gl + gr);
                    lemma_scan_append(
                        gl,
                        gr,
                        r@,
                        t_min as int,
                        closest as int,
                        opt_hit_view(best),
                    );
                }
                res
            }
        },
    }
}

/// The accelerated scene index.
pub struct Bvh {
    root: Option<BvhNode>,
}

/// The tree indexes the whole list, in order.
pub closed spec fn bvh_full_wf(b: Bvh, ss: Seq<SphereV>) -> bool {
    match b.root {
        None => ss.len() == 0,
        Some(n) => bvh_wf(n, ss) && leaves_of(n) =~= Seq::new(ss.len(), |k: int| k),
    }
}

impl Bvh {
    pub closed spec fn root_of(self) -> Option<BvhNode> {
        self.root
    }

    /// Build the index over a sphere list.
    pub fn build(spheres: &Vec<Sphere>) -> (b: Bvh)
        requires
            spheres_wf(views_of(spheres@)),
        ensures
            bvh_full_wf(b, views_of(spheres@)),
    {
        if spheres.len() == 0 {
            Bvh { root: None }
        } else {
            let n = build_rec(spheres, 0, spheres.len());
            Bvh { root: Some(n) }
        }
    }

    /// The closest accepted hit in the open interval `(t_min, t_max)`:
    /// exactly what the linear scan of the same list returns.
    pub fn hit(&self, spheres: &Vec<Sphere>, r: &Ray, t_min: i64, t_max: i64) -> (res: Option<
        HitRecord,
    >)
        requires
            bvh_full_wf(*self, views_of(spheres@)),
            spheres_wf(views_of(spheres@)),
            ray_wf(r@),
            -T_BOUND <= t_min <= T_BOUND,
            -T_BOUND <= t_max <= T_BOUND,
        ensures
            opt_hit_view(res) == world_hit_spec(
                views_of(spheres@),
                r@,
                t_min as int,
                t_max as int,
            ),
            res matches Some(h) ==> t_min < h.t < t_max,
            res matches Some(h) ==> bounded(h@.p, C_BOUND as int + C_BOUND as int + 448),
            res matches Some(h) ==> bounded(h@.normal, 2 * SCALE as int),
            res matches Some(h) ==> exists|j: int|
                0 <= j < spheres@.len() && #[trigger] views_of(spheres@)[j].material
                    == h@.material,
    {
        let ghost views = views_of(spheres@);
        match &self.root {
            None => {
                proof {
                    assert(views.len() == 0);
                }
                None
            },
            Some(n) => {
                let res = query_node(n, spheres, r, t_min, t_max, None);
                proof {
                    assert(gather(views, leaves_of(*n)) =~= views);
                }
                res
            },
        }
    }
}

} // verus!
