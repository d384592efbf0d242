//! The scene: spheres, their materials, and the spatial index built
//! over them once after construction.

use crate::bvh::{bvh_full_wf, Bvh};
use crate::camera::{camera_new_spec, camera_wf, Camera};
use crate::fixed::{div_floor, floor_div, SCALE};
use crate::material::{material_wf, Material, MaterialV};
use crate::rng::Rng;
use crate::sphere::{sphere_wf, Sphere, SphereV};
use crate::vec3::{cross_v, len_fx, norm2_raw, sub_v, unit_v, zero_v, Vec3, V3};
use crate::world::{spheres_wf, views_of};
use vstd::arithmetic::div_mod::{lemma_div_by_multiple, lemma_div_non_zero};
use vstd::prelude::*;

verus! {

/// The views of a list of materials.
pub open spec fn mat_views(s: Seq<Material>) -> Seq<MaterialV> {
    s.map_values(|m: Material| m@)
}

/// A renderable scene: the sphere list, the materials they index into,
/// and the bounding-volume tree over the list.
pub struct Scene {
    pub spheres: Vec<Sphere>,
    pub materials: Vec<Material>,
    pub bvh: Bvh,
}

/// The scene invariant: all geometry and materials well-formed, every
/// sphere's material index valid, and the tree indexing exactly the
/// sphere list.
pub open spec fn scene_wf(s: Scene) -> bool {
    &&& spheres_wf(views_of(s.spheres@))
    &&& bvh_full_wf(s.bvh, views_of(s.spheres@))
    &&& forall|i: int|
        0 <= i < s.materials@.len() ==> material_wf(#[trigger] mat_views(s.materials@)[i])
    &&& forall|i: int|
        0 <= i < s.spheres@.len() ==> 0 <= #[trigger] views_of(s.spheres@)[i].material
            < s.materials@.len()
}

impl Scene {
    /// Assemble a scene and build its index.
    pub fn new(spheres: Vec<Sphere>, materials: Vec<Material>) -> (s: Scene)
        requires
            spheres_wf(views_of(spheres@)),
            forall|i: int|
                0 <= i < materials@.len() ==> material_wf(#[trigger] mat_views(materials@)[i]),
            forall|i: int|
                0 <= i < spheres@.len() ==> 0 <= #[trigger] views_of(spheres@)[i].material
                    < materials@.len(),
        ensures
            scene_wf(s),
            s.spheres@ == spheres@,
            s.materials@ == materials@,
    {
        let bvh = Bvh::build(&spheres);
        Scene { spheres, materials, bvh }
    }
}

/// The gallery scene's spheres, in order: the large ground sphere and
/// three unit spheres in a row, each with its own material slot.
pub open spec fn gallery_spheres() -> Seq<SphereV> {
    seq![
        SphereV { center: V3 { x: 0, y: -4096000, z: 0 }, radius: 4096000, material: 0 },
        SphereV { center: V3 { x: -8192, y: 4096, z: 0 }, radius: 4096, material: 1 },
        SphereV { center: V3 { x: 0, y: 4096, z: 0 }, radius: 4096, material: 2 },
        SphereV { center: V3 { x: 8192, y: 4096, z: 0 }, radius: 4096, material: 3 },
    ]
}

/// The gallery scene's materials, in order.
pub open spec fn gallery_materials() -> Seq<MaterialV> {
    seq![
        MaterialV::Lambertian { albedo: V3 { x: 410, y: 2048, z: 2048 } },
        MaterialV::Dielectric { ref_idx: 6144 },
        MaterialV::Lambertian { albedo: V3 { x: 4096, y: 0, z: 0 } },
        MaterialV::Lambertian { albedo: V3 { x: 0, y: 4096, z: 0 } },
    ]
}

/// The point of the randomized field that small spheres keep clear of
/// (where the large metal sphere stands).
pub open spec fn field_marker() -> V3 {
    V3 { x: 16384, y: 819, z: 0 }
}

/// A small sphere of the randomized field: radius and height fixed at
/// a fifth of a unit, fixed-point squared distance from the marker
/// above 0.81, and a material slot of its own.
pub open spec fn field_sphere_ok(s: SphereV, i: int) -> bool {
    &&& s.radius == 819
    &&& s.center.y == 819
    &&& div_floor(norm2_raw(sub_v(s.center, field_marker())), SCALE as int) > 3318
    &&& s.material == i
}

/// The forward axis of a camera looking from `lf` toward `la` has a
/// positive vertical cross product with the world up vector whenever
/// the offset points along positive `z` strongly enough; this
/// discharges the camera's basis preconditions for the built scenes.
proof fn lemma_camera_basis(lf: V3, la: V3, n2: int, len_hi: int)
    requires
        sub_v(lf, la) != zero_v(),
        norm2_raw(sub_v(lf, la)) == n2,
        0 < sub_v(lf, la).z,
        sub_v(lf, la).z * SCALE >= len_hi,
        1 <= len_hi,
        n2 <= len_hi * len_hi,
    ensures
        cross_v(V3 { x: 0, y: SCALE as int, z: 0 }, unit_v(sub_v(lf, la))) != zero_v(),
{
    let d = sub_v(lf, la);
    crate::vec3::lemma_nonzero_len(d);
    let ln = crate::vec3::len_fx(d);
    crate::fixed::lemma_sqrt_exists(n2 as nat);
    let w0 = choose|w0: int| 0 <= w0 && #[trigger] (w0 * w0) <= n2 < (w0 + 1) * (w0 + 1);
    crate::fixed::lemma_sqrt_unique(n2, w0);
    crate::fixed::lemma_sq_le(ln, len_hi);
    let wz = div_floor(d.z * SCALE, ln);
    lemma_div_non_zero(d.z * SCALE, ln);
    let up = V3 { x: 0, y: SCALE as int, z: 0 };
    let w = unit_v(d);
    assert(0 * w.y == 0) by (nonlinear_arith);
    assert(cross_v(up, w).x == div_floor(SCALE * w.z, SCALE as int));
    assert(SCALE * w.z == w.z * SCALE) by (nonlinear_arith);
    lemma_div_by_multiple(w.z, SCALE as int);
    assert(cross_v(up, w).x == w.z);
    assert(w.z >= 1);
}

/// A small fixed gallery: a large ground sphere and three unit spheres
/// in a row, seen from slightly above through a pinhole.  With a zero
/// aperture the focus distance only scales the image-plane frame,
/// which the normalized ray directions cancel, so the frame is placed
/// at the camera budget's far cap.
pub fn structured_art_scene(aspect: i64) -> (r: (Scene, Camera))
    requires
        0 < aspect <= 2 * SCALE,
    ensures
        scene_wf(r.0),
        camera_wf(r.1@),
        views_of(r.0.spheres@) =~= gallery_spheres(),
        mat_views(r.0.materials@) =~= gallery_materials(),
        r.1@ == camera_new_spec(
            (V3 { x: 0, y: 4096, z: 32768 }),
            (V3 { x: 0, y: 4096, z: -4096 }),
            (V3 { x: 0, y: 4096, z: 0 }),
            908,
            aspect as int,
            0,
            0x800000,
        ),
{
    let mut materials: Vec<Material> = Vec::new();
    materials.push(Material::lambertian(Vec3 { x: 410, y: 2048, z: 2048 }));
    materials.push(Material::dielectric(6144));
    materials.push(Material::lambertian(Vec3 { x: 4096, y: 0, z: 0 }));
    materials.push(Material::lambertian(Vec3 { x: 0, y: 4096, z: 0 }));
    let mut spheres: Vec<Sphere> = Vec::new();
    spheres.push(Sphere::new(Vec3 { x: 0, y: -4096000, z: 0 }, 4096000, 0));
    spheres.push(Sphere::new(Vec3 { x: -8192, y: 4096, z: 0 }, 4096, 1));
    spheres.push(Sphere::new(Vec3 { x: 0, y: 4096, z: 0 }, 4096, 2));
    spheres.push(Sphere::new(Vec3 { x: 8192, y: 4096, z: 0 }, 4096, 3));
    let look_from = Vec3 { x: 0, y: 4096, z: 32768 };
    let look_at = Vec3 { x: 0, y: 4096, z: -4096 };
    proof {
        let d = sub_v(look_from@, look_at@);
        assert(d.z == 36864);
        assert(d.x * d.x + d.y * d.y + d.z * d.z == 36864int * 36864) by (nonlinear_arith)
            requires
                d.x == 0,
                d.y == 0,
                d.z == 36864,
        ;
        assert(norm2_raw(d) == 36864int * 36864);
        assert(d.z * SCALE >= 36864 && 1 <= 36864int && 36864int * 36864 <= 36864int * 36864)
            by (nonlinear_arith)
            requires
                d.z == 36864,
                SCALE == 4096,
        ;
        lemma_camera_basis(look_from@, look_at@, 36864int * 36864, 36864);
    }
    let camera = Camera::new(
        &look_from,
        &look_at,
        &Vec3 { x: 0, y: 4096, z: 0 },
        908,
        aspect,
        0,
        0x800000,
    );
    proof {
        assert(views_of(spheres@) =~= gallery_spheres());
        assert(mat_views(materials@) =~= gallery_materials());
        assert forall|i: int| 0 <= i < views_of(spheres@).len() implies sphere_wf(
            #[trigger] views_of(spheres@)[i],
        ) by {
        }
        assert forall|i: int| 0 <= i < materials@.len() implies material_wf(
            #[trigger] mat_views(materials@)[i],
        ) by {
        }
    }
    (Scene::new(spheres, materials), camera)
}

/// A field of small spheres with randomized positions and materials
/// around three large fixed spheres, seen through a thin lens focused
/// on the scene center.  Each small sphere's albedo channels are
/// products of unit samples for a diffuse pick, or half plus half a
/// unit sample for a metal pick; a metal's fuzz follows the same
/// half-up rule, keeping it within the material model's unit cap.
pub fn random_scene(aspect: i64, seed: u64) -> (r: (Scene, Camera))
    requires
        0 < aspect <= 2 * SCALE,
    ensures
        scene_wf(r.0),
        camera_wf(r.1@),
        ({
            let ss = views_of(r.0.spheres@);
            let ms = mat_views(r.0.materials@);
            let n = ss.len() as int;
            &&& 4 <= n <= 533
            &&& ms.len() == n
            &&& ss[0] == (SphereV {
                center: V3 { x: 0, y: -4096000, z: 0 },
                radius: 4096000,
                material: 0,
            })
            &&& ms[0] == (MaterialV::Lambertian { albedo: V3 { x: 2048, y: 2048, z: 2048 } })
            &&& forall|i: int| 1 <= i < n - 3 ==> field_sphere_ok(#[trigger] ss[i], i)
            &&& ss[n - 3] == (SphereV {
                center: V3 { x: 0, y: 4096, z: 0 },
                radius: 4096,
                material: n - 3,
            })
            &&& ms[n - 3] == (MaterialV::Dielectric { ref_idx: 6144 })
            &&& ss[n - 2] == (SphereV {
                center: V3 { x: -16384, y: 4096, z: 0 },
                radius: 4096,
                material: n - 2,
            })
            &&& ms[n - 2] == (MaterialV::Lambertian { albedo: V3 { x: 1638, y: 819, z: 410 } })
            &&& ss[n - 1] == (SphereV {
                center: V3 { x: 16384, y: 4096, z: 0 },
                radius: 4096,
                material: n - 1,
            })
            &&& ms[n - 1] == (MaterialV::Metal {
                albedo: V3 { x: 2867, y: 2458, z: 2048 },
                fuzz: 0,
            })
        }),
        r.1@ == camera_new_spec(
            (V3 { x: 40960, y: 8192, z: 12288 }),
            (V3 { x: 0, y: 0, z: -4096 }),
            (V3 { x: 0, y: 4096, z: 0 }),
            908,
            aspect as int,
            410,
            len_fx(
                sub_v((V3 { x: 40960, y: 8192, z: 12288 }), (V3 { x: 0, y: 0, z: -4096 })),
            ),
        ),
{
    let mut rng = Rng::new(seed);
    let mut materials: Vec<Material> = Vec::new();
    materials.push(Material::lambertian(Vec3 { x: 2048, y: 2048, z: 2048 }));
    let mut spheres: Vec<Sphere> = Vec::new();
    spheres.push(Sphere::new(Vec3 { x: 0, y: -4096000, z: 0 }, 4096000, 0));
    let mut a: i64 = 0;
    while a < 23
        invariant
            0 <= a <= 23,
            spheres_wf(views_of(spheres@)),
            forall|i: int|
                0 <= i < materials@.len() ==> material_wf(#[trigger] mat_views(materials@)[i]),
            forall|i: int|
                0 <= i < spheres@.len() ==> 0 <= #[trigger] views_of(spheres@)[i].material
                    < materials@.len(),
            spheres@.len() >= 1,
            spheres@.len() == materials@.len(),
            spheres@.len() <= 1 + 23 * a,
            views_of(spheres@)[0] == (SphereV {
                center: V3 { x: 0, y: -4096000, z: 0 },
                radius: 4096000,
                material: 0,
            }),
            mat_views(materials@)[0] == (MaterialV::Lambertian {
                albedo: V3 { x: 2048, y: 2048, z: 2048 },
            }),
            forall|i: int|
                1 <= i < spheres@.len() ==> field_sphere_ok(
                    #[trigger] views_of(spheres@)[i],
                    i,
                ),
        decreases 23 - a,
    {
        let mut b: i64 = 0;
        while b < 23
            invariant
                0 <= a < 23,
                0 <= b <= 23,
                spheres_wf(views_of(spheres@)),
                forall|i: int|
                    0 <= i < materials@.len() ==> material_wf(
                        #[trigger] mat_views(materials@)[i],
                    ),
                forall|i: int|
                    0 <= i < spheres@.len() ==> 0 <= #[trigger] views_of(spheres@)[i].material
                        < materials@.len(),
                spheres@.len() >= 1,
                spheres@.len() == materials@.len(),
                spheres@.len() <= 1 + 23 * a + b,
                views_of(spheres@)[0] == (SphereV {
                    center: V3 { x: 0, y: -4096000, z: 0 },
                    radius: 4096000,
                    material: 0,
                }),
                mat_views(materials@)[0] == (MaterialV::Lambertian {
                    albedo: V3 { x: 2048, y: 2048, z: 2048 },
                }),
                forall|i: int|
                    1 <= i < spheres@.len() ==> field_sphere_ok(
                        #[trigger] views_of(spheres@)[i],
                        i,
                    ),
            decreases 23 - b,
        {
            let choose_mat = rng.next_unit();
            let cx = (a - 11) * SCALE + 3686 + rng.next_unit();
            let cz = (b - 11) * SCALE + 3686 + rng.next_unit();
            let center = Vec3 { x: cx, y: 819, z: cz };
            let off = center.sub(&Vec3 { x: 16384, y: 819, z: 0 });
            if off.squared_length() > 3318 {
                let idx = materials.len();
                let ghost mats0 = materials@;
                let ghost sphs0 = spheres@;
                if choose_mat < 3277 {
                    let c1 = crate::fixed::fmul(rng.next_unit(), rng.next_unit());
                    let c2 = crate::fixed::fmul(rng.next_unit(), rng.next_unit());
                    let c3 = crate::fixed::fmul(rng.next_unit(), rng.next_unit());
                    let albedo = Vec3 { x: clamp_unit(c1), y: clamp_unit(c2), z: clamp_unit(c3) };
                    materials.push(Material::lambertian(albedo));
                } else if choose_mat < 3891 {
                    let c1 = half_up(rng.next_unit());
                    let c2 = half_up(rng.next_unit());
                    let c3 = half_up(rng.next_unit());
                    let fz = half_up(rng.next_unit());
                    materials.push(
                        Material::metal(Vec3 { x: c1, y: c2, z: c3 }, fz),
                    );
                } else {
                    materials.push(Material::dielectric(6144));
                }
                spheres.push(Sphere::new(center, 819, idx));
                proof {
                    assert(materials@ =~= mats0.push(materials@.last()));
                    assert forall|i: int| 0 <= i < materials@.len() implies material_wf(
                        #[trigger] mat_views(materials@)[i],
                    ) by {
                        if i < mats0.len() {
                            assert(mat_views(materials@)[i] == mat_views(mats0)[i]);
                        }
                    }
                    assert forall|i: int| 0 <= i < spheres@.len() implies sphere_wf(
                        #[trigger] views_of(spheres@)[i],
                    ) && 0 <= views_of(spheres@)[i].material < materials@.len() by {
                        if i < sphs0.len() {
                            assert(views_of(spheres@)[i] == views_of(sphs0)[i]);
                        }
                    }
                    assert(views_of(spheres@)[sphs0.len() as int] == (SphereV {
                        center: center@,
                        radius: 819,
                        material: idx as int,
                    }));
                    assert(field_sphere_ok(views_of(spheres@)[sphs0.len() as int],
                        sphs0.len() as int));
                    assert forall|i: int| 1 <= i < spheres@.len() implies field_sphere_ok(
                        #[trigger] views_of(spheres@)[i],
                        i,
                    ) by {
                        if i < sphs0.len() {
                            assert(views_of(spheres@)[i] == views_of(sphs0)[i]);
                        }
                    }
                }
            }
            b = b + 1;
        }
        a = a + 1;
    }
    let idx = materials.len();
    let ghost mats0 = materials@;
    let ghost sphs0 = spheres@;
    materials.push(Material::dielectric(6144));
    spheres.push(Sphere::new(Vec3 { x: 0, y: 4096, z: 0 }, 4096, idx));
    materials.push(Material::lambertian(Vec3 { x: 1638, y: 819, z: 410 }));
    spheres.push(Sphere::new(Vec3 { x: -16384, y: 4096, z: 0 }, 4096, idx + 1));
    materials.push(Material::metal(Vec3 { x: 2867, y: 2458, z: 2048 }, 0));
    spheres.push(Sphere::new(Vec3 { x: 16384, y: 4096, z: 0 }, 4096, idx + 2));
    proof {
        assert forall|i: int| 0 <= i < materials@.len() implies material_wf(
            #[trigger] mat_views(materials@)[i],
        ) by {
            if i < mats0.len() {
                assert(mat_views(materials@)[i] == mat_views(mats0)[i]);
            }
        }
        assert forall|i: int| 0 <= i < spheres@.len() implies sphere_wf(
            #[trigger] views_of(spheres@)[i],
        ) && 0 <= views_of(spheres@)[i].material < materials@.len() by {
            if i < sphs0.len() {
                assert(views_of(spheres@)[i] == views_of(sphs0)[i]);
            }
        }
        assert(views_of(spheres@)[0] == views_of(sphs0)[0]);
        assert(mat_views(materials@)[0] == mat_views(mats0)[0]);
        assert forall|i: int| 1 <= i < spheres@.len() - 3 implies field_sphere_ok(
            #[trigger] views_of(spheres@)[i],
            i,
        ) by {
            assert(views_of(spheres@)[i] == views_of(sphs0)[i]);
        }
    }
    let look_from = Vec3 { x: 40960, y: 8192, z: 12288 };
    let look_at = Vec3 { x: 0, y: 0, z: -4096 };
    proof {
        let d = sub_v(look_from@, look_at@);
        assert(d.z == 16384);
        assert(d.x * d.x + d.y * d.y + d.z * d.z == 2013265920) by (nonlinear_arith)
            requires
                d.x == 40960,
                d.y == 8192,
                d.z == 16384,
        ;
        assert(norm2_raw(d) == 2013265920);
        assert(d.z * SCALE >= 46341) by (nonlinear_arith)
            requires
                d.z == 16384,
                SCALE == 4096,
        ;
        assert(2013265920 <= 46341int * 46341) by (nonlinear_arith);
        lemma_camera_basis(look_from@, look_at@, 2013265920, 46341);
    }
    let d = look_from.sub(&look_at);
    let focus = d.length();
    proof {
        crate::fixed::lemma_sq_le(crate::vec3::len_fx(d@), 46341);
        crate::vec3::lemma_nonzero_len(d@);
    }
    let camera = Camera::new(
        &look_from,
        &look_at,
        &Vec3 { x: 0, y: 4096, z: 0 },
        908,
        aspect,
        410,
        focus,
    );
    (Scene::new(spheres, materials), camera)
}

/// Midpoint of one and a unit sample: uniform in `[1/2, 1)`.
fn half_up(r: i64) -> (c: i64)
    requires
        0 <= r < SCALE,
    ensures
        0 <= c <= SCALE,
{
    (floor_div((SCALE + r) as i128, 2) as i64)
}

/// Clamp a channel into `[0, 1]`.
fn clamp_unit(x: i64) -> (r: i64)
    ensures
        0 <= r <= SCALE,
{
    if x < 0 {
        0
    } else if x > SCALE {
        SCALE
    } else {
        x
    }
}

} // verus!
