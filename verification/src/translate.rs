//! An object moved by a fixed offset.

use crate::aabb::Aabb;
use crate::hittable::{bounded_by, faithful, is_closest, reports, HitRecord, Hittable};
use crate::ray::Ray;
use crate::vec3::Vec3;
use vstd::prelude::*;

verus! {

/// `ray` as it looks from an object that was moved by `offset`.
pub open spec fn moved_back(ray: Ray, offset: Vec3) -> Ray {
    Ray { orig: ray.orig.minus(offset), dir: ray.dir, time: ray.time }
}

/// `inner` with the point that is met moved by `offset`.
pub open spec fn moved_hit<'a, M>(inner: Option<HitRecord<'a, M>>, offset: Vec3) -> Option<
    HitRecord<'a, M>,
> {
    match inner {
        Some(h) => Some(
            HitRecord {
                t: h.t,
                u: h.u,
                v: h.v,
                p: h.p.plus(offset),
                normal: h.normal,
                material: h.material,
            },
        ),
        None => None,
    }
}

/// `inner` with both corners moved by `offset`.
pub open spec fn moved_box(inner: Option<Aabb>, offset: Vec3) -> Option<Aabb> {
    match inner {
        Some(b) => Some(Aabb { min: b.min.plus(offset), max: b.max.plus(offset) }),
        None => None,
    }
}

/// An object moved by a fixed offset.
pub struct Translate<H: Hittable> {
    pub hittable: H,
    pub offset: Vec3,
}

impl<H: Hittable> Translate<H> {
    pub fn new(hittable: H, offset: Vec3) -> (r: Self)
        ensures
            r.hittable == hittable,
            r.offset == offset,
    {
        Translate { hittable, offset }
    }
}

impl<H: Hittable> Hittable for Translate<H> {
    type Surface = H::Surface;

    /// Asks the wrapped object with the ray moved back by the offset, and
    /// moves the point that is met forward by it.
    fn hit<'a>(&'a self, ray: &Ray, t_min: i64, t_max: i64) -> (r: Option<
        HitRecord<'a, H::Surface>,
    >)
        ensures
            exists|inner: Option<HitRecord<'a, H::Surface>>|
                #[trigger] reports(
                    self.hittable,
                    moved_back(*ray, self.offset),
                    t_min,
                    t_max,
                    inner,
                ) && r == moved_hit(inner, self.offset),
    {
        let moved_ray = Ray::new(ray.origin().sub(&self.offset), ray.direction(), ray.time());
        let inner = self.hittable.hit(&moved_ray, t_min, t_max);
        assert(reports(self.hittable, moved_back(*ray, self.offset), t_min, t_max, inner));
        match inner {
            Some(h) => Some(
                HitRecord {
                    t: h.t,
                    u: h.u,
                    v: h.v,
                    p: h.p.add(&self.offset),
                    normal: h.normal,
                    material: h.material,
                },
            ),
            None => None,
        }
    }

    /// The envelope of the wrapped object, moved by the offset.
    fn bounding_box(&self, t0: i64, t1: i64) -> (r: Option<Aabb>)
        ensures
            exists|inner: Option<Aabb>|
                #[trigger] bounded_by(self.hittable, t0, t1, inner) && r == moved_box(
                    inner,
                    self.offset,
                ),
    {
        let inner = self.hittable.bounding_box(t0, t1);
        assert(bounded_by(self.hittable, t0, t1, inner));
        match inner {
            Some(b) => Some(Aabb { min: b.min.add(&self.offset), max: b.max.add(&self.offset) }),
            None => None,
        }
    }
}

/// Moving a box keeps it well formed, and keeps what it encloses enclosed.
pub proof fn lemma_moved_box_monotone(a: Aabb, b: Aabb, offset: Vec3)
    ensures
        a.well_formed() ==> moved_box(Some(a), offset).unwrap().well_formed(),
        a.encloses(b) ==> moved_box(Some(a), offset).unwrap().encloses(
            moved_box(Some(b), offset).unwrap(),
        ),
{
}

/// Within the range of the lattice, moving a point by an offset and back
/// again by the same offset leaves it where it was.
pub proof fn lemma_move_and_back(p: Vec3, offset: Vec3)
    requires
        i64::MIN <= p.x + offset.x <= i64::MAX,
        i64::MIN <= p.y + offset.y <= i64::MAX,
        i64::MIN <= p.z + offset.z <= i64::MAX,
    ensures
        p.plus(offset).minus(offset) == p,
{
}

/// A moved object has its surfaces where the ray that is moved back meets
/// the object itself.
pub proof fn lemma_translate_faithful<H: Hittable>(
    moved: Translate<H>,
    ray: Ray,
    meets: spec_fn(i64) -> bool,
)
    requires
        faithful(moved.hittable, moved_back(ray, moved.offset), meets),
    ensures
        faithful(moved, ray, meets),
{
    assert forall|t_min: i64, t_max: i64, r: Option<HitRecord<'_, H::Surface>>| #[trigger]
        reports(moved, ray, t_min, t_max, r) implies is_closest(meets, t_min, t_max, r) by {
        let inner = choose|inner: Option<HitRecord<'_, H::Surface>>|
            #[trigger] reports(
                moved.hittable,
                moved_back(ray, moved.offset),
                t_min,
                t_max,
                inner,
            ) && r == moved_hit(inner, moved.offset);
        assert(is_closest(meets, t_min, t_max, inner));
    }
}

} // verus!
