//! An object turned round.

use crate::aabb::{surrounding, surrounding_box, Aabb};
use crate::hittable::{bounded_by, faithful, is_closest, reports, HitRecord, Hittable};
use crate::ray::Ray;
use crate::vec3::Vec3;
use vstd::prelude::*;

verus! {

/// The corner number `n` of a box: from the lowest bit of `n` upwards, a bit
/// that is set takes the greatest corner on the first, the second and the
/// third axis, one that is not set the least.
pub open spec fn corner(b: Aabb, n: int) -> Vec3 {
    Vec3 {
        x: if n % 2 == 1 {
            b.max.x
        } else {
            b.min.x
        },
        y: if (n / 2) % 2 == 1 {
            b.max.y
        } else {
            b.min.y
        },
        z: if (n / 4) % 2 == 1 {
            b.max.z
        } else {
            b.min.z
        },
    }
}

/// The least box that holds all the points.
pub open spec fn hull(points: Seq<Vec3>) -> Aabb
    decreases points.len(),
{
    if points.len() <= 1 {
        Aabb { min: points.first(), max: points.first() }
    } else {
        surrounding(hull(points.drop_last()), Aabb { min: points.last(), max: points.last() })
    }
}

/// `images` holds what `turn` may make of the eight corners of `b`.
pub open spec fn turned_corners<T: Fn(Vec3) -> Vec3>(b: Aabb, turn: T, images: Seq<Vec3>) -> bool {
    &&& images.len() == 8
    &&& forall|n: int| 0 <= n < 8 ==> call_ensures(turn, (corner(b, n),), #[trigger] images[n])
}

/// `ray` as `turn` makes it: its origin and its direction are turned, its
/// moment is kept.
pub open spec fn turned_ray<T: Fn(Vec3) -> Vec3>(turn: T, ray: Ray, r: Ray) -> bool {
    &&& call_ensures(turn, (ray.orig,), r.orig)
    &&& call_ensures(turn, (ray.dir,), r.dir)
    &&& r.time == ray.time
}

/// `r` is `inner` as `turn` makes it: the point that is met and the normal
/// are turned, the rest is kept.
pub open spec fn turned_hit<'a, M, T: Fn(Vec3) -> Vec3>(
    turn: T,
    inner: Option<HitRecord<'a, M>>,
    r: Option<HitRecord<'a, M>>,
) -> bool {
    match inner {
        Some(h) => r matches Some(g) && {
            &&& g.t == h.t
            &&& g.u == h.u
            &&& g.v == h.v
            &&& g.material == h.material
            &&& call_ensures(turn, (h.p,), g.p)
            &&& call_ensures(turn, (h.normal,), g.normal)
        },
        None => r is None,
    }
}

/// The corner number `n` of a box.
pub fn corner_of(b: &Aabb, n: usize) -> (r: Vec3)
    requires
        n < 8,
    ensures
        r == corner(*b, n as int),
{
    Vec3 {
        x: if n % 2 == 1 {
            b.max.x
        } else {
            b.min.x
        },
        y: if (n / 2) % 2 == 1 {
            b.max.y
        } else {
            b.min.y
        },
        z: if (n / 4) % 2 == 1 {
            b.max.z
        } else {
            b.min.z
        },
    }
}

/// An object turned round.  What turns a vector from the space of the scene
/// into the space of the object, and what turns it back, are given as
/// functions.
pub struct Rotate<H: Hittable, T: Fn(Vec3) -> Vec3, U: Fn(Vec3) -> Vec3> {
    hittable: H,
    inward: T,
    outward: U,
    bbox: Option<Aabb>,
}

impl<H: Hittable, T: Fn(Vec3) -> Vec3, U: Fn(Vec3) -> Vec3> Rotate<H, T, U> {
    #[verifier::type_invariant]
    spec fn turns_are_total(self) -> bool {
        &&& forall|v: Vec3| call_requires(self.inward, (v,))
        &&& forall|v: Vec3| call_requires(self.outward, (v,))
    }

    /// The object that is turned.
    pub closed spec fn inner(self) -> H {
        self.hittable
    }

    /// What turns a vector into the space of the object.
    pub closed spec fn to_object(self) -> T {
        self.inward
    }

    /// What turns a vector back into the space of the scene.
    pub closed spec fn to_scene(self) -> U {
        self.outward
    }

    /// The envelope of the turned object.
    pub closed spec fn envelope(self) -> Option<Aabb> {
        self.bbox
    }

    /// The object `hittable` turned round.  `inward` turns a vector from the
    /// space of the scene into that of the object, `outward` turns it back.
    /// The envelope of the turned object is the least box round the eight
    /// corners of the envelope of the object between the moments `t0` and
    /// `t1`, each turned into the scene.
    pub fn new(hittable: H, inward: T, outward: U, t0: i64, t1: i64) -> (r: Self)
        requires
            forall|v: Vec3| call_requires(inward, (v,)),
            forall|v: Vec3| call_requires(outward, (v,)),
        ensures
            r.inner() == hittable,
            r.to_object() == inward,
            r.to_scene() == outward,
            exists|own: Option<Aabb>|
                {
                    &&& #[trigger] bounded_by(hittable, t0, t1, own)
                    &&& match own {
                        Some(b) => exists|images: Seq<Vec3>|
                            #[trigger] turned_corners(b, outward, images) && r.envelope() == Some(
                                hull(images),
                            ),
                        None => r.envelope() is None,
                    }
                },
    {
        let own = hittable.bounding_box(t0, t1);
        assert(bounded_by(hittable, t0, t1, own));
        let bbox = match own {
            Some(b) => {
                let first = outward(corner_of(&b, 0));
                let mut acc = Aabb { min: first, max: first };
                let ghost mut images: Seq<Vec3> = seq![first];
                let mut n: usize = 1;
                while n < 8
                    invariant
                        1 <= n <= 8,
                        images.len() == n,
                        forall|v: Vec3| call_requires(outward, (v,)),
                        forall|m: int|
                            0 <= m < n ==> call_ensures(
                                outward,
                                (corner(b, m),),
                                #[trigger] images[m],
                            ),
                        acc == hull(images),
                    decreases 8 - n,
                {
                    let image = outward(corner_of(&b, n));
                    proof {
                        let longer = images.push(image);
                        assert(longer.drop_last() == images);
                        images = longer;
                    }
                    acc = surrounding_box(&acc, &Aabb { min: image, max: image });
                    n += 1;
                }
                assert(turned_corners(b, outward, images));
                Some(acc)
            },
            None => None,
        };
        Rotate { hittable, inward, outward, bbox }
    }
}

impl<H: Hittable, T: Fn(Vec3) -> Vec3, U: Fn(Vec3) -> Vec3> Hittable for Rotate<H, T, U> {
    type Surface = H::Surface;

    /// Asks the object with the ray turned into its space, and turns the
    /// point that is met and the normal back into the scene.
    fn hit<'a>(&'a self, ray: &Ray, t_min: i64, t_max: i64) -> (r: Option<
        HitRecord<'a, H::Surface>,
    >)
        ensures
            exists|turned: Ray, inner: Option<HitRecord<'a, H::Surface>>|
                {
                    &&& turned_ray(self.to_object(), *ray, turned)
                    &&& #[trigger] reports(self.inner(), turned, t_min, t_max, inner)
                    &&& turned_hit(self.to_scene(), inner, r)
                },
    {
        proof {
            use_type_invariant(self);
        }
        let turned = Ray::new(
            (self.inward)(ray.origin()),
            (self.inward)(ray.direction()),
            ray.time(),
        );
        let inner = self.hittable.hit(&turned, t_min, t_max);
        assert(reports(self.inner(), turned, t_min, t_max, inner));
        match inner {
            Some(h) => Some(
                HitRecord {
                    t: h.t,
                    u: h.u,
                    v: h.v,
                    p: (self.outward)(h.p),
                    normal: (self.outward)(h.normal),
                    material: h.material,
                },
            ),
            None => None,
        }
    }

    /// The envelope that was made when the object was turned.
    fn bounding_box(&self, t0: i64, t1: i64) -> (r: Option<Aabb>)
        ensures
            r == self.envelope(),
    {
        self.bbox
    }
}

/// The least box round some points is well formed and holds each of them.
pub proof fn lemma_hull_holds(points: Seq<Vec3>, i: int)
    requires
        0 <= i < points.len(),
    ensures
        hull(points).well_formed(),
        hull(points).holds_point(points[i]),
    decreases points.len(),
{
    if points.len() > 1 {
        let front = points.drop_last();
        lemma_hull_holds(front, 0);
        if i < front.len() {
            lemma_hull_holds(front, i);
            assert(front[i] == points[i]);
        }
    }
}

/// The least box round some points lies in every box that holds them all.
pub proof fn lemma_hull_least(points: Seq<Vec3>, b: Aabb)
    requires
        points.len() > 0,
        forall|i: int| 0 <= i < points.len() ==> b.holds_point(#[trigger] points[i]),
    ensures
        b.encloses(hull(points)),
    decreases points.len(),
{
    if points.len() > 1 {
        let front = points.drop_last();
        assert forall|i: int| 0 <= i < front.len() implies b.holds_point(#[trigger] front[i]) by {
            assert(front[i] == points[i]);
        }
        lemma_hull_least(front, b);
        assert(b.holds_point(points[points.len() - 1]));
    } else {
        assert(b.holds_point(points[0]));
    }
}

/// The corners of a well-formed box lie in the box, and the box is the least
/// one round its eight corners.
pub proof fn lemma_corners_span(b: Aabb)
    requires
        b.well_formed(),
    ensures
        forall|n: int| 0 <= n < 8 ==> b.holds_point(#[trigger] corner(b, n)),
        hull(Seq::new(8, |n: int| corner(b, n))) == b,
{
    let all = Seq::new(8, |n: int| corner(b, n));
    assert forall|i: int| 0 <= i < all.len() implies b.holds_point(#[trigger] all[i]) by {}
    lemma_hull_least(all, b);
    lemma_hull_holds(all, 0);
    lemma_hull_holds(all, 7);
    assert(all[0] == b.min);
    assert(all[7] == b.max);
}

/// A turned object has its surfaces where the turned ray meets the object
/// itself, whatever turning makes of the ray.
pub proof fn lemma_rotate_faithful<H: Hittable, T: Fn(Vec3) -> Vec3, U: Fn(Vec3) -> Vec3>(
    turned: Rotate<H, T, U>,
    ray: Ray,
    meets: spec_fn(i64) -> bool,
)
    requires
        forall|q: Ray| #[trigger]
            turned_ray(turned.to_object(), ray, q) ==> faithful(turned.inner(), q, meets),
    ensures
        faithful(turned, ray, meets),
{
    assert forall|t_min: i64, t_max: i64, r: Option<HitRecord<'_, H::Surface>>| #[trigger]
        reports(turned, ray, t_min, t_max, r) implies is_closest(meets, t_min, t_max, r) by {
        let (q, inner) = choose|q: Ray, inner: Option<HitRecord<'_, H::Surface>>|
            {
                &&& turned_ray(turned.to_object(), ray, q)
                &&& #[trigger] reports(turned.inner(), q, t_min, t_max, inner)
                &&& turned_hit(turned.to_scene(), inner, r)
            };
        assert(faithful(turned.inner(), q, meets));
        assert(is_closest(meets, t_min, t_max, inner));
    }
}

} // verus!
