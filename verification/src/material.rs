//! What a surface does with the light that reaches it.

use crate::hittable::HitRecord;
use crate::ray::Ray;
use crate::texture::{colours, Texture};
use crate::vec3::Vec3;
use vstd::prelude::*;

verus! {

/// What a surface does with the light that reaches it.
pub trait Material: Sized {
    /// The ray that leaves the surface for the ray `ray_in` that has met it
    /// at `hit`, with the share of each colour channel that it carries on;
    /// none where the surface swallows the ray.
    fn scatter(&self, ray_in: &Ray, hit: &HitRecord<'_, Self>) -> (r: Option<(Ray, Vec3)>)
    ;

    /// The light that the surface sends out by itself at the surface
    /// coordinates `u` and `v` and the point `p`.  A surface that does not
    /// glow sends out none.
    fn emitted(&self, u: i64, v: i64, p: &Vec3) -> (r: Vec3)
        ensures
            !self.glows() ==> r == (Vec3 { x: 0, y: 0, z: 0 }),
    {
        Vec3 { x: 0, y: 0, z: 0 }
    }

    /// Whether the surface sends out light by itself.  A material that does
    /// not say so does not.
    open spec fn glows(&self) -> bool {
        false
    }
}

/// `r` is an answer that `material` may give when it is asked to scatter
/// `ray_in` at `hit`.
pub open spec fn scatters<'a, M: Material>(
    material: M,
    ray_in: Ray,
    hit: HitRecord<'a, M>,
    r: Option<(Ray, Vec3)>,
) -> bool {
    call_ensures(M::scatter, (&material, &ray_in, &hit), r)
}

/// `r` is light that `material` may send out at `u`, `v` and `p`.
pub open spec fn emits<M: Material>(material: M, u: i64, v: i64, p: Vec3, r: Vec3) -> bool {
    call_ensures(M::emitted, (&material, u, v, &p), r)
}

/// A surface that glows with the colour of its texture and reflects nothing.
pub struct DiffuseLight<T: Texture> {
    pub emit: T,
}

impl<T: Texture> DiffuseLight<T> {
    pub fn new(emit: T) -> (r: Self)
        ensures
            r.emit == emit,
    {
        DiffuseLight { emit }
    }
}

impl<T: Texture> Material for DiffuseLight<T> {
    /// A light swallows every ray.
    fn scatter(&self, ray_in: &Ray, hit: &HitRecord<'_, Self>) -> (r: Option<(Ray, Vec3)>)
        ensures
            r is None,
    {
        None
    }

    /// The colour of the texture.
    fn emitted(&self, u: i64, v: i64, p: &Vec3) -> (r: Vec3)
        ensures
            colours(self.emit, u, v, *p, r),
    {
        self.emit.value(u, v, p)
    }

    /// A light glows.
    open spec fn glows(&self) -> bool {
        true
    }
}

/// A matt surface: it sends a ray on along its normal, turned aside by a
/// jitter, and carries on the colour of its texture.
pub struct Lambertian<T: Texture, J: Fn() -> Vec3> {
    albedo: T,
    jitter: J,
}

impl<T: Texture, J: Fn() -> Vec3> Lambertian<T, J> {
    #[verifier::type_invariant]
    spec fn jitter_is_total(self) -> bool {
        call_requires(self.jitter, ())
    }

    /// The texture of the surface.
    pub closed spec fn texture(self) -> T {
        self.albedo
    }

    /// What draws the jitter.
    pub closed spec fn drawer(self) -> J {
        self.jitter
    }

    /// The matt surface with the texture `albedo`.  `jitter` draws what is
    /// added to the normal to make the direction of the scattered ray.
    pub fn new(albedo: T, jitter: J) -> (r: Self)
        requires
            call_requires(jitter, ()),
        ensures
            r.texture() == albedo,
            r.drawer() == jitter,
    {
        Lambertian { albedo, jitter }
    }
}

impl<T: Texture, J: Fn() -> Vec3> Material for Lambertian<T, J> {
    /// The scattered ray leaves the point that was met, at the moment of the
    /// incoming ray, along the normal plus a jitter; it carries on the colour
    /// of the texture at that point.  A matt surface swallows no ray.
    fn scatter(&self, ray_in: &Ray, hit: &HitRecord<'_, Self>) -> (r: Option<(Ray, Vec3)>)
        ensures
            exists|drawn: Vec3, colour: Vec3|
                {
                    &&& #[trigger] call_ensures(self.drawer(), (), drawn)
                    &&& #[trigger] colours(self.texture(), hit.u, hit.v, hit.p, colour)
                    &&& r == Some(
                        (Ray { orig: hit.p, dir: hit.normal.plus(drawn), time: ray_in.time }, colour),
                    )
                },
    {
        proof {
            use_type_invariant(self);
        }
        let drawn = (self.jitter)();
        let colour = self.albedo.value(hit.u, hit.v, &hit.p);
        assert(call_ensures(self.drawer(), (), drawn));
        assert(colours(self.texture(), hit.u, hit.v, hit.p, colour));
        Some((Ray::new(hit.p, hit.normal.add(&drawn), ray_in.time()), colour))
    }

    /// A matt surface sends out no light.
    fn emitted(&self, u: i64, v: i64, p: &Vec3) -> (r: Vec3)
        ensures
            r == (Vec3 { x: 0, y: 0, z: 0 }),
    {
        Vec3::zero()
    }
}

/// A polished surface: it reflects a ray or swallows it, and carries on its
/// own colour.
pub struct Metal<R: Fn(Vec3, Vec3) -> Option<Vec3>> {
    albedo: Vec3,
    reflect: R,
}

impl<R: Fn(Vec3, Vec3) -> Option<Vec3>> Metal<R> {
    #[verifier::type_invariant]
    spec fn reflect_is_total(self) -> bool {
        forall|d: Vec3, n: Vec3| call_requires(self.reflect, (d, n))
    }

    /// The colour of the surface.
    pub closed spec fn colour(self) -> Vec3 {
        self.albedo
    }

    /// What reflects a direction.
    pub closed spec fn mirror(self) -> R {
        self.reflect
    }

    /// The polished surface of the colour `albedo`.  `reflect` takes the
    /// direction of a ray and the normal of the surface, and gives the
    /// direction in which the ray is reflected, or none where the reflected
    /// ray would point into the surface.
    pub fn new(albedo: Vec3, reflect: R) -> (r: Self)
        requires
            forall|d: Vec3, n: Vec3| call_requires(reflect, (d, n)),
        ensures
            r.colour() == albedo,
            r.mirror() == reflect,
    {
        Metal { albedo, reflect }
    }
}

impl<R: Fn(Vec3, Vec3) -> Option<Vec3>> Material for Metal<R> {
    /// Where the ray is reflected, the scattered ray leaves the point that
    /// was met, at the moment of the incoming ray, in the reflected
    /// direction, and carries on the colour of the surface.  Otherwise the
    /// ray is swallowed.
    fn scatter(&self, ray_in: &Ray, hit: &HitRecord<'_, Self>) -> (r: Option<(Ray, Vec3)>)
        ensures
            exists|reflected: Option<Vec3>|
                {
                    &&& #[trigger] call_ensures(self.mirror(), (ray_in.dir, hit.normal), reflected)
                    &&& r == match reflected {
                        Some(d) => Some(
                            (Ray { orig: hit.p, dir: d, time: ray_in.time }, self.colour()),
                        ),
                        None => None,
                    }
                },
    {
        proof {
            use_type_invariant(self);
        }
        let reflected = (self.reflect)(ray_in.direction(), hit.normal);
        assert(call_ensures(self.mirror(), (ray_in.dir, hit.normal), reflected));
        match reflected {
            Some(d) => Some((Ray::new(hit.p, d, ray_in.time()), self.albedo)),
            None => None,
        }
    }

    /// A polished surface sends out no light.
    fn emitted(&self, u: i64, v: i64, p: &Vec3) -> (r: Vec3)
        ensures
            r == (Vec3 { x: 0, y: 0, z: 0 }),
    {
        Vec3::zero()
    }
}

/// A clear surface: it reflects a ray or lets it through, bent, and carries
/// on all of its light.
pub struct Dielectric<B: Fn(Vec3, Vec3) -> Vec3> {
    white: Vec3,
    bend: B,
}

impl<B: Fn(Vec3, Vec3) -> Vec3> Dielectric<B> {
    #[verifier::type_invariant]
    spec fn bend_is_total(self) -> bool {
        forall|d: Vec3, n: Vec3| call_requires(self.bend, (d, n))
    }

    /// The share that the surface carries on: all of every channel.
    pub closed spec fn share(self) -> Vec3 {
        self.white
    }

    /// What reflects or bends a direction.
    pub closed spec fn bender(self) -> B {
        self.bend
    }

    /// The clear surface.  `white` is the share that stands for all of
    /// every channel.  `bend` takes the direction of a ray and the normal of
    /// the surface, and gives the direction in which the ray goes on,
    /// reflected or bent.
    pub fn new(white: Vec3, bend: B) -> (r: Self)
        requires
            forall|d: Vec3, n: Vec3| call_requires(bend, (d, n)),
        ensures
            r.share() == white,
            r.bender() == bend,
    {
        Dielectric { white, bend }
    }
}

impl<B: Fn(Vec3, Vec3) -> Vec3> Material for Dielectric<B> {
    /// The scattered ray leaves the point that was met, at the moment of the
    /// incoming ray, in the direction that the ray goes on in, and carries on
    /// all of its light.  A clear surface swallows no ray.
    fn scatter(&self, ray_in: &Ray, hit: &HitRecord<'_, Self>) -> (r: Option<(Ray, Vec3)>)
        ensures
            exists|onward: Vec3|
                {
                    &&& #[trigger] call_ensures(self.bender(), (ray_in.dir, hit.normal), onward)
                    &&& r == Some(
                        (Ray { orig: hit.p, dir: onward, time: ray_in.time }, self.share()),
                    )
                },
    {
        proof {
            use_type_invariant(self);
        }
        let onward = (self.bend)(ray_in.direction(), hit.normal);
        assert(call_ensures(self.bender(), (ray_in.dir, hit.normal), onward));
        Some((Ray::new(hit.p, onward, ray_in.time()), self.white))
    }

    /// A clear surface sends out no light.
    fn emitted(&self, u: i64, v: i64, p: &Vec3) -> (r: Vec3)
        ensures
            r == (Vec3 { x: 0, y: 0, z: 0 }),
    {
        Vec3::zero()
    }
}

} // verus!
