//! The radiance that arrives along a ray.

use crate::hittable::{reports, HitRecord, Hittable};
use crate::material::{emits, scatters, Material};
use crate::ray::Ray;
use crate::scalar::INFINITY;
use crate::vec3::Vec3;
use vstd::prelude::*;

verus! {

/// The settings of the integrator.
#[derive(Clone, Copy, Debug, PartialEq, Eq, Structural)]
pub struct Integrator {
    /// The least ray parameter at which a surface counts as met; it keeps a
    /// scattered ray from meeting the surface that it leaves.
    pub t_min: i64,
    /// The number of bounces after which a path is followed no further.
    pub max_depth: i32,
    /// The radiance of a ray that meets nothing.
    pub background: Vec3,
}

/// What a ray brings back once the surface that it has met is known: the
/// surface at `hit` has sent out `emitted`, and `r` is the whole radiance.
///
/// At `max_depth` bounces and where the material swallows the ray, the
/// radiance is what the surface sends out.  Otherwise `combine` makes it from
/// what the surface sends out, the share that the material carries on and the
/// radiance that arrives along the scattered ray.
pub open spec fn radiance_at<'a, W: Hittable, C: Fn(Vec3, Vec3, Vec3) -> Vec3>(
    cfg: Integrator,
    world: W,
    ray: Ray,
    depth: int,
    combine: C,
    hit: HitRecord<'a, W::Surface>,
    emitted: Vec3,
    r: Vec3,
) -> bool where W::Surface: Material
    decreases cfg.max_depth - depth, 0nat,
{
    if depth < cfg.max_depth {
        exists|scattered: Option<(Ray, Vec3)>|
            {
                &&& #[trigger] scatters(*hit.material, ray, hit, scattered)
                &&& match scattered {
                    Some((next, attenuation)) => exists|incoming: Vec3|
                        {
                            &&& radiance(cfg, world, next, depth + 1, combine, incoming)
                            &&& #[trigger] call_ensures(combine, (emitted, attenuation, incoming), r)
                        },
                    None => r == emitted,
                }
            }
    } else {
        r == emitted
    }
}

/// `r` is a radiance that may arrive along `ray` after `depth` bounces.
///
/// A ray that meets nothing brings the background.  A ray that meets a
/// surface brings what `radiance_at` says.
pub open spec fn radiance<W: Hittable, C: Fn(Vec3, Vec3, Vec3) -> Vec3>(
    cfg: Integrator,
    world: W,
    ray: Ray,
    depth: int,
    combine: C,
    r: Vec3,
) -> bool where W::Surface: Material
    decreases cfg.max_depth - depth, 1nat,
{
    exists|hit: Option<HitRecord<'_, W::Surface>>|
        {
            &&& #[trigger] reports(world, ray, cfg.t_min, INFINITY, hit)
            &&& match hit {
                Some(h) => exists|emitted: Vec3|
                    {
                        &&& #[trigger] emits(*h.material, h.u, h.v, h.p, emitted)
                        &&& radiance_at(cfg, world, ray, depth, combine, h, emitted, r)
                    },
                None => r == cfg.background,
            }
        }
}

impl Integrator {
    pub fn new(t_min: i64, max_depth: i32, background: Vec3) -> (r: Self)
        ensures
            r == (Integrator { t_min, max_depth, background }),
    {
        Integrator { t_min, max_depth, background }
    }

    /// The radiance that arrives along `ray` from `world` after `depth`
    /// bounces.  `combine` makes the radiance of a bounce from what the
    /// surface sends out, the share that its material carries on and the
    /// radiance that arrives along the scattered ray.
    pub fn color<W: Hittable, C: Fn(Vec3, Vec3, Vec3) -> Vec3>(
        &self,
        ray: &Ray,
        world: &W,
        depth: i32,
        combine: &C,
    ) -> (r: Vec3) where W::Surface: Material
        requires
            forall|e: Vec3, a: Vec3, i: Vec3| call_requires(*combine, (e, a, i)),
        ensures
            radiance(*self, *world, *ray, depth as int, *combine, r),
        decreases self.max_depth - depth,
    {
        let found = world.hit(ray, self.t_min, INFINITY);
        assert(reports(*world, *ray, self.t_min, INFINITY, found));
        match found {
            Some(hit) => {
                let emitted = hit.material.emitted(hit.u, hit.v, &hit.p);
                assert(emits(*hit.material, hit.u, hit.v, hit.p, emitted));
                if depth < self.max_depth {
                    let scattered = hit.material.scatter(ray, &hit);
                    assert(scatters(*hit.material, *ray, hit, scattered));
                    match scattered {
                        Some((next, attenuation)) => {
                            let incoming = self.color(&next, world, depth + 1, combine);
                            let r = combine(emitted, attenuation, incoming);
                            assert(call_ensures(*combine, (emitted, attenuation, incoming), r));
                            assert(radiance_at(
                                *self,
                                *world,
                                *ray,
                                depth as int,
                                *combine,
                                hit,
                                emitted,
                                r,
                            ));
                            r
                        },
                        None => {
                            assert(radiance_at(
                                *self,
                                *world,
                                *ray,
                                depth as int,
                                *combine,
                                hit,
                                emitted,
                                emitted,
                            ));
                            emitted
                        },
                    }
                } else {
                    assert(radiance_at(
                        *self,
                        *world,
                        *ray,
                        depth as int,
                        *combine,
                        hit,
                        emitted,
                        emitted,
                    ));
                    emitted
                }
            },
            None => self.background,
        }
    }
}

/// A ray that can meet nothing brings the background, whatever the scene
/// holds elsewhere.
pub proof fn lemma_miss_brings_background<W: Hittable, C: Fn(Vec3, Vec3, Vec3) -> Vec3>(
    cfg: Integrator,
    world: W,
    ray: Ray,
    depth: int,
    combine: C,
    r: Vec3,
) where W::Surface: Material
    requires
        radiance(cfg, world, ray, depth, combine, r),
        forall|hit: Option<HitRecord<'_, W::Surface>>| #[trigger]
            reports(world, ray, cfg.t_min, INFINITY, hit) ==> hit is None,
    ensures
        r == cfg.background,
{
}

/// Once the greatest depth is reached, a ray that meets a surface brings
/// what the surface sends out and nothing more: its material is not asked to
/// scatter.
pub proof fn lemma_depth_exceeded<W: Hittable, C: Fn(Vec3, Vec3, Vec3) -> Vec3>(
    cfg: Integrator,
    world: W,
    ray: Ray,
    depth: int,
    combine: C,
    r: Vec3,
) where W::Surface: Material
    requires
        radiance(cfg, world, ray, depth, combine, r),
        depth >= cfg.max_depth,
    ensures
        exists|hit: Option<HitRecord<'_, W::Surface>>|
            {
                &&& #[trigger] reports(world, ray, cfg.t_min, INFINITY, hit)
                &&& match hit {
                    Some(h) => emits(*h.material, h.u, h.v, h.p, r),
                    None => r == cfg.background,
                }
            },
{
    let hit = choose|hit: Option<HitRecord<'_, W::Surface>>|
        {
            &&& #[trigger] reports(world, ray, cfg.t_min, INFINITY, hit)
            &&& match hit {
                Some(h) => exists|emitted: Vec3|
                    {
                        &&& #[trigger] emits(*h.material, h.u, h.v, h.p, emitted)
                        &&& radiance_at(cfg, world, ray, depth, combine, h, emitted, r)
                    },
                None => r == cfg.background,
            }
        };
    assert(reports(world, ray, cfg.t_min, INFINITY, hit));
}

/// Where no material of the scene ever scatters, a ray brings the
/// background or what the surface that it meets sends out.
pub proof fn lemma_light_only<W: Hittable, C: Fn(Vec3, Vec3, Vec3) -> Vec3>(
    cfg: Integrator,
    world: W,
    ray: Ray,
    depth: int,
    combine: C,
    r: Vec3,
) where W::Surface: Material
    requires
        radiance(cfg, world, ray, depth, combine, r),
        forall|m: W::Surface, q: Ray, h: HitRecord<'_, W::Surface>, s: Option<(Ray, Vec3)>| #[trigger]
            scatters(m, q, h, s) ==> s is None,
    ensures
        exists|hit: Option<HitRecord<'_, W::Surface>>|
            {
                &&& #[trigger] reports(world, ray, cfg.t_min, INFINITY, hit)
                &&& match hit {
                    Some(h) => emits(*h.material, h.u, h.v, h.p, r),
                    None => r == cfg.background,
                }
            },
{
    let hit = choose|hit: Option<HitRecord<'_, W::Surface>>|
        {
            &&& #[trigger] reports(world, ray, cfg.t_min, INFINITY, hit)
            &&& match hit {
                Some(h) => exists|emitted: Vec3|
                    {
                        &&& #[trigger] emits(*h.material, h.u, h.v, h.p, emitted)
                        &&& radiance_at(cfg, world, ray, depth, combine, h, emitted, r)
                    },
                None => r == cfg.background,
            }
        };
    assert(reports(world, ray, cfg.t_min, INFINITY, hit));
}

/// Once the greatest depth is reached in a scene none of whose materials
/// glows, a ray brings no light from the surface that it meets.
pub proof fn lemma_dark_at_depth<W: Hittable, C: Fn(Vec3, Vec3, Vec3) -> Vec3>(
    cfg: Integrator,
    world: W,
    ray: Ray,
    depth: int,
    combine: C,
    r: Vec3,
) where W::Surface: Material
    requires
        radiance(cfg, world, ray, depth, combine, r),
        depth >= cfg.max_depth,
        forall|m: W::Surface| !#[trigger] m.glows(),
    ensures
        r == (Vec3 { x: 0, y: 0, z: 0 }) || r == cfg.background,
{
    lemma_depth_exceeded(cfg, world, ray, depth, combine, r);
    let hit = choose|hit: Option<HitRecord<'_, W::Surface>>|
        {
            &&& #[trigger] reports(world, ray, cfg.t_min, INFINITY, hit)
            &&& match hit {
                Some(h) => emits(*h.material, h.u, h.v, h.p, r),
                None => r == cfg.background,
            }
        };
    if let Some(h) = hit {
        assert(!(*h.material).glows());
    }
}

} // verus!
