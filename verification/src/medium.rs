//! Participating media: volumes that scatter a ray somewhere inside them.

use crate::aabb::Aabb;
use crate::hittable::{bounded_by, reports, HitRecord, Hittable};
use crate::ray::Ray;
use crate::scalar::{clamp, max, max_of, min, min_of, sat_add, INFINITY};
use crate::vec3::Vec3;
use vstd::prelude::*;

verus! {

/// The part of the way through a volume that lies in the range of interest:
/// the way goes from `entry` to `exit`, the range from `t_min` to `t_max`.
/// There is none where the two do not overlap in more than a point; a start
/// behind the origin of the ray is moved to the origin.
pub open spec fn span(entry: i64, exit: i64, t_min: i64, t_max: i64) -> Option<(i64, i64)> {
    let from = max_of(entry as int, t_min as int);
    let to = min_of(exit as int, t_max as int);
    if from >= to {
        None
    } else {
        Some((max_of(from, 0) as i64, to as i64))
    }
}

/// The part of the way through a volume that lies in the range of interest.
pub fn clamp_span(entry: i64, exit: i64, t_min: i64, t_max: i64) -> (r: Option<(i64, i64)>)
    ensures
        r == span(entry, exit, t_min, t_max),
{
    let from = max(entry, t_min);
    let to = min(exit, t_max);
    if from >= to {
        None
    } else {
        Some((max(from, 0), to))
    }
}

/// A span that is not none lies in the range of interest and on the way
/// through the volume, it does not start behind the origin of the ray, and
/// it is not empty unless the volume lies behind the origin.
pub proof fn lemma_span_in_range(entry: i64, exit: i64, t_min: i64, t_max: i64)
    ensures
        span(entry, exit, t_min, t_max) matches Some((from, to)) ==> {
            &&& t_min <= from
            &&& entry <= from
            &&& 0 <= from
            &&& to <= t_max
            &&& to <= exit
            &&& (0 < to ==> from < to)
        },
        span(entry, exit, t_min, t_max) is None <==> max_of(entry as int, t_min as int) >= min_of(
            exit as int,
            t_max as int,
        ),
{
}

/// What a medium answers once its boundary has answered twice and the
/// scattering distance is drawn.  `first` is where the ray enters the
/// boundary, `second` where it leaves, `drawn` the parameter and the point
/// at which the ray is scattered, if it is.  There is an answer only where
/// all three are there, the way through the volume overlaps the range from
/// `t_min` to `t_max`, and the ray is scattered on that part of the way.
pub open spec fn medium_answer<'a, 'b, N, M>(
    first: Option<HitRecord<'b, N>>,
    second: Option<HitRecord<'b, N>>,
    drawn: Option<(i64, Vec3)>,
    t_min: i64,
    t_max: i64,
    phase: &'a M,
) -> Option<HitRecord<'a, M>> {
    match (first, second, drawn) {
        (Some(h1), Some(h2), Some((t, p))) => match span(h1.t, h2.t, t_min, t_max) {
            Some((from, to)) => if from <= t < to {
                Some(
                    HitRecord {
                        t,
                        u: 0,
                        v: 0,
                        p,
                        normal: Vec3 { x: 1, y: 0, z: 0 },
                        material: phase,
                    },
                )
            } else {
                None
            },
            None => None,
        },
        _ => None,
    }
}

/// A volume of constant density inside a boundary.
pub struct ConstantMedium<B: Hittable, M, D: Fn(&Ray, i64, i64) -> Option<(i64, Vec3)>> {
    boundary: B,
    phase_function: M,
    draw: D,
    step: i64,
}

impl<B: Hittable, M, D: Fn(&Ray, i64, i64) -> Option<(i64, Vec3)>> ConstantMedium<B, M, D> {
    #[verifier::type_invariant]
    spec fn draw_is_total(self) -> bool {
        forall|q: &Ray, from: i64, to: i64| call_requires(self.draw, (q, from, to))
    }

    /// The boundary of the volume.
    pub closed spec fn shell(self) -> B {
        self.boundary
    }

    /// The material of the volume.
    pub closed spec fn phase(self) -> M {
        self.phase_function
    }

    /// What draws the scattering distance.
    pub closed spec fn drawer(self) -> D {
        self.draw
    }

    /// How far behind the point of entry the point of exit is looked for.
    pub closed spec fn gap(self) -> i64 {
        self.step
    }

    /// The medium inside `boundary` with the material `phase_function`.
    /// `draw` takes a ray and the part of its way that lies in the volume,
    /// and gives the parameter and the point at which the ray is scattered
    /// on that part, if it is.  The exit from the boundary is looked for from
    /// `step` behind the entry.
    pub fn new(boundary: B, phase_function: M, draw: D, step: i64) -> (r: Self)
        requires
            forall|q: &Ray, from: i64, to: i64| call_requires(draw, (q, from, to)),
        ensures
            r.shell() == boundary,
            r.phase() == phase_function,
            r.drawer() == draw,
            r.gap() == step,
    {
        ConstantMedium { boundary, phase_function, draw, step }
    }
}

/// `first`, `second` and `drawn` are what the boundary and the draw of
/// `medium` may answer while the medium looks for a scattering of `ray`
/// between `t_min` and `t_max`: the boundary is asked for the entry over the
/// whole line, then for the exit behind the entry, and the draw is made on
/// the part of the way that lies in the range.  What is not asked is none.
pub open spec fn medium_run<
    'b,
    B: Hittable,
    M,
    D: Fn(&Ray, i64, i64) -> Option<(i64, Vec3)>,
>(
    medium: ConstantMedium<B, M, D>,
    ray: Ray,
    t_min: i64,
    t_max: i64,
    first: Option<HitRecord<'b, B::Surface>>,
    second: Option<HitRecord<'b, B::Surface>>,
    drawn: Option<(i64, Vec3)>,
) -> bool {
    &&& reports(medium.shell(), ray, i64::MIN, INFINITY, first)
    &&& match first {
        Some(h1) => {
            &&& reports(
                medium.shell(),
                ray,
                clamp(h1.t + medium.gap()) as i64,
                INFINITY,
                second,
            )
            &&& match second {
                Some(h2) => match span(h1.t, h2.t, t_min, t_max) {
                    Some((from, to)) => call_ensures(medium.drawer(), (&ray, from, to), drawn),
                    None => drawn is None,
                },
                None => drawn is None,
            }
        },
        None => second is None && drawn is None,
    }
}

impl<B: Hittable, M, D: Fn(&Ray, i64, i64) -> Option<(i64, Vec3)>> Hittable for ConstantMedium<
    B,
    M,
    D,
> {
    type Surface = M;

    /// The scattering of `ray` inside the volume, if it is scattered between
    /// `t_min` and `t_max`.
    fn hit<'a>(&'a self, ray: &Ray, t_min: i64, t_max: i64) -> (r: Option<HitRecord<'a, M>>)
        ensures
            exists|
                first: Option<HitRecord<'a, B::Surface>>,
                second: Option<HitRecord<'a, B::Surface>>,
                drawn: Option<(i64, Vec3)>,
            |
                {
                    &&& #[trigger] medium_run(*self, *ray, t_min, t_max, first, second, drawn)
                    &&& r == medium_answer(first, second, drawn, t_min, t_max, &self.phase())
                },
    {
        proof {
            use_type_invariant(self);
        }
        let first = self.boundary.hit(ray, i64::MIN, INFINITY);
        let ghost g1 = first;
        let Some(h1) = first else {
            assert(medium_run(*self, *ray, t_min, t_max, g1, None, None));
            return None;
        };
        let second = self.boundary.hit(ray, sat_add(h1.t, self.step), INFINITY);
        let ghost g2 = second;
        let Some(h2) = second else {
            assert(medium_run(*self, *ray, t_min, t_max, g1, g2, None));
            return None;
        };
        let Some((from, to)) = clamp_span(h1.t, h2.t, t_min, t_max) else {
            assert(medium_run(*self, *ray, t_min, t_max, g1, g2, None));
            return None;
        };
        let drawn = (self.draw)(ray, from, to);
        assert(medium_run(*self, *ray, t_min, t_max, g1, g2, drawn));
        match drawn {
            Some((t, p)) => {
                if from <= t && t < to {
                    Some(
                        HitRecord {
                            t,
                            u: 0,
                            v: 0,
                            p,
                            normal: Vec3 { x: 1, y: 0, z: 0 },
                            material: &self.phase_function,
                        },
                    )
                } else {
                    None
                }
            },
            None => None,
        }
    }

    /// The envelope of the boundary.
    fn bounding_box(&self, t0: i64, t1: i64) -> (r: Option<Aabb>)
        ensures
            bounded_by(self.shell(), t0, t1, r),
    {
        self.boundary.bounding_box(t0, t1)
    }
}

} // verus!
