//! The box: six rectangles round a block of space.

use crate::aabb::Aabb;
use crate::hittable::{
    all_faithful, faithful, first_least, is_closest, lemma_list_hit_is_global, list_crossing, list_run,
    reports, HitRecord, Hittable, HittableList,
};
use crate::ray::Ray;
use crate::scalar::{clamp, sat_add, sat_sub};
use crate::vec3::{Axis, Vec3};
use vstd::prelude::*;

verus! {

/// The plane that an axis-aligned rectangle lies in, named by the two axes
/// that span it, the first one first.
#[derive(Clone, Copy, Debug, PartialEq, Eq, Structural)]
pub enum Plane {
    XY,
    ZX,
    YZ,
}

impl Plane {
    /// The first axis that spans the plane.
    pub open spec fn first(self) -> Axis {
        match self {
            Plane::XY => Axis::X,
            Plane::ZX => Axis::Z,
            Plane::YZ => Axis::Y,
        }
    }

    /// The second axis that spans the plane.
    pub open spec fn second(self) -> Axis {
        match self {
            Plane::XY => Axis::Y,
            Plane::ZX => Axis::X,
            Plane::YZ => Axis::Z,
        }
    }

    /// The axis that stands on the plane.
    pub open spec fn normal(self) -> Axis {
        match self {
            Plane::XY => Axis::Z,
            Plane::ZX => Axis::Y,
            Plane::YZ => Axis::X,
        }
    }
}

/// One side of a box: an axis-aligned rectangle in `plane` at the height `k`
/// along the axis that stands on it, from `a0` to `a1` along the first axis of
/// the plane and from `b0` to `b1` along the second.  A side that is
/// `flipped` shows its back.
#[derive(Clone, Copy, Debug, PartialEq, Eq, Structural)]
pub struct Face {
    pub plane: Plane,
    pub a0: i64,
    pub a1: i64,
    pub b0: i64,
    pub b1: i64,
    pub k: i64,
    pub flipped: bool,
}

/// The point with `a` along the first axis of `plane`, `b` along the second
/// and `k` along the axis that stands on it.
pub open spec fn in_plane(plane: Plane, a: i64, b: i64, k: i64) -> Vec3 {
    match plane {
        Plane::XY => Vec3 { x: a, y: b, z: k },
        Plane::ZX => Vec3 { x: b, y: k, z: a },
        Plane::YZ => Vec3 { x: k, y: a, z: b },
    }
}

impl Face {
    /// The envelope of the rectangle, which reaches `thickness` to either
    /// side of its plane.
    pub open spec fn envelope(self, thickness: i64) -> Aabb {
        Aabb {
            min: in_plane(self.plane, self.a0, self.b0, clamp(self.k - thickness) as i64),
            max: in_plane(self.plane, self.a1, self.b1, clamp(self.k + thickness) as i64),
        }
    }

    /// The envelope of the rectangle, which reaches `thickness` to either
    /// side of its plane.
    pub fn bounding_box(&self, thickness: i64) -> (r: Aabb)
        ensures
            r == self.envelope(thickness),
    {
        let below = sat_sub(self.k, thickness);
        let above = sat_add(self.k, thickness);
        match self.plane {
            Plane::XY => Aabb {
                min: Vec3 { x: self.a0, y: self.b0, z: below },
                max: Vec3 { x: self.a1, y: self.b1, z: above },
            },
            Plane::ZX => Aabb {
                min: Vec3 { x: self.b0, y: below, z: self.a0 },
                max: Vec3 { x: self.b1, y: above, z: self.a1 },
            },
            Plane::YZ => Aabb {
                min: Vec3 { x: below, y: self.a0, z: self.b0 },
                max: Vec3 { x: above, y: self.a1, z: self.b1 },
            },
        }
    }
}

/// The side of the box between `p_min` and `p_max` that lies in `plane`: the
/// far one, or the near one, which shows its back.
pub open spec fn face_of(p_min: Vec3, p_max: Vec3, plane: Plane, near: bool) -> Face {
    Face {
        plane,
        a0: p_min.at(plane.first()),
        a1: p_max.at(plane.first()),
        b0: p_min.at(plane.second()),
        b1: p_max.at(plane.second()),
        k: if near {
            p_min.at(plane.normal())
        } else {
            p_max.at(plane.normal())
        },
        flipped: near,
    }
}

/// The six sides of the box between `p_min` and `p_max`: for each of the
/// planes XY, ZX and YZ the far side and then the near one.
pub open spec fn cube_faces(p_min: Vec3, p_max: Vec3) -> Seq<Face> {
    seq![
        face_of(p_min, p_max, Plane::XY, false),
        face_of(p_min, p_max, Plane::XY, true),
        face_of(p_min, p_max, Plane::ZX, false),
        face_of(p_min, p_max, Plane::ZX, true),
        face_of(p_min, p_max, Plane::YZ, false),
        face_of(p_min, p_max, Plane::YZ, true),
    ]
}

/// `sides` holds, side by side, what `make` may build from the six sides of
/// the box between `p_min` and `p_max`.
pub open spec fn built_from<S, F: Fn(Face) -> S>(
    p_min: Vec3,
    p_max: Vec3,
    make: F,
    sides: Seq<S>,
) -> bool {
    &&& sides.len() == 6
    &&& forall|i: int|
        0 <= i < 6 ==> call_ensures(make, (cube_faces(p_min, p_max)[i],), #[trigger] sides[i])
}

/// The six sides of the box between `p_min` and `p_max`.
pub fn faces(p_min: Vec3, p_max: Vec3) -> (r: Vec<Face>)
    ensures
        r@ == cube_faces(p_min, p_max),
{
    let mut r: Vec<Face> = Vec::new();
    r.push(
        Face {
            plane: Plane::XY,
            a0: p_min.x,
            a1: p_max.x,
            b0: p_min.y,
            b1: p_max.y,
            k: p_max.z,
            flipped: false,
        },
    );
    r.push(
        Face {
            plane: Plane::XY,
            a0: p_min.x,
            a1: p_max.x,
            b0: p_min.y,
            b1: p_max.y,
            k: p_min.z,
            flipped: true,
        },
    );
    r.push(
        Face {
            plane: Plane::ZX,
            a0: p_min.z,
            a1: p_max.z,
            b0: p_min.x,
            b1: p_max.x,
            k: p_max.y,
            flipped: false,
        },
    );
    r.push(
        Face {
            plane: Plane::ZX,
            a0: p_min.z,
            a1: p_max.z,
            b0: p_min.x,
            b1: p_max.x,
            k: p_min.y,
            flipped: true,
        },
    );
    r.push(
        Face {
            plane: Plane::YZ,
            a0: p_min.y,
            a1: p_max.y,
            b0: p_min.z,
            b1: p_max.z,
            k: p_max.x,
            flipped: false,
        },
    );
    r.push(
        Face {
            plane: Plane::YZ,
            a0: p_min.y,
            a1: p_max.y,
            b0: p_min.z,
            b1: p_max.z,
            k: p_min.x,
            flipped: true,
        },
    );
    assert(r@ =~= cube_faces(p_min, p_max));
    r
}

/// A box with its six sides.
pub struct Cube<S: Hittable> {
    pub p_min: Vec3,
    pub p_max: Vec3,
    pub sides: HittableList<S>,
}

impl<S: Hittable> Cube<S> {
    /// The box between the corners `p_min` and `p_max`.  `make` builds the
    /// object that stands for a side.
    pub fn new<F: Fn(Face) -> S>(p_min: Vec3, p_max: Vec3, make: F) -> (r: Self)
        requires
            forall|f: Face| call_requires(make, (f,)),
        ensures
            r.p_min == p_min,
            r.p_max == p_max,
            built_from(p_min, p_max, make, r.sides.list@),
    {
        let all = faces(p_min, p_max);
        let mut sides: HittableList<S> = HittableList::new();
        let mut i: usize = 0;
        while i < 6
            invariant
                i <= 6,
                all@ == cube_faces(p_min, p_max),
                sides.list@.len() == i,
                forall|f: Face| call_requires(make, (f,)),
                forall|j: int|
                    0 <= j < i ==> call_ensures(
                        make,
                        (cube_faces(p_min, p_max)[j],),
                        #[trigger] sides.list@[j],
                    ),
            decreases 6 - i,
        {
            let side = make(all[i]);
            sides.push(side);
            i += 1;
        }
        Cube { p_min, p_max, sides }
    }
}

impl<S: Hittable> Hittable for Cube<S> {
    type Surface = S::Surface;

    /// What the six sides answer as a collection.
    fn hit<'a>(&'a self, ray: &Ray, t_min: i64, t_max: i64) -> (r: Option<
        HitRecord<'a, S::Surface>,
    >)
        ensures
            exists|replies: Seq<Option<HitRecord<'a, S::Surface>>>|
                #[trigger] list_run(self.sides.list@, *ray, t_min, t_max, replies) && r
                    == first_least(replies),
    {
        self.sides.hit(ray, t_min, t_max)
    }

    /// The box itself.
    fn bounding_box(&self, t0: i64, t1: i64) -> (r: Option<Aabb>)
        ensures
            r == Some(Aabb { min: self.p_min, max: self.p_max }),
    {
        Some(Aabb { min: self.p_min, max: self.p_max })
    }
}

/// Each side of a box lies on the face of the box that it stands for: it
/// spans the box along the two axes of its plane and sits at the near or the
/// far end of the box along the third.  Each of the six faces of the box has
/// one side.
pub proof fn lemma_faces_lie_on_box(p_min: Vec3, p_max: Vec3, i: int)
    requires
        0 <= i < 6,
    ensures
        ({
            let f = cube_faces(p_min, p_max)[i];
            &&& f.a0 == p_min.at(f.plane.first())
            &&& f.a1 == p_max.at(f.plane.first())
            &&& f.b0 == p_min.at(f.plane.second())
            &&& f.b1 == p_max.at(f.plane.second())
            &&& f.k == if f.flipped {
                p_min.at(f.plane.normal())
            } else {
                p_max.at(f.plane.normal())
            }
        }),
        forall|j: int|
            0 <= j < 6 && j != i ==> {
                ||| cube_faces(p_min, p_max)[j].plane != cube_faces(p_min, p_max)[i].plane
                ||| cube_faces(p_min, p_max)[j].flipped != cube_faces(p_min, p_max)[i].flipped
            },
{
}

/// The envelope of every side of a box with ordered corners lies inside the
/// box made thicker by the thickness of the sides.
pub proof fn lemma_face_envelope_in_box(p_min: Vec3, p_max: Vec3, i: int, thickness: i64)
    requires
        0 <= i < 6,
        thickness >= 0,
        p_min.le(p_max),
    ensures
        cube_faces(p_min, p_max)[i].envelope(thickness).well_formed(),
        (Aabb {
            min: p_min.minus(Vec3 { x: thickness, y: thickness, z: thickness }),
            max: p_max.plus(Vec3 { x: thickness, y: thickness, z: thickness }),
        }).encloses(cube_faces(p_min, p_max)[i].envelope(thickness)),
{
}

/// A box whose sides are faithful to their surfaces is faithful to the
/// surfaces of all six.
pub proof fn lemma_cube_faithful<S: Hittable>(
    cube: Cube<S>,
    ray: Ray,
    surfaces: spec_fn(S, i64) -> bool,
)
    requires
        all_faithful(cube.sides.list@, ray, surfaces),
    ensures
        faithful(cube, ray, |t: i64| list_crossing(cube.sides.list@, surfaces, t)),
{
    let meets = |t: i64| list_crossing(cube.sides.list@, surfaces, t);
    assert forall|t_min: i64, t_max: i64, r: Option<HitRecord<'_, S::Surface>>| #[trigger]
        reports(cube, ray, t_min, t_max, r) implies is_closest(meets, t_min, t_max, r) by {
        let replies = choose|replies: Seq<Option<HitRecord<'_, S::Surface>>>|
            #[trigger] list_run(cube.sides.list@, ray, t_min, t_max, replies) && r
                == first_least(replies);
        lemma_list_hit_is_global(cube.sides.list@, ray, t_min, t_max, replies, surfaces);
    }
}

} // verus!
