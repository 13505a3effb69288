//! Axis-aligned bounding boxes and their envelope.

use crate::scalar::{clamp, max, max_of, min, min_of, sat_add, sat_sub};
use crate::vec3::{Axis, Vec3};
use vstd::prelude::*;

verus! {

/// An axis-aligned box, given by its least and its greatest corner.
#[derive(Clone, Copy, Debug, PartialEq, Eq, Structural)]
pub struct Aabb {
    pub min: Vec3,
    pub max: Vec3,
}

/// The corner made of the smaller component of `a` and `b` on every axis.
pub open spec fn lower(a: Vec3, b: Vec3) -> Vec3 {
    Vec3 {
        x: min_of(a.x as int, b.x as int) as i64,
        y: min_of(a.y as int, b.y as int) as i64,
        z: min_of(a.z as int, b.z as int) as i64,
    }
}

/// The corner made of the larger component of `a` and `b` on every axis.
pub open spec fn upper(a: Vec3, b: Vec3) -> Vec3 {
    Vec3 {
        x: max_of(a.x as int, b.x as int) as i64,
        y: max_of(a.y as int, b.y as int) as i64,
        z: max_of(a.z as int, b.z as int) as i64,
    }
}

/// The envelope of two boxes: on every axis the smaller lower face and the
/// larger upper face.
pub open spec fn surrounding(a: Aabb, b: Aabb) -> Aabb {
    Aabb { min: lower(a.min, b.min), max: upper(a.max, b.max) }
}

impl Aabb {
    /// The least corner is nowhere above the greatest corner.
    pub open spec fn well_formed(self) -> bool {
        self.min.le(self.max)
    }

    /// `p` lies in the box, faces included.
    pub open spec fn holds_point(self, p: Vec3) -> bool {
        self.min.le(p) && p.le(self.max)
    }

    /// Every point of `other` lies in the box.
    pub open spec fn encloses(self, other: Aabb) -> bool {
        self.min.le(other.min) && other.max.le(self.max)
    }

    /// Twice the centre of the box along `axis`.
    pub open spec fn centroid2(self, axis: Axis) -> int {
        self.min.at(axis) + self.max.at(axis)
    }

    /// The length of the box along `axis`.
    pub open spec fn extent(self, axis: Axis) -> int {
        self.max.at(axis) - self.min.at(axis)
    }

    /// An axis along which the box is longest; X wins a tie against Y and Z,
    /// Y wins one against Z.
    pub open spec fn spec_longest_axis(self) -> Axis {
        if self.extent(Axis::X) >= self.extent(Axis::Y) && self.extent(Axis::X) >= self.extent(
            Axis::Z,
        ) {
            Axis::X
        } else if self.extent(Axis::Y) >= self.extent(Axis::Z) {
            Axis::Y
        } else {
            Axis::Z
        }
    }

    pub fn new(min: Vec3, max: Vec3) -> (r: Aabb)
        ensures
            r == (Aabb { min, max }),
    {
        Aabb { min, max }
    }

    /// The box that reaches `radius` from `center` along every axis: the
    /// envelope of the ball of that radius round that centre.
    pub fn around(center: Vec3, radius: i64) -> (r: Aabb)
        ensures
            r.min == center.minus(Vec3 { x: radius, y: radius, z: radius }),
            r.max == center.plus(Vec3 { x: radius, y: radius, z: radius }),
            radius >= 0 ==> r.well_formed() && r.holds_point(center),
    {
        let reach = Vec3 { x: radius, y: radius, z: radius };
        Aabb { min: center.sub(&reach), max: center.add(&reach) }
    }

    /// Tells whether the least corner is nowhere above the greatest corner.
    pub fn is_well_formed(&self) -> (r: bool)
        ensures
            r == self.well_formed(),
    {
        self.min.x <= self.max.x && self.min.y <= self.max.y && self.min.z <= self.max.z
    }

    /// Tells whether `p` lies in the box.
    pub fn contains_point(&self, p: &Vec3) -> (r: bool)
        ensures
            r == self.holds_point(*p),
    {
        self.min.x <= p.x && self.min.y <= p.y && self.min.z <= p.z && p.x <= self.max.x && p.y
            <= self.max.y && p.z <= self.max.z
    }

    /// Tells whether every point of `other` lies in the box.
    pub fn contains(&self, other: &Aabb) -> (r: bool)
        ensures
            r == self.encloses(*other),
    {
        self.min.x <= other.min.x && self.min.y <= other.min.y && self.min.z <= other.min.z
            && other.max.x <= self.max.x && other.max.y <= self.max.y && other.max.z
            <= self.max.z
    }

    /// Tells whether the centre of `self` along `axis` lies strictly before
    /// that of `other`.
    pub fn centroid_before(&self, other: &Aabb, axis: Axis) -> (r: bool)
        ensures
            r == (self.centroid2(axis) < other.centroid2(axis)),
    {
        let a: i128 = self.min.get(axis) as i128 + self.max.get(axis) as i128;
        let b: i128 = other.min.get(axis) as i128 + other.max.get(axis) as i128;
        a < b
    }

    /// An axis along which the box is longest.
    pub fn longest_axis(&self) -> (r: Axis)
        ensures
            r == self.spec_longest_axis(),
    {
        let ex: i128 = self.max.x as i128 - self.min.x as i128;
        let ey: i128 = self.max.y as i128 - self.min.y as i128;
        let ez: i128 = self.max.z as i128 - self.min.z as i128;
        if ex >= ey && ex >= ez {
            Axis::X
        } else if ey >= ez {
            Axis::Y
        } else {
            Axis::Z
        }
    }
}

/// The envelope of two boxes.
pub fn surrounding_box(a: &Aabb, b: &Aabb) -> (r: Aabb)
    ensures
        r == surrounding(*a, *b),
{
    Aabb {
        min: Vec3 { x: min(a.min.x, b.min.x), y: min(a.min.y, b.min.y), z: min(a.min.z, b.min.z) },
        max: Vec3 { x: max(a.max.x, b.max.x), y: max(a.max.y, b.max.y), z: max(a.max.z, b.max.z) },
    }
}

/// The envelope of two boxes encloses both of them, and it is well formed as
/// soon as one of them is.
pub proof fn lemma_surrounding_encloses(a: Aabb, b: Aabb)
    ensures
        surrounding(a, b).encloses(a),
        surrounding(a, b).encloses(b),
        a.well_formed() || b.well_formed() ==> surrounding(a, b).well_formed(),
{
}

/// The envelope is the least box that encloses both: every box that encloses
/// `a` and `b` encloses their envelope.
pub proof fn lemma_surrounding_least(a: Aabb, b: Aabb, c: Aabb)
    requires
        c.encloses(a),
        c.encloses(b),
    ensures
        c.encloses(surrounding(a, b)),
{
}

/// Every face of the envelope is a face of `a` or of `b`, so that no face can
/// be moved inwards without cutting off a corner of one of the two.
pub proof fn lemma_surrounding_tight(a: Aabb, b: Aabb, axis: Axis)
    ensures
        surrounding(a, b).min.at(axis) == a.min.at(axis) || surrounding(a, b).min.at(axis)
            == b.min.at(axis),
        surrounding(a, b).max.at(axis) == a.max.at(axis) || surrounding(a, b).max.at(axis)
            == b.max.at(axis),
{
}

/// The envelope does not depend on the order of its operands.
pub proof fn lemma_surrounding_commutes(a: Aabb, b: Aabb)
    ensures
        surrounding(a, b) == surrounding(b, a),
{
}

/// Envelopes may be taken in any grouping.
pub proof fn lemma_surrounding_associates(a: Aabb, b: Aabb, c: Aabb)
    ensures
        surrounding(surrounding(a, b), c) == surrounding(a, surrounding(b, c)),
{
}

/// A box that encloses another absorbs it.
pub proof fn lemma_surrounding_absorbs(a: Aabb, b: Aabb)
    requires
        a.encloses(b),
    ensures
        surrounding(a, b) == a,
{
}

/// The part of a ray that lies between the two faces of a box along one
/// axis: the parameters at which the ray enters and leaves it.
#[derive(Clone, Copy, Debug, PartialEq, Eq, Structural)]
pub struct Slab {
    pub enter: i64,
    pub leave: i64,
}

/// The range from `t_min` to `t_max` cut down to what lies in every slab:
/// its lower and its upper end.
pub open spec fn cut(slabs: Seq<Slab>, t_min: i64, t_max: i64) -> (int, int)
    decreases slabs.len(),
{
    if slabs.len() == 0 {
        (t_min as int, t_max as int)
    } else {
        let before = cut(slabs.drop_last(), t_min, t_max);
        (max_of(before.0, slabs.last().enter as int), min_of(before.1, slabs.last().leave as int))
    }
}

/// More than one parameter between `t_min` and `t_max` lies in every slab.
pub open spec fn overlap(slabs: Seq<Slab>, t_min: i64, t_max: i64) -> bool {
    cut(slabs, t_min, t_max).0 < cut(slabs, t_min, t_max).1
}

/// Cutting by more slabs leaves no more of the range.
pub proof fn lemma_cut_shrinks(slabs: Seq<Slab>, t_min: i64, t_max: i64, i: int)
    requires
        0 <= i <= slabs.len(),
    ensures
        cut(slabs.take(i), t_min, t_max).0 <= cut(slabs, t_min, t_max).0,
        cut(slabs, t_min, t_max).1 <= cut(slabs.take(i), t_min, t_max).1,
    decreases slabs.len() - i,
{
    if i < slabs.len() {
        lemma_cut_shrinks(slabs, t_min, t_max, i + 1);
        assert(slabs.take(i + 1).drop_last() == slabs.take(i));
    } else {
        assert(slabs.take(i) == slabs);
    }
}

/// What is left of the range is what lies in the range and in every slab.
pub proof fn lemma_cut_is_common_part(slabs: Seq<Slab>, t_min: i64, t_max: i64, t: int)
    ensures
        cut(slabs, t_min, t_max).0 <= t <= cut(slabs, t_min, t_max).1 <==> t_min <= t <= t_max
            && forall|i: int| 0 <= i < slabs.len() ==> (#[trigger] slabs[i]).enter <= t <= slabs[i].leave,
    decreases slabs.len(),
{
    if slabs.len() > 0 {
        let front = slabs.drop_last();
        lemma_cut_is_common_part(front, t_min, t_max, t);
        assert forall|i: int| 0 <= i < front.len() implies front[i] == slabs[i] by {}
        if t_min <= t <= t_max && forall|i: int|
            0 <= i < slabs.len() ==> (#[trigger] slabs[i]).enter <= t <= slabs[i].leave {
            assert forall|i: int| 0 <= i < front.len() implies (#[trigger] front[i]).enter <= t
                <= front[i].leave by {
                assert(slabs[i].enter <= t <= slabs[i].leave);
            }
            assert(slabs[slabs.len() - 1].enter <= t);
        }
        if cut(slabs, t_min, t_max).0 <= t <= cut(slabs, t_min, t_max).1 {
            assert forall|i: int| 0 <= i < slabs.len() implies (#[trigger] slabs[i]).enter <= t
                <= slabs[i].leave by {
                if i < front.len() {
                    assert(front[i].enter <= t <= front[i].leave);
                }
            }
        }
    }
}

/// Tells whether more than one parameter between `t_min` and `t_max` lies in
/// every slab: whether a ray that crosses the slabs of a box as given meets
/// the box within that range.
pub fn slabs_overlap(slabs: &[Slab], t_min: i64, t_max: i64) -> (r: bool)
    ensures
        r == overlap(slabs@, t_min, t_max),
{
    let mut lo: i64 = t_min;
    let mut hi: i64 = t_max;
    let mut i: usize = 0;
    while i < slabs.len()
        invariant
            i <= slabs@.len(),
            (lo as int, hi as int) == cut(slabs@.take(i as int), t_min, t_max),
        decreases slabs@.len() - i,
    {
        proof {
            assert(slabs@.take(i + 1).drop_last() == slabs@.take(i as int));
        }
        lo = max(lo, slabs[i].enter);
        hi = min(hi, slabs[i].leave);
        i += 1;
        if hi <= lo {
            proof {
                lemma_cut_shrinks(slabs@, t_min, t_max, i as int);
            }
            return false;
        }
    }
    proof {
        assert(slabs@.take(i as int) == slabs@);
    }
    lo < hi
}

} // verus!
