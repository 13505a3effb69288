//! Lattice vectors with three components.

use crate::scalar::{clamp, sat_add, sat_neg, sat_sub};
use vstd::prelude::*;

verus! {

/// One of the three coordinate axes.
#[derive(Clone, Copy, Debug, PartialEq, Eq, Structural)]
pub enum Axis {
    X,
    Y,
    Z,
}

impl Axis {
    /// The axis that follows this one in the cycle X, Y, Z, X.
    pub open spec fn spec_next(self) -> Axis {
        match self {
            Axis::X => Axis::Y,
            Axis::Y => Axis::Z,
            Axis::Z => Axis::X,
        }
    }

    /// The axis that follows this one in the cycle X, Y, Z, X.
    pub fn next(self) -> (r: Axis)
        ensures
            r == self.spec_next(),
    {
        match self {
            Axis::X => Axis::Y,
            Axis::Y => Axis::Z,
            Axis::Z => Axis::X,
        }
    }
}

/// A point, a direction or a colour: three lattice values.
#[derive(Clone, Copy, Debug, PartialEq, Eq, Structural)]
pub struct Vec3 {
    pub x: i64,
    pub y: i64,
    pub z: i64,
}

impl Vec3 {
    /// The component along `axis`.
    pub open spec fn at(self, axis: Axis) -> i64 {
        match axis {
            Axis::X => self.x,
            Axis::Y => self.y,
            Axis::Z => self.z,
        }
    }

    /// Every component of `self` is at most the matching component of `other`.
    pub open spec fn le(self, other: Vec3) -> bool {
        self.x <= other.x && self.y <= other.y && self.z <= other.z
    }

    /// The component-wise sum, each component saturating.
    pub open spec fn plus(self, other: Vec3) -> Vec3 {
        Vec3 {
            x: clamp(self.x + other.x) as i64,
            y: clamp(self.y + other.y) as i64,
            z: clamp(self.z + other.z) as i64,
        }
    }

    /// The component-wise difference, each component saturating.
    pub open spec fn minus(self, other: Vec3) -> Vec3 {
        Vec3 {
            x: clamp(self.x - other.x) as i64,
            y: clamp(self.y - other.y) as i64,
            z: clamp(self.z - other.z) as i64,
        }
    }

    /// The opposite vector, each component saturating.
    pub open spec fn negated(self) -> Vec3 {
        Vec3 { x: clamp(-self.x) as i64, y: clamp(-self.y) as i64, z: clamp(-self.z) as i64 }
    }

    pub fn new(x: i64, y: i64, z: i64) -> (r: Vec3)
        ensures
            r == (Vec3 { x, y, z }),
    {
        Vec3 { x, y, z }
    }

    /// The vector whose three components are all `v`.
    pub fn all(v: i64) -> (r: Vec3)
        ensures
            r == (Vec3 { x: v, y: v, z: v }),
    {
        Vec3 { x: v, y: v, z: v }
    }

    pub fn zero() -> (r: Vec3)
        ensures
            r == (Vec3 { x: 0, y: 0, z: 0 }),
    {
        Vec3::all(0)
    }

    pub fn x(&self) -> (r: i64)
        ensures
            r == self.x,
    {
        self.x
    }

    pub fn y(&self) -> (r: i64)
        ensures
            r == self.y,
    {
        self.y
    }

    pub fn z(&self) -> (r: i64)
        ensures
            r == self.z,
    {
        self.z
    }

    /// The component along `axis`.
    pub fn get(&self, axis: Axis) -> (r: i64)
        ensures
            r == self.at(axis),
    {
        match axis {
            Axis::X => self.x,
            Axis::Y => self.y,
            Axis::Z => self.z,
        }
    }

    /// The component-wise sum.
    pub fn add(&self, other: &Vec3) -> (r: Vec3)
        ensures
            r == self.plus(*other),
    {
        Vec3 {
            x: sat_add(self.x, other.x),
            y: sat_add(self.y, other.y),
            z: sat_add(self.z, other.z),
        }
    }

    /// The component-wise difference.
    pub fn sub(&self, other: &Vec3) -> (r: Vec3)
        ensures
            r == self.minus(*other),
    {
        Vec3 {
            x: sat_sub(self.x, other.x),
            y: sat_sub(self.y, other.y),
            z: sat_sub(self.z, other.z),
        }
    }

    /// The opposite vector.
    pub fn neg(&self) -> (r: Vec3)
        ensures
            r == self.negated(),
    {
        Vec3 { x: sat_neg(self.x), y: sat_neg(self.y), z: sat_neg(self.z) }
    }
}

impl Default for Vec3 {
    fn default() -> (r: Vec3)
        ensures
            r == (Vec3 { x: 0, y: 0, z: 0 }),
    {
        Vec3::zero()
    }
}

} // verus!
