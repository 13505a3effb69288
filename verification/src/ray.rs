//! Rays.

use crate::vec3::Vec3;
use vstd::prelude::*;

verus! {

/// A half-line with the moment at which it is cast.
#[derive(Clone, Copy, Debug, PartialEq, Eq, Structural)]
pub struct Ray {
    pub orig: Vec3,
    pub dir: Vec3,
    pub time: i64,
}

impl Ray {
    pub fn new(orig: Vec3, dir: Vec3, time: i64) -> (r: Ray)
        ensures
            r == (Ray { orig, dir, time }),
    {
        Ray { orig, dir, time }
    }

    pub fn origin(&self) -> (r: Vec3)
        ensures
            r == self.orig,
    {
        self.orig
    }

    pub fn direction(&self) -> (r: Vec3)
        ensures
            r == self.dir,
    {
        self.dir
    }

    pub fn time(&self) -> (r: i64)
        ensures
            r == self.time,
    {
        self.time
    }
}

} // verus!
