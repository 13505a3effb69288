//! Densities over directions, for sampling towards the light.

use crate::hittable::Hittable;
use crate::vec3::Vec3;
use rand::Rng;
use vstd::prelude::*;

verus! {

/// A frame of three directions at a surface point; `w` is the one along the
/// surface normal.
#[derive(Clone, Copy, Debug, PartialEq, Eq, Structural)]
pub struct Onb {
    pub u: Vec3,
    pub v: Vec3,
    pub w: Vec3,
}

/// A density over directions that can be evaluated and sampled.
pub enum PDF<'a, H: Hittable> {
    /// Directions round the normal of a frame, weighted by their cosine.
    Cosine { uvw: Onb },
    /// Directions from `origin` towards an object.
    Hittable { origin: Vec3, hittable: &'a H },
    /// Half of one density and half of another.
    Mixture { p: &'a PDF<'a, H>, q: &'a PDF<'a, H> },
}

/// The mean of two lattice values, rounded down.
pub open spec fn mean(a: i64, b: i64) -> int {
    (a + b) / 2
}

/// `r` is a value that `pdf` may have at `direction`, where `cosine` gives
/// the value of a cosine density in a frame.  A mixture has the mean of the
/// values of its two parts.
pub open spec fn density<'a, H: Hittable, C: Fn(&Onb, Vec3) -> i64>(
    pdf: PDF<'a, H>,
    direction: Vec3,
    cosine: C,
    r: i64,
) -> bool
    decreases pdf,
{
    match pdf {
        PDF::Cosine { uvw } => call_ensures(cosine, (&uvw, direction), r),
        PDF::Hittable { origin, hittable } => call_ensures(
            H::pdf_value,
            (hittable, origin, direction),
            r,
        ),
        PDF::Mixture { p, q } => exists|a: i64, b: i64|
            {
                &&& density(*p, direction, cosine, a)
                &&& density(*q, direction, cosine, b)
                &&& r == #[trigger] mean(a, b)
            },
    }
}

/// `r` is a direction that `pdf` may generate, where `sample` draws from a
/// cosine density in a frame.  A mixture generates what one of its two parts
/// generates.
pub open spec fn sampled<'a, H: Hittable, S: Fn(&Onb) -> Vec3>(
    pdf: PDF<'a, H>,
    sample: S,
    r: Vec3,
) -> bool
    decreases pdf,
{
    match pdf {
        PDF::Cosine { uvw } => call_ensures(sample, (&uvw,), r),
        PDF::Hittable { origin, hittable } => call_ensures(H::random, (hittable, origin), r),
        PDF::Mixture { p, q } => sampled(*p, sample, r) || sampled(*q, sample, r),
    }
}

/// One bit from the generator that `rand` keeps for the running thread: the
/// call is `rand::thread_rng().gen::<bool>()`, which draws 32 bits and tells
/// whether the topmost is set.  Nothing is claimed of the bit that comes
/// back.  The call returns unless the operating system has refused the
/// thread its seed.
#[verifier::external_body]
fn coin() -> (r: bool) {
    rand::thread_rng().gen::<bool>()
}

/// The mean of two lattice values, rounded down.
pub fn mix(a: i64, b: i64) -> (r: i64)
    ensures
        r == mean(a, b),
{
    let sum: i128 = a as i128 + b as i128;
    let half: i128 = if sum >= 0 {
        sum / 2
    } else {
        -((1 - sum) / 2)
    };
    half as i64
}

/// The part of a mixture that a coin selects: the first part for heads.
pub fn choose_part<'b, 'a, H: Hittable>(
    p: &'b PDF<'a, H>,
    q: &'b PDF<'a, H>,
    heads: bool,
) -> (r: &'b PDF<'a, H>)
    ensures
        *r == if heads {
            *p
        } else {
            *q
        },
{
    if heads {
        p
    } else {
        q
    }
}

impl<'a, H: Hittable> PDF<'a, H> {
    /// The cosine density round the normal of the frame `uvw`.
    pub fn cosine(uvw: Onb) -> (r: Self)
        ensures
            r == (Self::Cosine { uvw }),
    {
        PDF::Cosine { uvw }
    }

    /// The density of the directions from `origin` towards `hittable`.
    pub fn hittable(hittable: &'a H, origin: Vec3) -> (r: Self)
        ensures
            r == (Self::Hittable { origin, hittable }),
    {
        PDF::Hittable { origin, hittable }
    }

    /// Half of `p` and half of `q`.
    pub fn mixture(p: &'a PDF<'a, H>, q: &'a PDF<'a, H>) -> (r: Self)
        ensures
            r == (Self::Mixture { p, q }),
    {
        PDF::Mixture { p, q }
    }

    /// The value of the density at `direction`.  `cosine` gives the value of
    /// a cosine density in a frame.
    pub fn value<C: Fn(&Onb, Vec3) -> i64>(&self, direction: Vec3, cosine: &C) -> (r: i64)
        requires
            forall|f: &Onb, d: Vec3| call_requires(*cosine, (f, d)),
        ensures
            density(*self, direction, *cosine, r),
        decreases *self,
    {
        match self {
            PDF::Cosine { uvw } => cosine(uvw, direction),
            PDF::Hittable { origin, hittable } => hittable.pdf_value(*origin, direction),
            PDF::Mixture { p, q } => {
                let a = p.value(direction, cosine);
                let b = q.value(direction, cosine);
                mix(a, b)
            },
        }
    }

    /// A direction drawn from the density.  `sample` draws from a cosine
    /// density in a frame; a mixture tosses a coin for the part to draw from.
    pub fn generate<S: Fn(&Onb) -> Vec3>(&self, sample: &S) -> (r: Vec3)
        requires
            forall|f: &Onb| call_requires(*sample, (f,)),
        ensures
            sampled(*self, *sample, r),
        decreases *self,
    {
        match self {
            PDF::Cosine { uvw } => sample(uvw),
            PDF::Hittable { origin, hittable } => hittable.random(*origin),
            PDF::Mixture { p, q } => choose_part(*p, *q, coin()).generate(sample),
        }
    }
}

/// The mean lies between the two values, and twice the mean is their sum or
/// one less.
pub proof fn lemma_mean_bounds(a: i64, b: i64)
    ensures
        2 * mean(a, b) <= a + b <= 2 * mean(a, b) + 1,
        a <= b ==> a <= mean(a, b) <= b,
        b <= a ==> b <= mean(a, b) <= a,
{
}

/// The value of a mixture is half of the one value and half of the other,
/// exactly so wherever the two values add up to an even number.
pub proof fn lemma_mixture_value<'a, H: Hittable, C: Fn(&Onb, Vec3) -> i64>(
    p: &'a PDF<'a, H>,
    q: &'a PDF<'a, H>,
    direction: Vec3,
    cosine: C,
    r: i64,
)
    requires
        density(PDF::Mixture { p, q }, direction, cosine, r),
    ensures
        exists|a: i64, b: i64|
            {
                &&& density(*p, direction, cosine, a)
                &&& density(*q, direction, cosine, b)
                &&& r == #[trigger] mean(a, b)
                &&& ((a + b) % 2 == 0 ==> 2 * r == a + b)
            },
{
    let (a, b) = choose|a: i64, b: i64|
        {
            &&& density(*p, direction, cosine, a)
            &&& density(*q, direction, cosine, b)
            &&& r == #[trigger] mean(a, b)
        };
    assert(r == mean(a, b));
}

} // verus!
