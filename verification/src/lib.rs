//! A light-transport core on an integer lattice.
//!
//! Every quantity that a ray tracer measures (a coordinate, a ray parameter, a
//! colour channel, a density) is carried as an `i64` lattice value.  The
//! library orders these values, negates them and forms their sums and
//! differences, all of which is exact up to saturation at the ends of the
//! range.  Whatever needs more than that (products, roots, quotients,
//! trigonometry) is supplied by those who implement the traits
//! [`hittable::Hittable`], [`material::Material`] and [`texture::Texture`], or
//! is handed in as a function.
//!
//! What an implementor or a function may answer is left open.  The contracts
//! therefore relate the result of an operation to the answers that went into
//! it: a collection returns the closest of what its members have answered,
//! the integrator the radiance that the materials on the path have made.
//! Where every object of a scene names the first of its surfaces on a ray, the
//! laws of [`hittable`] and [`bvh`] show that collections and hierarchies name
//! the first surface of the whole scene.
//!
//! - [`scalar`], [`vec3`], [`ray`]: lattice values, vectors and rays.
//! - [`aabb`]: bounding boxes, their envelope, and the slabs of a box.
//! - [`hittable`]: the objects of a scene, their collection, and the object
//!   seen from its other side.
//! - [`bvh`]: the bounding volume hierarchy.
//! - [`translate`], [`rotate`], [`cube`], [`medium`]: the moved and the turned
//!   object, the box and the participating medium.
//! - [`texture`], [`noise`], [`material`]: colours, the lattice of a noise,
//!   and what surfaces do with light.
//! - [`pdf`]: densities over directions.
//! - [`integrator`]: the radiance along a ray.
//! - [`frame`]: the count of accumulated frames.

pub mod scalar;
pub mod vec3;
pub mod ray;
pub mod aabb;
pub mod hittable;
pub mod bvh;
pub mod translate;
pub mod rotate;
pub mod cube;
pub mod texture;
pub mod noise;
pub mod material;
pub mod integrator;
pub mod pdf;
pub mod medium;
pub mod frame;
