use pathtrace::aabb::{slabs_overlap, surrounding_box, Aabb, Slab};
use pathtrace::cube::{faces, Cube, Face, Plane};
use pathtrace::hittable::{FlipNormals, HitRecord, Hittable};
use pathtrace::ray::Ray;
use pathtrace::scalar::{max, min, sat_add, sat_neg, sat_sub, INFINITY};
use pathtrace::vec3::{Axis, Vec3};

fn boxed(a: (i64, i64, i64), b: (i64, i64, i64)) -> Aabb {
    Aabb::new(Vec3::new(a.0, a.1, a.2), Vec3::new(b.0, b.1, b.2))
}

#[test]
fn saturating_sum_stops_at_the_ends() {
    assert_eq!(sat_add(2, 3), 5);
    assert_eq!(sat_add(i64::MAX, 1), i64::MAX);
    assert_eq!(sat_add(i64::MIN, -1), i64::MIN);
    assert_eq!(sat_add(i64::MAX, i64::MIN), -1);
    assert_eq!(INFINITY, i64::MAX);
}

#[test]
fn saturating_difference_stops_at_the_ends() {
    assert_eq!(sat_sub(2, 3), -1);
    assert_eq!(sat_sub(i64::MIN, 1), i64::MIN);
    assert_eq!(sat_sub(i64::MAX, -1), i64::MAX);
    assert_eq!(sat_sub(0, i64::MIN), i64::MAX);
}

#[test]
fn saturating_negation_of_the_least_value() {
    assert_eq!(sat_neg(5), -5);
    assert_eq!(sat_neg(-5), 5);
    assert_eq!(sat_neg(i64::MIN), i64::MAX);
    assert_eq!(sat_neg(i64::MAX), -i64::MAX);
}

#[test]
fn min_and_max_of_two() {
    assert_eq!(min(3, -4), -4);
    assert_eq!(max(3, -4), 3);
    assert_eq!(min(7, 7), 7);
}

#[test]
fn vector_components_and_axes() {
    let v = Vec3::new(1, -2, 3);
    assert_eq!((v.x(), v.y(), v.z()), (1, -2, 3));
    assert_eq!(v.get(Axis::X), 1);
    assert_eq!(v.get(Axis::Y), -2);
    assert_eq!(v.get(Axis::Z), 3);
    assert_eq!(Vec3::all(4), Vec3::new(4, 4, 4));
    assert_eq!(Vec3::zero(), Vec3::new(0, 0, 0));
    assert_eq!(Vec3::default(), Vec3::zero());
    assert_eq!(Axis::X.next(), Axis::Y);
    assert_eq!(Axis::Z.next(), Axis::X);
}

#[test]
fn vector_sum_difference_and_opposite() {
    let a = Vec3::new(1, 2, 3);
    let b = Vec3::new(10, -20, 30);
    assert_eq!(a.add(&b), Vec3::new(11, -18, 33));
    assert_eq!(a.sub(&b), Vec3::new(-9, 22, -27));
    assert_eq!(a.neg(), Vec3::new(-1, -2, -3));
    assert_eq!(Vec3::new(i64::MAX, 0, 0).add(&Vec3::new(1, 0, 0)).x(), i64::MAX);
}

#[test]
fn ray_keeps_what_it_was_made_of() {
    let r = Ray::new(Vec3::new(1, 2, 3), Vec3::new(0, 0, -1), 17);
    assert_eq!(r.origin(), Vec3::new(1, 2, 3));
    assert_eq!(r.direction(), Vec3::new(0, 0, -1));
    assert_eq!(r.time(), 17);
}

#[test]
fn surrounding_box_contains_both_and_is_least() {
    let a = boxed((0, 5, -3), (4, 6, 0));
    let b = boxed((-2, 7, -1), (1, 9, 8));
    let s = surrounding_box(&a, &b);
    assert_eq!(s, boxed((-2, 5, -3), (4, 9, 8)));
    assert!(s.contains(&a) && s.contains(&b));
    assert!(s.is_well_formed());
    // Moving any face inwards by one step loses a corner of `a` or of `b`.
    let shrunk = [
        boxed((-1, 5, -3), (4, 9, 8)),
        boxed((-2, 6, -3), (4, 9, 8)),
        boxed((-2, 5, -2), (4, 9, 8)),
        boxed((-2, 5, -3), (3, 9, 8)),
        boxed((-2, 5, -3), (4, 8, 8)),
        boxed((-2, 5, -3), (4, 9, 7)),
    ];
    for c in shrunk.iter() {
        assert!(!(c.contains(&a) && c.contains(&b)));
    }
}

#[test]
fn surrounding_box_commutes_and_associates() {
    let a = boxed((0, 0, 0), (1, 1, 1));
    let b = boxed((-5, 2, 0), (0, 3, 4));
    let c = boxed((3, -7, 2), (9, -6, 3));
    assert_eq!(surrounding_box(&a, &b), surrounding_box(&b, &a));
    assert_eq!(
        surrounding_box(&surrounding_box(&a, &b), &c),
        surrounding_box(&a, &surrounding_box(&b, &c))
    );
    assert_eq!(surrounding_box(&a, &a), a);
}

#[test]
fn box_membership() {
    let a = boxed((0, 0, 0), (4, 4, 4));
    assert!(a.contains_point(&Vec3::new(0, 4, 2)));
    assert!(!a.contains_point(&Vec3::new(0, 5, 2)));
    assert!(a.contains(&boxed((1, 1, 1), (4, 4, 4))));
    assert!(!a.contains(&boxed((1, 1, 1), (4, 4, 5))));
    assert!(!boxed((1, 0, 0), (0, 4, 4)).is_well_formed());
}

#[test]
fn box_centres_and_longest_axis() {
    let a = boxed((0, 0, 0), (4, 10, 4));
    let b = boxed((1, 0, 0), (4, 2, 4));
    assert!(a.centroid_before(&b, Axis::X));
    assert!(!b.centroid_before(&a, Axis::X));
    assert!(b.centroid_before(&a, Axis::Y));
    assert!(!a.centroid_before(&b, Axis::Z));
    assert_eq!(a.longest_axis(), Axis::Y);
    assert_eq!(b.longest_axis(), Axis::Z);
    assert_eq!(boxed((0, 0, 0), (5, 5, 5)).longest_axis(), Axis::X);
    let wide = boxed((i64::MIN, 0, 0), (i64::MAX, 1, 1));
    assert_eq!(wide.longest_axis(), Axis::X);
    assert!(!wide.centroid_before(&wide, Axis::X));
}

#[test]
fn box_around_a_ball() {
    let b = Aabb::around(Vec3::new(10, 20, 30), 5);
    assert_eq!(b, boxed((5, 15, 25), (15, 25, 35)));
    assert!(b.contains_point(&Vec3::new(10, 20, 30)));
}

#[test]
fn the_six_sides_of_a_box() {
    let f = faces(Vec3::new(1, 2, 3), Vec3::new(10, 20, 30));
    let want = vec![
        Face { plane: Plane::XY, a0: 1, a1: 10, b0: 2, b1: 20, k: 30, flipped: false },
        Face { plane: Plane::XY, a0: 1, a1: 10, b0: 2, b1: 20, k: 3, flipped: true },
        Face { plane: Plane::ZX, a0: 3, a1: 30, b0: 1, b1: 10, k: 20, flipped: false },
        Face { plane: Plane::ZX, a0: 3, a1: 30, b0: 1, b1: 10, k: 2, flipped: true },
        Face { plane: Plane::YZ, a0: 2, a1: 20, b0: 3, b1: 30, k: 10, flipped: false },
        Face { plane: Plane::YZ, a0: 2, a1: 20, b0: 3, b1: 30, k: 1, flipped: true },
    ];
    assert_eq!(f, want);
}

#[test]
fn envelope_of_a_side() {
    let f = Face { plane: Plane::ZX, a0: 3, a1: 30, b0: 1, b1: 10, k: 20, flipped: false };
    assert_eq!(f.bounding_box(1), boxed((1, 19, 3), (10, 21, 30)));
    let g = Face { plane: Plane::XY, a0: 1, a1: 10, b0: 2, b1: 20, k: 30, flipped: false };
    assert_eq!(g.bounding_box(2), boxed((1, 2, 28), (10, 20, 32)));
    let h = Face { plane: Plane::YZ, a0: 2, a1: 20, b0: 3, b1: 30, k: 1, flipped: true };
    assert_eq!(h.bounding_box(0), boxed((1, 2, 3), (1, 20, 30)));
}

/// A side that a ray along an axis meets where it crosses the plane of the
/// side inside the rectangle.
struct Side {
    face: Face,
    tag: u8,
}

impl Side {
    fn axes(&self) -> (Axis, Axis, Axis) {
        match self.face.plane {
            Plane::XY => (Axis::X, Axis::Y, Axis::Z),
            Plane::ZX => (Axis::Z, Axis::X, Axis::Y),
            Plane::YZ => (Axis::Y, Axis::Z, Axis::X),
        }
    }
}

impl Hittable for Side {
    type Surface = u8;

    fn hit<'a>(&'a self, ray: &Ray, t_min: i64, t_max: i64) -> Option<HitRecord<'a, u8>> {
        let (a, b, n) = self.axes();
        let d = ray.direction().get(n);
        if d == 0 {
            return None;
        }
        let num = self.face.k - ray.origin().get(n);
        if num % d != 0 {
            return None;
        }
        let t = num / d;
        if t < t_min || t > t_max {
            return None;
        }
        let pa = ray.origin().get(a) + t * ray.direction().get(a);
        let pb = ray.origin().get(b) + t * ray.direction().get(b);
        if pa < self.face.a0 || pa > self.face.a1 || pb < self.face.b0 || pb > self.face.b1 {
            return None;
        }
        let normal = match n {
            Axis::X => Vec3::new(1, 0, 0),
            Axis::Y => Vec3::new(0, 1, 0),
            Axis::Z => Vec3::new(0, 0, 1),
        };
        let p = ray.origin().add(&Vec3::new(
            t * ray.direction().x(),
            t * ray.direction().y(),
            t * ray.direction().z(),
        ));
        Some(HitRecord { t, u: 0, v: 0, p, normal, material: &self.tag })
    }

    fn bounding_box(&self, _t0: i64, _t1: i64) -> Option<Aabb> {
        Some(self.face.bounding_box(1))
    }
}

enum BoxSide {
    Plain(Side),
    Turned(FlipNormals<Side>),
}

impl Hittable for BoxSide {
    type Surface = u8;

    fn hit<'a>(&'a self, ray: &Ray, t_min: i64, t_max: i64) -> Option<HitRecord<'a, u8>> {
        match self {
            BoxSide::Plain(s) => s.hit(ray, t_min, t_max),
            BoxSide::Turned(s) => s.hit(ray, t_min, t_max),
        }
    }

    fn bounding_box(&self, t0: i64, t1: i64) -> Option<Aabb> {
        match self {
            BoxSide::Plain(s) => s.bounding_box(t0, t1),
            BoxSide::Turned(s) => s.bounding_box(t0, t1),
        }
    }
}

fn make_side(face: Face) -> BoxSide {
    let tag = match face.plane {
        Plane::XY => 1,
        Plane::ZX => 2,
        Plane::YZ => 3,
    };
    if face.flipped {
        BoxSide::Turned(FlipNormals::new(Side { face, tag }))
    } else {
        BoxSide::Plain(Side { face, tag })
    }
}

#[test]
fn a_ray_meets_the_near_side_of_a_box_first() {
    let cube = Cube::new(Vec3::new(0, 0, 0), Vec3::new(10, 10, 10), make_side);
    assert_eq!(cube.sides.list.len(), 6);
    // Along +z from below the box: the near XY side at z = 0 shows its back.
    let ray = Ray::new(Vec3::new(5, 5, -20), Vec3::new(0, 0, 1), 0);
    let hit = cube.hit(&ray, 1, INFINITY).unwrap();
    assert_eq!(hit.t, 20);
    assert_eq!(hit.p, Vec3::new(5, 5, 0));
    assert_eq!(hit.normal, Vec3::new(0, 0, -1));
    assert_eq!(*hit.material, 1);
    // From inside the box the far side is met.
    let inside = Ray::new(Vec3::new(5, 5, 5), Vec3::new(0, 1, 0), 0);
    let hit = cube.hit(&inside, 1, INFINITY).unwrap();
    assert_eq!(hit.t, 5);
    assert_eq!(hit.normal, Vec3::new(0, 1, 0));
    assert_eq!(*hit.material, 2);
    // Past the box nothing is met.
    let past = Ray::new(Vec3::new(50, 5, -20), Vec3::new(0, 0, 1), 0);
    assert!(cube.hit(&past, 1, INFINITY).is_none());
    assert_eq!(cube.bounding_box(0, 1), Some(boxed((0, 0, 0), (10, 10, 10))));
}

#[test]
fn a_ray_meets_a_box_where_its_slabs_overlap() {
    let s = |enter: i64, leave: i64| Slab { enter, leave };
    assert!(slabs_overlap(&[s(0, 10), s(2, 8), s(-5, 20)], 1, INFINITY));
    assert!(slabs_overlap(&[s(0, 10), s(2, 8), s(-5, 20)], 7, INFINITY));
    // The range ends before the box is entered, or begins behind it.
    assert!(!slabs_overlap(&[s(0, 10), s(2, 8), s(-5, 20)], -9, 2));
    assert!(!slabs_overlap(&[s(0, 10), s(2, 8), s(-5, 20)], 8, INFINITY));
    // The ray has left one slab before it enters another.
    assert!(!slabs_overlap(&[s(0, 3), s(5, 8), s(-5, 20)], 1, INFINITY));
    assert!(!slabs_overlap(&[s(0, 5), s(5, 8), s(-5, 20)], 1, INFINITY));
    // A slab that is crossed backwards holds nothing.
    assert!(!slabs_overlap(&[s(10, 0)], 1, INFINITY));
    // Without a slab the range itself decides.
    assert!(slabs_overlap(&[], 1, 2));
    assert!(!slabs_overlap(&[], 2, 2));
    assert!(!slabs_overlap(&[], 3, 2));
}
