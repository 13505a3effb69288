use pathtrace::aabb::{surrounding_box, Aabb};
use pathtrace::bvh::{Bvh, BvhError, BvhNode};
use pathtrace::hittable::{FlipNormals, HitRecord, Hittable, HittableList};
use pathtrace::ray::Ray;
use pathtrace::rotate::{corner_of, Rotate};
use pathtrace::scalar::INFINITY;
use pathtrace::translate::Translate;
use pathtrace::vec3::Vec3;

/// A square plate that faces the z axis.  A ray is taken to run along +z;
/// it meets the plate where it crosses the plane of the plate inside the
/// square.
struct Plate {
    /// The height of the plane, or none for a plate that fills no place.
    z: i64,
    lo: (i64, i64),
    hi: (i64, i64),
    bounded: bool,
    tag: u32,
}

impl Hittable for Plate {
    type Surface = u32;

    fn hit<'a>(&'a self, ray: &Ray, t_min: i64, t_max: i64) -> Option<HitRecord<'a, u32>> {
        let o = ray.origin();
        let t = self.z - o.z();
        if t < t_min || t > t_max {
            return None;
        }
        if o.x() < self.lo.0 || o.x() > self.hi.0 || o.y() < self.lo.1 || o.y() > self.hi.1 {
            return None;
        }
        Some(HitRecord {
            t,
            u: o.x() - self.lo.0,
            v: o.y() - self.lo.1,
            p: Vec3::new(o.x(), o.y(), self.z),
            normal: Vec3::new(0, 0, -1),
            material: &self.tag,
        })
    }

    fn bounding_box(&self, _t0: i64, _t1: i64) -> Option<Aabb> {
        if self.bounded {
            Some(Aabb::new(
                Vec3::new(self.lo.0, self.lo.1, self.z),
                Vec3::new(self.hi.0, self.hi.1, self.z),
            ))
        } else {
            None
        }
    }
}

fn plate(z: i64, x: i64, y: i64, half: i64, tag: u32) -> Plate {
    Plate { z, lo: (x - half, y - half), hi: (x + half, y + half), bounded: true, tag }
}

fn upward(x: i64, y: i64) -> Ray {
    Ray::new(Vec3::new(x, y, 0), Vec3::new(0, 0, 1), 0)
}

/// Whether a ray along +z can meet the box within the range.
fn probe(ray: &Ray, b: &Aabb, t_min: i64, t_max: i64) -> bool {
    let o = ray.origin();
    if o.x() < b.min.x() || o.x() > b.max.x() || o.y() < b.min.y() || o.y() > b.max.y() {
        return false;
    }
    let enter = (b.min.z() - o.z()).max(t_min);
    let leave = (b.max.z() - o.z()).min(t_max);
    enter <= leave
}

/// A small generator of numbers that look random.
struct Lcg(u64);

impl Lcg {
    fn next(&mut self, below: i64) -> i64 {
        self.0 = self.0.wrapping_mul(6364136223846793005).wrapping_add(1442695040888963407);
        ((self.0 >> 33) % below as u64) as i64
    }
}

fn scene(seed: u64, n: usize) -> (Vec<Plate>, Vec<Plate>) {
    let mut g = Lcg(seed);
    let mut a = Vec::new();
    let mut b = Vec::new();
    for i in 0..n {
        let (z, x, y, half) = (1 + g.next(400), g.next(100), g.next(100), 1 + g.next(30));
        a.push(plate(z, x, y, half, i as u32));
        b.push(plate(z, x, y, half, i as u32));
    }
    (a, b)
}

#[test]
fn empty_list_meets_nothing_and_has_no_box() {
    let list: HittableList<Plate> = HittableList::new();
    assert!(list.hit(&upward(0, 0), 1, INFINITY).is_none());
    assert_eq!(list.bounding_box(0, 1), None);
}

#[test]
fn list_returns_closest_member() {
    let mut list = HittableList::new();
    list.push(plate(30, 0, 0, 5, 1));
    list.push(plate(10, 0, 0, 5, 2));
    list.push(plate(20, 0, 0, 5, 3));
    let ray = upward(0, 0);
    let hit = list.hit(&ray, 1, INFINITY).unwrap();
    assert_eq!(hit.t, 10);
    assert_eq!(*hit.material, 2);
    assert_eq!(hit.p, Vec3::new(0, 0, 10));
    assert!(list.hit(&ray, 31, 100).is_none());
    assert_eq!(list.hit(&ray, 11, 25).unwrap().t, 20);
    assert_eq!(list.hit(&ray, 10, 10).unwrap().t, 10);
    assert!(list.hit(&upward(50, 50), 1, INFINITY).is_none());
}

#[test]
fn list_keeps_first_of_equal_hits() {
    let mut list = HittableList::new();
    list.push(plate(10, 0, 0, 5, 1));
    list.push(plate(10, 0, 0, 5, 2));
    list.push(plate(10, 0, 0, 5, 3));
    let hit = list.hit(&upward(0, 0), 0, 100).unwrap();
    assert_eq!(*hit.material, 1);
}

#[test]
fn list_box_is_the_envelope_of_its_members() {
    let mut list = HittableList::new();
    list.push(plate(30, 0, 0, 5, 1));
    assert_eq!(
        list.bounding_box(0, 1),
        Some(Aabb::new(Vec3::new(-5, -5, 30), Vec3::new(5, 5, 30)))
    );
    list.push(plate(10, 20, 0, 1, 2));
    list.push(plate(20, 0, -7, 2, 3));
    assert_eq!(
        list.bounding_box(0, 1),
        Some(Aabb::new(Vec3::new(-5, -9, 10), Vec3::new(21, 5, 30)))
    );
}

#[test]
fn list_with_an_unbounded_member_has_no_box() {
    let mut list = HittableList::new();
    list.push(plate(30, 0, 0, 5, 1));
    let mut open = plate(10, 0, 0, 5, 2);
    open.bounded = false;
    list.push(open);
    list.push(plate(20, 0, 0, 5, 3));
    assert_eq!(list.bounding_box(0, 1), None);
    let mut first = HittableList::new();
    let mut open = plate(10, 0, 0, 5, 2);
    open.bounded = false;
    first.push(open);
    first.push(plate(20, 0, 0, 5, 3));
    assert_eq!(first.bounding_box(0, 1), None);
}

#[test]
fn flipped_object_turns_its_normal() {
    let f = FlipNormals::new(plate(10, 0, 0, 5, 1));
    let hit = f.hit(&upward(1, 2), 1, INFINITY).unwrap();
    assert_eq!(hit.normal, Vec3::new(0, 0, 1));
    assert_eq!((hit.t, hit.u, hit.v), (10, 6, 7));
    assert_eq!(hit.p, Vec3::new(1, 2, 10));
    assert_eq!(f.bounding_box(0, 1), plate(10, 0, 0, 5, 1).bounding_box(0, 1));
    assert!(f.hit(&upward(100, 2), 1, INFINITY).is_none());
}

#[test]
fn translated_object_is_met_where_it_was_moved_to() {
    let t = Translate::new(plate(10, 0, 0, 5, 1), Vec3::new(100, 0, 7));
    assert!(t.hit(&upward(0, 0), 1, INFINITY).is_none());
    let hit = t.hit(&upward(102, 3), 1, INFINITY).unwrap();
    assert_eq!(hit.t, 17);
    assert_eq!(hit.p, Vec3::new(102, 3, 17));
    assert_eq!((hit.u, hit.v), (7, 8));
    assert_eq!(
        t.bounding_box(0, 1),
        Some(Aabb::new(Vec3::new(95, -5, 17), Vec3::new(105, 5, 17)))
    );
    let mut open = plate(10, 0, 0, 5, 2);
    open.bounded = false;
    assert_eq!(Translate::new(open, Vec3::new(1, 1, 1)).bounding_box(0, 1), None);
}

#[test]
fn bvh_of_nothing_is_refused() {
    let none: Vec<Plate> = Vec::new();
    assert!(matches!(Bvh::new(none, 0, 1, probe), Err(BvhError::Empty)));
}

#[test]
fn bvh_with_an_unbounded_member_is_refused() {
    let mut open = plate(10, 0, 0, 5, 2);
    open.bounded = false;
    let items = vec![plate(30, 0, 0, 5, 1), open, plate(20, 0, 0, 5, 3)];
    assert!(matches!(Bvh::new(items, 0, 1, probe), Err(BvhError::Unbounded)));
}

#[test]
fn bvh_of_one_object_is_that_object() {
    let bvh = match Bvh::new(vec![plate(30, 0, 0, 5, 1)], 0, 1, probe) {
        Ok(b) => b,
        Err(_) => panic!("a hierarchy over one plate"),
    };
    assert_eq!(bvh.hit(&upward(0, 0), 1, INFINITY).unwrap().t, 30);
    assert!(bvh.hit(&upward(9, 0), 1, INFINITY).is_none());
    assert_eq!(
        bvh.bounding_box(0, 1),
        Some(Aabb::new(Vec3::new(-5, -5, 30), Vec3::new(5, 5, 30)))
    );
}

#[test]
fn bvh_box_is_the_envelope_of_all_objects() {
    let (a, b) = scene(7, 40);
    let mut env = a[0].bounding_box(0, 1).unwrap();
    for p in a.iter() {
        env = surrounding_box(&env, &p.bounding_box(0, 1).unwrap());
    }
    let bvh = match Bvh::new(b, 0, 1, probe) {
        Ok(b) => b,
        Err(_) => panic!("a hierarchy over forty plates"),
    };
    assert_eq!(bvh.bounding_box(0, 1), Some(env));
}

#[test]
fn bvh_agrees_with_list() {
    for seed in 1..20u64 {
        let n = 1 + (seed as usize * 7) % 60;
        let (a, b) = scene(seed, n);
        let mut list = HittableList::new();
        for p in a {
            list.push(p);
        }
        let bvh = match Bvh::new(b, 0, 1, probe) {
            Ok(b) => b,
            Err(_) => panic!("a hierarchy over bounded plates"),
        };
        let mut g = Lcg(seed * 977);
        for _ in 0..200 {
            let ray = upward(g.next(100), g.next(100));
            let lo = g.next(200);
            let hi = lo + g.next(300);
            let from_list = list.hit(&ray, lo, hi).map(|h| h.t);
            let from_bvh = bvh.hit(&ray, lo, hi).map(|h| h.t);
            assert_eq!(from_list, from_bvh);
            if let Some(t) = from_bvh {
                assert!(lo <= t && t <= hi);
            }
        }
    }
}

#[test]
fn bvh_finds_the_least_parameter_of_all_objects() {
    let (a, b) = scene(99, 50);
    let bvh = match Bvh::new(b, 0, 1, probe) {
        Ok(b) => b,
        Err(_) => panic!("a hierarchy over fifty plates"),
    };
    let mut g = Lcg(5);
    for _ in 0..300 {
        let ray = upward(g.next(100), g.next(100));
        let mut least: Option<i64> = None;
        for p in a.iter() {
            if let Some(h) = p.hit(&ray, 1, INFINITY) {
                least = Some(least.map_or(h.t, |l| l.min(h.t)));
            }
        }
        assert_eq!(bvh.hit(&ray, 1, INFINITY).map(|h| h.t), least);
    }
}

#[test]
fn bvh_that_is_told_of_a_miss_looks_no_further() {
    let items = vec![plate(30, 0, 0, 5, 1), plate(20, 0, 0, 5, 2)];
    let blind = |_: &Ray, _: &Aabb, _: i64, _: i64| false;
    let bvh = match Bvh::new(items, 0, 1, blind) {
        Ok(b) => b,
        Err(_) => panic!("a hierarchy over two plates"),
    };
    assert!(bvh.hit(&upward(0, 0), 1, INFINITY).is_none());
}

#[test]
fn objects_nest() {
    let mut inner = HittableList::new();
    inner.push(plate(30, 0, 0, 5, 1));
    inner.push(plate(25, 0, 0, 5, 2));
    let moved = Translate::new(FlipNormals::new(inner), Vec3::new(0, 0, -20));
    let mut outer = HittableList::new();
    outer.push(moved);
    let hit = outer.hit(&upward(0, 0), 1, INFINITY).unwrap();
    assert_eq!(hit.t, 5);
    assert_eq!(*hit.material, 2);
    assert_eq!(hit.normal, Vec3::new(0, 0, 1));
}

fn tags(node: &BvhNode<Plate>, out: &mut Vec<u32>) {
    match node {
        BvhNode::Leaf { item, .. } => out.push(item.tag),
        BvhNode::Inner { left, right, .. } => {
            tags(left, out);
            tags(right, out);
        }
    }
}

fn depth(node: &BvhNode<Plate>) -> u32 {
    match node {
        BvhNode::Leaf { .. } => 0,
        BvhNode::Inner { left, right, .. } => 1 + depth(left).max(depth(right)),
    }
}

fn boxes_nest(node: &BvhNode<Plate>) -> bool {
    match node {
        BvhNode::Leaf { bounds, item } => Some(*bounds) == item.bounding_box(0, 1),
        BvhNode::Inner { bounds, left, right } => {
            *bounds == surrounding_box(left.bounding(), right.bounding())
                && bounds.contains(left.bounding())
                && bounds.contains(right.bounding())
                && boxes_nest(left)
                && boxes_nest(right)
        }
    }
}

#[test]
fn bvh_sorts_along_the_longest_axis_and_splits_in_the_middle() {
    // Spread along x: the centres lie at x = 50, 10, 30, 20, 40.
    let items = vec![
        plate(5, 50, 0, 1, 0),
        plate(5, 10, 0, 1, 1),
        plate(5, 30, 0, 1, 2),
        plate(5, 20, 0, 1, 3),
        plate(5, 40, 0, 1, 4),
    ];
    let bvh = match Bvh::new(items, 0, 1, probe) {
        Ok(b) => b,
        Err(_) => panic!("a hierarchy over five plates"),
    };
    let mut order = Vec::new();
    tags(bvh.root(), &mut order);
    assert_eq!(order, vec![1, 3, 2, 4, 0]);
    // Two go to the left and three to the right, which is split once more.
    match bvh.root() {
        BvhNode::Inner { left, right, bounds } => {
            assert_eq!(depth(left), 1);
            assert_eq!(depth(right), 2);
            assert_eq!(*bounds, Aabb::new(Vec3::new(9, -1, 5), Vec3::new(51, 1, 5)));
            assert_eq!(*left.bounding(), Aabb::new(Vec3::new(9, -1, 5), Vec3::new(21, 1, 5)));
            assert_eq!(*right.bounding(), Aabb::new(Vec3::new(29, -1, 5), Vec3::new(51, 1, 5)));
        }
        BvhNode::Leaf { .. } => panic!("five plates are more than a leaf"),
    }
    assert!(boxes_nest(bvh.root()));
}

#[test]
fn bvh_keeps_the_order_of_objects_with_the_same_centre() {
    let items = vec![
        plate(5, 10, 0, 1, 0),
        plate(6, 10, 0, 2, 1),
        plate(7, 0, 0, 1, 2),
        plate(8, 10, 0, 3, 3),
    ];
    let bvh = match Bvh::new(items, 0, 1, probe) {
        Ok(b) => b,
        Err(_) => panic!("a hierarchy over four plates"),
    };
    let mut order = Vec::new();
    tags(bvh.root(), &mut order);
    assert_eq!(order[0], 2);
    assert_eq!(order.len(), 4);
    let mut seen = order.clone();
    seen.sort();
    assert_eq!(seen, vec![0, 1, 2, 3]);
}

#[test]
fn bvh_holds_every_object_once_and_is_balanced() {
    for n in [1usize, 2, 3, 4, 7, 8, 9, 33, 100] {
        let (_, b) = scene(n as u64 + 3, n);
        let bvh = match Bvh::new(b, 0, 1, probe) {
            Ok(b) => b,
            Err(_) => panic!("a hierarchy over bounded plates"),
        };
        let mut found = Vec::new();
        tags(bvh.root(), &mut found);
        found.sort();
        assert_eq!(found, (0..n as u32).collect::<Vec<u32>>());
        let mut halvings = 0;
        let mut m = n;
        while m > 1 {
            m -= m / 2;
            halvings += 1;
        }
        assert_eq!(depth(bvh.root()), halvings);
        assert!(boxes_nest(bvh.root()));
    }
}

#[test]
fn the_eight_corners_of_a_box() {
    let b = Aabb::new(Vec3::new(0, 10, 100), Vec3::new(1, 11, 101));
    let want = [
        (0, 10, 100),
        (1, 10, 100),
        (0, 11, 100),
        (1, 11, 100),
        (0, 10, 101),
        (1, 10, 101),
        (0, 11, 101),
        (1, 11, 101),
    ];
    for (n, w) in want.iter().enumerate() {
        assert_eq!(corner_of(&b, n), Vec3::new(w.0, w.1, w.2));
    }
}

/// A quarter turn round the z axis, and the quarter turn back.
fn quarter(v: Vec3) -> Vec3 {
    Vec3::new(-v.y(), v.x(), v.z())
}

fn quarter_back(v: Vec3) -> Vec3 {
    Vec3::new(v.y(), -v.x(), v.z())
}

#[test]
fn turned_object_is_met_where_it_was_turned_to() {
    // The plate lies round (20, 0); turned a quarter it lies round (0, 20).
    let turned = Rotate::new(plate(10, 20, 0, 5, 1), quarter_back, quarter, 0, 1);
    assert!(turned.hit(&upward(20, 0), 1, INFINITY).is_none());
    let hit = turned.hit(&upward(1, 22), 1, INFINITY).unwrap();
    assert_eq!(hit.t, 10);
    assert_eq!(hit.p, Vec3::new(1, 22, 10));
    assert_eq!(hit.normal, Vec3::new(0, 0, -1));
    assert_eq!(*hit.material, 1);
    assert_eq!(
        turned.bounding_box(0, 1),
        Some(Aabb::new(Vec3::new(-5, 15, 10), Vec3::new(5, 25, 10)))
    );
    assert_eq!(turned.bounding_box(5, 9), turned.bounding_box(0, 1));
}

#[test]
fn turned_object_without_a_box_has_none() {
    let mut open = plate(10, 0, 0, 5, 2);
    open.bounded = false;
    let turned = Rotate::new(open, quarter_back, quarter, 0, 1);
    assert_eq!(turned.bounding_box(0, 1), None);
    assert_eq!(turned.hit(&upward(0, 0), 1, INFINITY).unwrap().t, 10);
}
