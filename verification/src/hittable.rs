//! What a ray can be tested against, and the flat collection of such things.

use crate::aabb::{surrounding, surrounding_box, Aabb};
use crate::ray::Ray;
use crate::vec3::Vec3;
use vstd::prelude::*;

verus! {

/// One intersection of a ray with a surface.
pub struct HitRecord<'a, M> {
    /// The ray parameter at which the surface is met.
    pub t: i64,
    /// First surface coordinate.
    pub u: i64,
    /// Second surface coordinate.
    pub v: i64,
    /// The point that is met.
    pub p: Vec3,
    /// The surface normal at that point.
    pub normal: Vec3,
    /// The material of the surface.
    pub material: &'a M,
}

/// Anything that a ray can be tested against.
pub trait Hittable {
    /// The material that the surfaces of this object carry.
    type Surface;

    /// The closest intersection of `ray` with the object whose parameter lies
    /// between `t_min` and `t_max`, both included.
    fn hit<'a>(&'a self, ray: &Ray, t_min: i64, t_max: i64) -> (r: Option<
        HitRecord<'a, Self::Surface>,
    >)
        ensures
            r matches Some(h) ==> t_min <= h.t <= t_max,
    ;

    /// The envelope of the object between the moments `t0` and `t1`, or none
    /// where the object has no finite envelope.
    fn bounding_box(&self, t0: i64, t1: i64) -> (r: Option<Aabb>)
    ;

    /// The density with which `random` sends a direction from `origin`
    /// towards the object.  An object that is never aimed at has density 0.
    fn pdf_value(&self, origin: Vec3, direction: Vec3) -> (r: i64) {
        0
    }

    /// A direction from `origin` towards a point of the object.  An object
    /// that is never aimed at answers with the first axis.
    fn random(&self, origin: Vec3) -> (r: Vec3) {
        Vec3 { x: 1, y: 0, z: 0 }
    }
}

/// `r` is an answer that `item` may give when it is asked for its closest
/// intersection with `ray` between `t_min` and `t_max`.
pub open spec fn reports<'a, H: Hittable>(
    item: H,
    ray: Ray,
    t_min: i64,
    t_max: i64,
    r: Option<HitRecord<'a, H::Surface>>,
) -> bool {
    call_ensures(H::hit, (&item, &ray, t_min, t_max), r)
}

/// `r` is an answer that `item` may give when it is asked for its envelope
/// between the moments `t0` and `t1`.
pub open spec fn bounded_by<H: Hittable>(item: H, t0: i64, t1: i64, r: Option<Aabb>) -> bool {
    call_ensures(H::bounding_box, (&item, t0, t1), r)
}

/// Of two answers the one with the smaller parameter; the first one where the
/// parameters are equal.
pub open spec fn closer<'a, M>(
    first: Option<HitRecord<'a, M>>,
    second: Option<HitRecord<'a, M>>,
) -> Option<HitRecord<'a, M>> {
    match (first, second) {
        (Some(a), Some(b)) => if b.t < a.t {
            second
        } else {
            first
        },
        (Some(_), None) => first,
        (None, _) => second,
    }
}

/// Of a sequence of answers the one with the least parameter; the earliest
/// one where several share it.
pub open spec fn first_least<'a, M>(replies: Seq<Option<HitRecord<'a, M>>>) -> Option<
    HitRecord<'a, M>,
>
    decreases replies.len(),
{
    if replies.len() == 0 {
        None
    } else {
        closer(first_least(replies.drop_last()), replies.last())
    }
}

/// The upper end of the range that is still of interest once `best` is known.
pub open spec fn bound_of<'a, M>(best: Option<HitRecord<'a, M>>, t_max: i64) -> i64 {
    match best {
        Some(h) => h.t,
        None => t_max,
    }
}

/// The upper end of the range with which the member at position `i` is
/// asked: the parameter of the closest answer before it, or `t_max`.
pub open spec fn bound_at<'a, M>(replies: Seq<Option<HitRecord<'a, M>>>, t_max: i64, i: int) -> i64 {
    bound_of(first_least(replies.take(i)), t_max)
}

/// `replies` is what the members of `list` may answer when they are asked in
/// turn, each with the range cut down to the closest answer before it.
pub open spec fn list_run<'a, H: Hittable>(
    list: Seq<H>,
    ray: Ray,
    t_min: i64,
    t_max: i64,
    replies: Seq<Option<HitRecord<'a, H::Surface>>>,
) -> bool {
    &&& replies.len() == list.len()
    &&& forall|i: int|
        0 <= i < list.len() ==> {
            &&& #[trigger] reports(list[i], ray, t_min, bound_at(replies, t_max, i), replies[i])
            &&& (replies[i] matches Some(h) ==> t_min <= h.t <= bound_at(replies, t_max, i))
        }
}

/// The position of the closest of a sequence of answers, the earliest one
/// where several are equally close; -1 where every answer is none.
pub open spec fn first_least_index<'a, M>(replies: Seq<Option<HitRecord<'a, M>>>) -> int
    decreases replies.len(),
{
    if replies.len() == 0 {
        -1
    } else {
        match (first_least(replies.drop_last()), replies.last()) {
            (Some(a), Some(b)) => if b.t < a.t {
                replies.len() - 1
            } else {
                first_least_index(replies.drop_last())
            },
            (Some(_), None) => first_least_index(replies.drop_last()),
            (None, Some(_)) => replies.len() - 1,
            (None, None) => -1,
        }
    }
}

/// No answer is closer than `t`, and every answer before position `k` is
/// strictly farther.
pub open spec fn none_closer<'a, M>(replies: Seq<Option<HitRecord<'a, M>>>, t: i64, k: int) -> bool {
    forall|i: int|
        0 <= i < replies.len() ==> (#[trigger] replies[i] matches Some(g) ==> t <= g.t && (i < k
            ==> t < g.t))
}

/// Every answer is none.
pub open spec fn all_none<'a, M>(replies: Seq<Option<HitRecord<'a, M>>>) -> bool {
    forall|i: int| 0 <= i < replies.len() ==> #[trigger] replies[i] is None
}

/// The closest of a sequence of answers is one of them, no other answer is
/// closer, and every answer before it is strictly farther.  There is none
/// only where every answer is none.
pub proof fn lemma_first_least<'a, M>(replies: Seq<Option<HitRecord<'a, M>>>)
    ensures
        match first_least(replies) {
            Some(h) => {
                &&& 0 <= first_least_index(replies) < replies.len()
                &&& replies[first_least_index(replies)] == Some(h)
                &&& none_closer(replies, h.t, first_least_index(replies))
            },
            None => all_none(replies),
        },
    decreases replies.len(),
{
    if replies.len() > 0 {
        let front = replies.drop_last();
        let n = front.len() as int;
        lemma_first_least(front);
        assert forall|i: int| 0 <= i < n implies #[trigger] front[i] == replies[i] by {}
        match first_least(replies) {
            Some(h) => {
                let k = first_least_index(replies);
                assert forall|i: int| 0 <= i < replies.len() implies (
                #[trigger] replies[i] matches Some(g) ==> h.t <= g.t && (i < k ==> h.t < g.t)) by {
                    if i < n {
                        assert(front[i] == replies[i]);
                    }
                }
            },
            None => {
                assert forall|i: int| 0 <= i < replies.len() implies #[trigger] replies[i]
                    is None by {
                    if i < n {
                        assert(front[i] == replies[i]);
                    }
                }
            },
        }
    }
}

/// While a collection is asked member by member, the range never grows:
/// every member is asked with an upper end of at most `t_max`, and the
/// closest answer so far lies between `t_min` and `t_max`.
pub proof fn lemma_list_run_range<'a, H: Hittable>(
    list: Seq<H>,
    ray: Ray,
    t_min: i64,
    t_max: i64,
    replies: Seq<Option<HitRecord<'a, H::Surface>>>,
    i: int,
)
    requires
        list_run(list, ray, t_min, t_max, replies),
        0 <= i <= list.len(),
    ensures
        bound_at(replies, t_max, i) <= t_max,
        first_least(replies.take(i)) matches Some(h) ==> t_min <= h.t <= t_max,
    decreases i,
{
    if i > 0 {
        lemma_list_run_range(list, ray, t_min, t_max, replies, i - 1);
        assert(replies.take(i).drop_last() == replies.take(i - 1));
        assert(replies.take(i).last() == replies[i - 1]);
        assert(reports(list[i - 1], ray, t_min, bound_at(replies, t_max, i - 1), replies[i - 1]));
    }
}

/// What a collection returns lies between `t_min` and `t_max`, and none of
/// its members has given a closer answer.
pub proof fn lemma_list_hit_is_closest<'a, H: Hittable>(
    list: Seq<H>,
    ray: Ray,
    t_min: i64,
    t_max: i64,
    replies: Seq<Option<HitRecord<'a, H::Surface>>>,
)
    requires
        list_run(list, ray, t_min, t_max, replies),
    ensures
        match first_least(replies) {
            Some(h) => {
                &&& t_min <= h.t <= t_max
                &&& 0 <= first_least_index(replies) < replies.len()
                &&& replies[first_least_index(replies)] == Some(h)
                &&& none_closer(replies, h.t, first_least_index(replies))
            },
            None => all_none(replies),
        },
{
    lemma_first_least(replies);
    lemma_list_run_range(list, ray, t_min, t_max, replies, list.len() as int);
    assert(replies.take(list.len() as int) == replies);
}

/// `r` names the first surface between `t_min` and `t_max`, where `meets`
/// tells at which parameters there is a surface, or none where there is no
/// surface in that range.
pub open spec fn is_closest<'a, M>(
    meets: spec_fn(i64) -> bool,
    t_min: i64,
    t_max: i64,
    r: Option<HitRecord<'a, M>>,
) -> bool {
    match r {
        Some(h) => {
            &&& t_min <= h.t <= t_max
            &&& meets(h.t)
            &&& forall|t: i64| t_min <= t < h.t ==> !#[trigger] meets(t)
        },
        None => forall|t: i64| t_min <= t <= t_max ==> !#[trigger] meets(t),
    }
}

/// Whatever `item` answers about `ray` names the first of its surfaces in
/// the range that it is asked about, where `meets` tells at which parameters
/// of the ray the item has a surface.
pub open spec fn faithful<H: Hittable>(item: H, ray: Ray, meets: spec_fn(i64) -> bool) -> bool {
    forall|t_min: i64, t_max: i64, r: Option<HitRecord<'_, H::Surface>>| #[trigger]
        reports(item, ray, t_min, t_max, r) ==> is_closest(meets, t_min, t_max, r)
}

/// One of the members of `list` has a surface at the parameter `t`, where
/// `surfaces` tells at which parameters an object has one.
pub open spec fn list_crossing<H>(list: Seq<H>, surfaces: spec_fn(H, i64) -> bool, t: i64) -> bool {
    exists|i: int| 0 <= i < list.len() && surfaces(#[trigger] list[i], t)
}

/// Every member of `list` is faithful to its surfaces.
pub open spec fn all_faithful<H: Hittable>(
    list: Seq<H>,
    ray: Ray,
    surfaces: spec_fn(H, i64) -> bool,
) -> bool {
    forall|i: int| 0 <= i < list.len() ==> faithful(#[trigger] list[i], ray, |t: i64| surfaces(list[i], t))
}

/// The closest answer among the first `i` is no closer than the closest of
/// all.
proof fn lemma_bound_at_above<'a, M>(replies: Seq<Option<HitRecord<'a, M>>>, t_max: i64, i: int)
    requires
        0 <= i <= replies.len(),
        first_least(replies) matches Some(h) ==> h.t <= t_max,
    ensures
        first_least(replies) matches Some(h) ==> h.t <= bound_at(replies, t_max, i),
{
    lemma_first_least(replies);
    lemma_first_least(replies.take(i));
    match first_least(replies.take(i)) {
        Some(g) => {
            let k = first_least_index(replies.take(i));
            assert(replies.take(i)[k] == replies[k]);
        },
        None => {},
    }
}

/// A collection whose members all name their first surface names the first
/// surface of them all: what it returns lies between `t_min` and `t_max`,
/// is a surface of one member, and no member has a surface before it in the
/// range; it returns none only where no member has a surface in the range.
pub proof fn lemma_list_hit_is_global<'a, H: Hittable>(
    list: Seq<H>,
    ray: Ray,
    t_min: i64,
    t_max: i64,
    replies: Seq<Option<HitRecord<'a, H::Surface>>>,
    surfaces: spec_fn(H, i64) -> bool,
)
    requires
        list_run(list, ray, t_min, t_max, replies),
        all_faithful(list, ray, surfaces),
    ensures
        is_closest(|t: i64| list_crossing(list, surfaces, t), t_min, t_max, first_least(replies)),
{
    let meets = |t: i64| list_crossing(list, surfaces, t);
    lemma_list_hit_is_closest(list, ray, t_min, t_max, replies);
    match first_least(replies) {
        Some(h) => {
            let k = first_least_index(replies);
            assert(reports(list[k], ray, t_min, bound_at(replies, t_max, k), replies[k]));
            assert(faithful(list[k], ray, |t: i64| surfaces(list[k], t)));
            assert(is_closest(
                |t: i64| surfaces(list[k], t),
                t_min,
                bound_at(replies, t_max, k),
                replies[k],
            ));
            assert(surfaces(list[k], h.t));
            assert(meets(h.t));
            assert forall|t: i64| t_min <= t < h.t implies !#[trigger] meets(t) by {
                if list_crossing(list, surfaces, t) {
                    let i = choose|i: int| 0 <= i < list.len() && surfaces(#[trigger] list[i], t);
                    lemma_bound_at_above(replies, t_max, i);
                    assert(reports(list[i], ray, t_min, bound_at(replies, t_max, i), replies[i]));
                    assert(faithful(list[i], ray, |u: i64| surfaces(list[i], u)));
                    assert(is_closest(
                        |u: i64| surfaces(list[i], u),
                        t_min,
                        bound_at(replies, t_max, i),
                        replies[i],
                    ));
                    match replies[i] {
                        Some(g) => {
                            assert(h.t <= g.t);
                            assert(!(|u: i64| surfaces(list[i], u))(t));
                        },
                        None => {
                            assert(!(|u: i64| surfaces(list[i], u))(t));
                        },
                    }
                }
            }
        },
        None => {
            assert forall|t: i64| t_min <= t <= t_max implies !#[trigger] meets(t) by {
                if list_crossing(list, surfaces, t) {
                    let i = choose|i: int| 0 <= i < list.len() && surfaces(#[trigger] list[i], t);
                    lemma_first_least(replies.take(i));
                    match first_least(replies.take(i)) {
                        Some(g) => {
                            let k = first_least_index(replies.take(i));
                            assert(replies.take(i)[k] == replies[k]);
                            assert(replies[k] is None);
                        },
                        None => {},
                    }
                    assert(bound_at(replies, t_max, i) == t_max);
                    assert(reports(list[i], ray, t_min, bound_at(replies, t_max, i), replies[i]));
                    assert(faithful(list[i], ray, |u: i64| surfaces(list[i], u)));
                    assert(is_closest(|u: i64| surfaces(list[i], u), t_min, t_max, replies[i]));
                    assert(replies[i] is None);
                    assert(!(|u: i64| surfaces(list[i], u))(t));
                }
            }
        },
    }
}

/// Two answers that both name the first surface in the same range agree on
/// whether there is one and on its parameter.
pub proof fn lemma_closest_is_unique<'a, 'b, M, N>(
    meets: spec_fn(i64) -> bool,
    t_min: i64,
    t_max: i64,
    r: Option<HitRecord<'a, M>>,
    s: Option<HitRecord<'b, N>>,
)
    requires
        is_closest(meets, t_min, t_max, r),
        is_closest(meets, t_min, t_max, s),
    ensures
        r is Some <==> s is Some,
        r is Some ==> r.unwrap().t == s.unwrap().t,
{
    match (r, s) {
        (Some(a), Some(b)) => {
            if a.t < b.t {
                assert(!meets(a.t));
            } else if b.t < a.t {
                assert(!meets(b.t));
            }
        },
        (Some(a), None) => {
            assert(!meets(a.t));
        },
        (None, Some(b)) => {
            assert(!meets(b.t));
        },
        (None, None) => {},
    }
}

/// The envelope of all the boxes: none for the empty sequence and as soon as
/// one of its members is none.
pub open spec fn merged(boxes: Seq<Option<Aabb>>) -> Option<Aabb>
    decreases boxes.len(),
{
    if boxes.len() == 0 {
        None
    } else if boxes.len() == 1 {
        boxes[0]
    } else {
        match (merged(boxes.drop_last()), boxes.last()) {
            (Some(a), Some(b)) => Some(surrounding(a, b)),
            _ => None,
        }
    }
}

/// The envelope of a sequence of boxes is there where the sequence is not
/// empty and every box is there, and only then.
pub proof fn lemma_merged_is_some(boxes: Seq<Option<Aabb>>)
    ensures
        merged(boxes) is Some <==> boxes.len() > 0 && forall|i: int|
            0 <= i < boxes.len() ==> #[trigger] boxes[i] is Some,
    decreases boxes.len(),
{
    if boxes.len() > 1 {
        let front = boxes.drop_last();
        lemma_merged_is_some(front);
        assert forall|i: int| 0 <= i < front.len() implies front[i] == boxes[i] by {}
        if merged(boxes) is Some {
            assert forall|i: int| 0 <= i < boxes.len() implies #[trigger] boxes[i] is Some by {
                if i < front.len() {
                    assert(front[i] is Some);
                }
            }
        }
        if forall|i: int| 0 <= i < boxes.len() ==> #[trigger] boxes[i] is Some {
            assert forall|i: int| 0 <= i < front.len() implies #[trigger] front[i] is Some by {
                assert(boxes[i] is Some);
            }
        }
    }
}

/// The envelope of a sequence of boxes encloses each of them.
pub proof fn lemma_merged_encloses(boxes: Seq<Option<Aabb>>, i: int)
    requires
        merged(boxes) is Some,
        0 <= i < boxes.len(),
    ensures
        boxes[i] matches Some(b) && merged(boxes).unwrap().encloses(b),
    decreases boxes.len(),
{
    if boxes.len() > 1 {
        let front = boxes.drop_last();
        if i < front.len() {
            lemma_merged_encloses(front, i);
            assert(front[i] == boxes[i]);
        }
    }
}

/// `boxes` holds, member by member, an envelope that the members of `list`
/// may give between the moments `t0` and `t1`.
pub open spec fn list_boxes<H: Hittable>(
    list: Seq<H>,
    t0: i64,
    t1: i64,
    boxes: Seq<Option<Aabb>>,
) -> bool {
    &&& boxes.len() == list.len()
    &&& forall|i: int| 0 <= i < list.len() ==> #[trigger] bounded_by(list[i], t0, t1, boxes[i])
}

/// A collection of objects that is tested as one.
pub struct HittableList<H: Hittable> {
    pub list: Vec<H>,
}

impl<H: Hittable> HittableList<H> {
    /// The empty collection.
    pub fn new() -> (r: Self)
        ensures
            r.list@.len() == 0,
    {
        HittableList { list: Vec::new() }
    }

    /// Adds `hittable` as the last member.
    pub fn push(&mut self, hittable: H)
        ensures
            final(self).list@ == old(self).list@.push(hittable),
    {
        self.list.push(hittable)
    }
}

impl<H: Hittable> Hittable for HittableList<H> {
    type Surface = H::Surface;

    /// Asks every member in turn, each with the range cut down to the closest
    /// answer so far, and returns the closest answer: the earliest one where
    /// several are equally close.
    fn hit<'a>(&'a self, ray: &Ray, t_min: i64, t_max: i64) -> (r: Option<
        HitRecord<'a, H::Surface>,
    >)
        ensures
            exists|replies: Seq<Option<HitRecord<'a, H::Surface>>>|
                #[trigger] list_run(self.list@, *ray, t_min, t_max, replies) && r == first_least(
                    replies,
                ),
    {
        let mut closest_so_far: i64 = t_max;
        let mut hit_anything: Option<HitRecord<'a, H::Surface>> = None;
        let ghost mut replies: Seq<Option<HitRecord<'a, H::Surface>>> = Seq::empty();
        let mut i: usize = 0;
        while i < self.list.len()
            invariant
                i <= self.list@.len(),
                list_run(self.list@.take(i as int), *ray, t_min, t_max, replies),
                hit_anything == first_least(replies),
                closest_so_far == bound_of(hit_anything, t_max),
                hit_anything matches Some(h) ==> t_min <= h.t <= t_max,
            decreases self.list@.len() - i,
        {
            let reply = self.list[i].hit(ray, t_min, closest_so_far);
            assert(reports(self.list@[i as int], *ray, t_min, closest_so_far, reply));
            proof {
                let longer = replies.push(reply);
                assert(longer.drop_last() == replies);
                assert forall|j: int| 0 <= j < i + 1 implies {
                    &&& #[trigger] reports(
                        self.list@.take(i + 1)[j],
                        *ray,
                        t_min,
                        bound_at(longer, t_max, j),
                        longer[j],
                    )
                    &&& (longer[j] matches Some(h) ==> t_min <= h.t <= bound_at(longer, t_max, j))
                } by {
                    if j < i {
                        assert(longer.take(j) == replies.take(j));
                        assert(self.list@.take(i + 1)[j] == self.list@.take(i as int)[j]);
                        assert(reports(
                            self.list@.take(i as int)[j],
                            *ray,
                            t_min,
                            bound_at(replies, t_max, j),
                            replies[j],
                        ));
                    } else {
                        assert(longer.take(j) == replies);
                    }
                }
                replies = longer;
            }
            match reply {
                Some(h) => {
                    let replace = match &hit_anything {
                        Some(best) => h.t < best.t,
                        None => true,
                    };
                    if replace {
                        closest_so_far = h.t;
                        hit_anything = Some(h);
                    }
                },
                None => {},
            }
            i += 1;
        }
        proof {
            assert(self.list@.take(i as int) == self.list@);
        }
        hit_anything
    }

    /// The envelope of the envelopes of all members: none for the empty
    /// collection and as soon as one member has none.
    fn bounding_box(&self, t0: i64, t1: i64) -> (r: Option<Aabb>)
        ensures
            exists|boxes: Seq<Option<Aabb>>|
                #[trigger] list_boxes(self.list@, t0, t1, boxes) && r == merged(boxes),
    {
        let ghost mut boxes: Seq<Option<Aabb>> = Seq::empty();
        if self.list.len() == 0 {
            proof {
                assert(list_boxes(self.list@, t0, t1, boxes));
            }
            return None;
        }
        let mut acc: Option<Aabb> = self.list[0].bounding_box(t0, t1);
        proof {
            boxes = boxes.push(acc);
        }
        let mut i: usize = 1;
        while i < self.list.len()
            invariant
                1 <= i <= self.list@.len(),
                list_boxes(self.list@.take(i as int), t0, t1, boxes),
                acc == merged(boxes),
            decreases self.list@.len() - i,
        {
            let next = self.list[i].bounding_box(t0, t1);
            proof {
                let longer = boxes.push(next);
                assert(longer.drop_last() == boxes);
                assert forall|j: int| 0 <= j < i + 1 implies #[trigger] bounded_by(
                    self.list@.take(i + 1)[j],
                    t0,
                    t1,
                    longer[j],
                ) by {
                    if j < i {
                        assert(bounded_by(self.list@.take(i as int)[j], t0, t1, boxes[j]));
                    }
                }
                boxes = longer;
            }
            acc =
            match (acc, next) {
                (Some(a), Some(b)) => Some(surrounding_box(&a, &b)),
                _ => None,
            };
            i += 1;
        }
        proof {
            assert(self.list@.take(i as int) == self.list@);
        }
        acc
    }
}

/// `r` is `inner` with the normal turned round.
pub open spec fn flipped<'a, M>(inner: Option<HitRecord<'a, M>>) -> Option<HitRecord<'a, M>> {
    match inner {
        Some(h) => Some(
            HitRecord {
                t: h.t,
                u: h.u,
                v: h.v,
                p: h.p,
                normal: h.normal.negated(),
                material: h.material,
            },
        ),
        None => None,
    }
}

/// An object seen from its other side: its normals point the opposite way.
pub struct FlipNormals<H: Hittable> {
    pub hittable: H,
}

impl<H: Hittable> FlipNormals<H> {
    pub fn new(hittable: H) -> (r: Self)
        ensures
            r.hittable == hittable,
    {
        FlipNormals { hittable }
    }
}

impl<H: Hittable> Hittable for FlipNormals<H> {
    type Surface = H::Surface;

    /// What the wrapped object answers, with the normal turned round.
    fn hit<'a>(&'a self, ray: &Ray, t_min: i64, t_max: i64) -> (r: Option<
        HitRecord<'a, H::Surface>,
    >)
        ensures
            exists|inner: Option<HitRecord<'a, H::Surface>>|
                #[trigger] reports(self.hittable, *ray, t_min, t_max, inner) && r == flipped(
                    inner,
                ),
    {
        let inner = self.hittable.hit(ray, t_min, t_max);
        assert(reports(self.hittable, *ray, t_min, t_max, inner));
        match inner {
            Some(h) => Some(
                HitRecord {
                    t: h.t,
                    u: h.u,
                    v: h.v,
                    p: h.p,
                    normal: h.normal.neg(),
                    material: h.material,
                },
            ),
            None => None,
        }
    }

    /// The envelope of the wrapped object.
    fn bounding_box(&self, t0: i64, t1: i64) -> (r: Option<Aabb>)
        ensures
            bounded_by(self.hittable, t0, t1, r),
    {
        self.hittable.bounding_box(t0, t1)
    }
}

/// A collection of objects that are faithful to their surfaces is faithful
/// to the surfaces of them all.
pub proof fn lemma_list_faithful<H: Hittable>(
    list: HittableList<H>,
    ray: Ray,
    surfaces: spec_fn(H, i64) -> bool,
)
    requires
        all_faithful(list.list@, ray, surfaces),
    ensures
        faithful(list, ray, |t: i64| list_crossing(list.list@, surfaces, t)),
{
    let meets = |t: i64| list_crossing(list.list@, surfaces, t);
    assert forall|t_min: i64, t_max: i64, r: Option<HitRecord<'_, H::Surface>>| #[trigger]
        reports(list, ray, t_min, t_max, r) implies is_closest(meets, t_min, t_max, r) by {
        let replies = choose|replies: Seq<Option<HitRecord<'_, H::Surface>>>|
            #[trigger] list_run(list.list@, ray, t_min, t_max, replies) && r == first_least(
                replies,
            );
        lemma_list_hit_is_global(list.list@, ray, t_min, t_max, replies, surfaces);
    }
}

/// An object seen from its other side has its surfaces where it had them.
pub proof fn lemma_flip_faithful<H: Hittable>(
    flip: FlipNormals<H>,
    ray: Ray,
    meets: spec_fn(i64) -> bool,
)
    requires
        faithful(flip.hittable, ray, meets),
    ensures
        faithful(flip, ray, meets),
{
    assert forall|t_min: i64, t_max: i64, r: Option<HitRecord<'_, H::Surface>>| #[trigger]
        reports(flip, ray, t_min, t_max, r) implies is_closest(meets, t_min, t_max, r) by {
        let inner = choose|inner: Option<HitRecord<'_, H::Surface>>|
            #[trigger] reports(flip.hittable, ray, t_min, t_max, inner) && r == flipped(inner);
        assert(is_closest(meets, t_min, t_max, inner));
    }
}

} // verus!
