//! The bounding volume hierarchy: a binary tree over a set of objects.

use crate::aabb::{surrounding, surrounding_box, Aabb};
use crate::hittable::{
    all_faithful, bound_of, bounded_by, closer, faithful, first_least, is_closest,
    lemma_closest_is_unique, lemma_list_hit_is_global, list_crossing, list_run, reports, HitRecord,
    Hittable,
};
use crate::ray::Ray;
use crate::vec3::Axis;
use vstd::prelude::*;
use vstd::seq_lib::{lemma_multiset_commutative, to_multiset_contains, to_multiset_insert};

verus! {

/// A node of the hierarchy.
pub enum BvhNode<H> {
    /// One object with its envelope.
    Leaf { bounds: Aabb, item: H },
    /// Two subtrees with the envelope of both.
    Inner { bounds: Aabb, left: Box<BvhNode<H>>, right: Box<BvhNode<H>> },
}

impl<H> BvhNode<H> {
    /// The envelope that the node stores.
    pub open spec fn bounds(self) -> Aabb {
        match self {
            BvhNode::Leaf { bounds, .. } => bounds,
            BvhNode::Inner { bounds, .. } => bounds,
        }
    }

    /// The envelope that the node stores.
    pub fn bounding(&self) -> (r: &Aabb)
        ensures
            *r == self.bounds(),
    {
        match self {
            BvhNode::Leaf { bounds, .. } => bounds,
            BvhNode::Inner { bounds, .. } => bounds,
        }
    }
}

/// An object together with its envelope.
pub struct Entry<H> {
    pub bounds: Aabb,
    pub item: H,
}

/// Why a hierarchy could not be built.
#[derive(Clone, Copy, Debug, PartialEq, Eq, Structural)]
pub enum BvhError {
    /// There was no object to build it from.
    Empty,
    /// One of the objects has no envelope.
    Unbounded,
}

/// `entries` holds the members of `list` in their order, each with an
/// envelope that it may give between the moments `t0` and `t1`.
pub open spec fn entries_of<H: Hittable>(
    list: Seq<H>,
    t0: i64,
    t1: i64,
    entries: Seq<Entry<H>>,
) -> bool {
    &&& entries.len() == list.len()
    &&& forall|i: int|
        0 <= i < list.len() ==> (#[trigger] entries[i]).item == list[i] && bounded_by(
            list[i],
            t0,
            t1,
            Some(entries[i].bounds),
        )
}

/// One member of `list` may give no envelope between the moments `t0` and
/// `t1`.
pub open spec fn some_unbounded<H: Hittable>(list: Seq<H>, t0: i64, t1: i64) -> bool {
    exists|i: int| 0 <= i < list.len() && #[trigger] bounded_by(list[i], t0, t1, None)
}

/// The envelope of all the entries.
pub open spec fn envelope<H>(entries: Seq<Entry<H>>) -> Aabb
    decreases entries.len(),
{
    if entries.len() <= 1 {
        entries.first().bounds
    } else {
        surrounding(envelope(entries.drop_last()), entries.last().bounds)
    }
}

/// `sorted` with `e` put in before the first entry whose centre along `axis`
/// does not lie before that of `e`.
pub open spec fn place<H>(sorted: Seq<Entry<H>>, e: Entry<H>, axis: Axis) -> Seq<Entry<H>>
    decreases sorted.len(),
{
    if sorted.len() == 0 || e.bounds.centroid2(axis) <= sorted.first().bounds.centroid2(axis) {
        seq![e] + sorted
    } else {
        seq![sorted.first()] + place(sorted.drop_first(), e, axis)
    }
}

/// The entries in the order of their centres along `axis`; entries with the
/// same centre keep their order.
pub open spec fn sorted_by_centroid<H>(entries: Seq<Entry<H>>, axis: Axis) -> Seq<Entry<H>>
    decreases entries.len(),
{
    if entries.len() == 0 {
        entries
    } else {
        place(sorted_by_centroid(entries.drop_first(), axis), entries.first(), axis)
    }
}

/// Placing an entry makes the sequence longer by one.
pub proof fn lemma_place_len<H>(sorted: Seq<Entry<H>>, e: Entry<H>, axis: Axis)
    ensures
        place(sorted, e, axis).len() == sorted.len() + 1,
    decreases sorted.len(),
{
    if !(sorted.len() == 0 || e.bounds.centroid2(axis) <= sorted.first().bounds.centroid2(axis)) {
        lemma_place_len(sorted.drop_first(), e, axis);
    }
}

/// Sorting keeps the number of entries.
pub proof fn lemma_sorted_len<H>(entries: Seq<Entry<H>>, axis: Axis)
    ensures
        sorted_by_centroid(entries, axis).len() == entries.len(),
    decreases entries.len(),
{
    if entries.len() > 0 {
        lemma_sorted_len(entries.drop_first(), axis);
        lemma_place_len(sorted_by_centroid(entries.drop_first(), axis), entries.first(), axis);
    }
}

/// The hierarchy over `entries`: one entry is a leaf; more are sorted along
/// the longest axis of their envelope and split in the middle, the first half
/// going to the left.
pub open spec fn tree_of<H>(entries: Seq<Entry<H>>) -> BvhNode<H>
    decreases entries.len(),
    via tree_of_terminates::<H>
{
    if entries.len() <= 1 {
        BvhNode::Leaf { bounds: entries.first().bounds, item: entries.first().item }
    } else {
        let axis = envelope(entries).spec_longest_axis();
        let sorted = sorted_by_centroid(entries, axis);
        let mid = entries.len() / 2;
        let left = tree_of(sorted.take(mid as int));
        let right = tree_of(sorted.skip(mid as int));
        BvhNode::Inner {
            bounds: surrounding(left.bounds(), right.bounds()),
            left: Box::new(left),
            right: Box::new(right),
        }
    }
}

#[via_fn]
proof fn tree_of_terminates<H>(entries: Seq<Entry<H>>) {
    if entries.len() > 1 {
        lemma_sorted_len(entries, envelope(entries).spec_longest_axis());
    }
}

/// The centres along `axis` never go down from one entry to the next.
pub open spec fn ordered<H>(entries: Seq<Entry<H>>, axis: Axis) -> bool {
    forall|i: int, j: int|
        0 <= i <= j < entries.len() ==> (#[trigger] entries[i]).bounds.centroid2(axis) <= (
        #[trigger] entries[j]).bounds.centroid2(axis)
}

/// Placing an entry adds it and neither loses nor repeats another.
pub proof fn lemma_place_permutes<H>(sorted: Seq<Entry<H>>, e: Entry<H>, axis: Axis)
    ensures
        place(sorted, e, axis).to_multiset() == sorted.to_multiset().insert(e),
    decreases sorted.len(),
{
    if sorted.len() == 0 || e.bounds.centroid2(axis) <= sorted.first().bounds.centroid2(axis) {
        assert(seq![e] + sorted =~= sorted.insert(0, e));
        to_multiset_insert(sorted, 0, e);
    } else {
        let head = sorted.first();
        let rest = sorted.drop_first();
        let placed = place(rest, e, axis);
        lemma_place_permutes(rest, e, axis);
        assert(seq![head] + placed =~= placed.insert(0, head));
        to_multiset_insert(placed, 0, head);
        assert(sorted =~= rest.insert(0, head));
        to_multiset_insert(rest, 0, head);
        assert(rest.to_multiset().insert(e).insert(head) =~= rest.to_multiset().insert(
            head,
        ).insert(e));
    }
}

/// Sorting neither loses nor repeats an entry.
pub proof fn lemma_sorted_permutes<H>(entries: Seq<Entry<H>>, axis: Axis)
    ensures
        sorted_by_centroid(entries, axis).to_multiset() == entries.to_multiset(),
    decreases entries.len(),
{
    if entries.len() == 0 {
    } else {
        let head = entries.first();
        let rest = entries.drop_first();
        lemma_sorted_permutes(rest, axis);
        lemma_place_permutes(sorted_by_centroid(rest, axis), head, axis);
        assert(entries =~= rest.insert(0, head));
        to_multiset_insert(rest, 0, head);
    }
}

/// Placing an entry into an ordered sequence leaves it ordered, and what is
/// then in the sequence is the entry or was there before.
pub proof fn lemma_place_ordered<H>(sorted: Seq<Entry<H>>, e: Entry<H>, axis: Axis)
    requires
        ordered(sorted, axis),
    ensures
        ordered(place(sorted, e, axis), axis),
        forall|i: int|
            0 <= i < place(sorted, e, axis).len() ==> (#[trigger] place(sorted, e, axis)[i]) == e
                || exists|j: int| 0 <= j < sorted.len() && sorted[j] == place(sorted, e, axis)[i],
    decreases sorted.len(),
{
    let out = place(sorted, e, axis);
    if sorted.len() == 0 || e.bounds.centroid2(axis) <= sorted.first().bounds.centroid2(axis) {
        assert forall|i: int, j: int| 0 <= i <= j < out.len() implies (
        #[trigger] out[i]).bounds.centroid2(axis) <= (#[trigger] out[j]).bounds.centroid2(
            axis,
        ) by {
            if i > 0 {
                assert(out[i] == sorted[i - 1]);
                assert(out[j] == sorted[j - 1]);
            } else if j > 0 {
                assert(out[j] == sorted[j - 1]);
                assert(sorted[0].bounds.centroid2(axis) <= sorted[j - 1].bounds.centroid2(axis));
            }
        }
        assert forall|i: int| 0 <= i < out.len() implies (#[trigger] out[i]) == e || exists|
            j: int,
        |
            0 <= j < sorted.len() && sorted[j] == out[i] by {
            if i > 0 {
                assert(sorted[i - 1] == out[i]);
            }
        }
    } else {
        let head = sorted.first();
        let rest = sorted.drop_first();
        let placed = place(rest, e, axis);
        assert forall|i: int, j: int| 0 <= i <= j < rest.len() implies (
        #[trigger] rest[i]).bounds.centroid2(axis) <= (#[trigger] rest[j]).bounds.centroid2(
            axis,
        ) by {
            assert(rest[i] == sorted[i + 1]);
            assert(rest[j] == sorted[j + 1]);
        }
        lemma_place_ordered(rest, e, axis);
        assert forall|i: int| 0 <= i < out.len() implies (#[trigger] out[i]) == e || exists|
            j: int,
        |
            0 <= j < sorted.len() && sorted[j] == out[i] by {
            if i == 0 {
                assert(sorted[0] == out[0]);
            } else {
                assert(out[i] == placed[i - 1]);
                if placed[i - 1] != e {
                    let j = choose|j: int| 0 <= j < rest.len() && rest[j] == placed[i - 1];
                    assert(sorted[j + 1] == out[i]);
                }
            }
        }
        assert forall|i: int, j: int| 0 <= i <= j < out.len() implies (
        #[trigger] out[i]).bounds.centroid2(axis) <= (#[trigger] out[j]).bounds.centroid2(
            axis,
        ) by {
            if i > 0 {
                assert(out[i] == placed[i - 1]);
                assert(out[j] == placed[j - 1]);
            } else if j > 0 {
                assert(out[j] == placed[j - 1]);
                if placed[j - 1] != e {
                    let k = choose|k: int| 0 <= k < rest.len() && rest[k] == placed[j - 1];
                    assert(rest[k] == sorted[k + 1]);
                    assert(sorted[0].bounds.centroid2(axis) <= sorted[k + 1].bounds.centroid2(
                        axis,
                    ));
                }
            }
        }
    }
}

/// The sorted entries are ordered by their centres.
pub proof fn lemma_sorted_ordered<H>(entries: Seq<Entry<H>>, axis: Axis)
    ensures
        ordered(sorted_by_centroid(entries, axis), axis),
    decreases entries.len(),
{
    if entries.len() > 0 {
        lemma_sorted_ordered(entries.drop_first(), axis);
        lemma_place_ordered(
            sorted_by_centroid(entries.drop_first(), axis),
            entries.first(),
            axis,
        );
    }
}

/// The entries at the leaves of the tree, from left to right.
pub open spec fn leaves<H>(node: BvhNode<H>) -> Seq<Entry<H>>
    decreases node,
{
    match node {
        BvhNode::Leaf { bounds, item } => seq![Entry { bounds, item }],
        BvhNode::Inner { left, right, .. } => leaves(*left) + leaves(*right),
    }
}

/// Every inner node stores the envelope of the envelopes of its two children.
pub open spec fn nested<H>(node: BvhNode<H>) -> bool
    decreases node,
{
    match node {
        BvhNode::Leaf { .. } => true,
        BvhNode::Inner { bounds, left, right } => {
            &&& bounds == surrounding(left.bounds(), right.bounds())
            &&& nested(*left)
            &&& nested(*right)
        },
    }
}

/// The number of inner nodes on the longest way from the node to a leaf.
pub open spec fn height<H>(node: BvhNode<H>) -> nat
    decreases node,
{
    match node {
        BvhNode::Leaf { .. } => 0,
        BvhNode::Inner { left, right, .. } => {
            let l = height(*left);
            let r = height(*right);
            if l >= r {
                l + 1
            } else {
                r + 1
            }
        },
    }
}

/// The leaves of the hierarchy over some entries are these entries, each one
/// once.
pub proof fn lemma_tree_leaves<H>(entries: Seq<Entry<H>>)
    requires
        entries.len() >= 1,
    ensures
        leaves(tree_of(entries)).to_multiset() == entries.to_multiset(),
        leaves(tree_of(entries)).len() == entries.len(),
    decreases entries.len(),
{
    if entries.len() == 1 {
        assert(leaves(tree_of(entries)) =~= entries);
    } else {
        let axis = envelope(entries).spec_longest_axis();
        let sorted = sorted_by_centroid(entries, axis);
        let mid = (entries.len() / 2) as int;
        lemma_sorted_len(entries, axis);
        lemma_sorted_permutes(entries, axis);
        let lo = sorted.take(mid);
        let hi = sorted.skip(mid);
        lemma_tree_leaves(lo);
        lemma_tree_leaves(hi);
        assert(sorted =~= lo + hi);
        lemma_multiset_commutative(lo, hi);
        lemma_multiset_commutative(leaves(tree_of(lo)), leaves(tree_of(hi)));
    }
}

/// In the hierarchy over some entries every inner node stores the envelope
/// of its two children, and a leaf stores the envelope of its entry.
pub proof fn lemma_tree_nested<H>(entries: Seq<Entry<H>>)
    requires
        entries.len() >= 1,
    ensures
        nested(tree_of(entries)),
    decreases entries.len(),
{
    if entries.len() > 1 {
        let axis = envelope(entries).spec_longest_axis();
        let sorted = sorted_by_centroid(entries, axis);
        let mid = (entries.len() / 2) as int;
        lemma_sorted_len(entries, axis);
        lemma_tree_nested(sorted.take(mid));
        lemma_tree_nested(sorted.skip(mid));
    }
}

/// In a tree whose inner nodes store the envelopes of their children, the
/// envelope of a node encloses the envelope of every leaf below it.
pub proof fn lemma_nested_encloses<H>(node: BvhNode<H>, i: int)
    requires
        nested(node),
        0 <= i < leaves(node).len(),
    ensures
        node.bounds().encloses(leaves(node)[i].bounds),
    decreases node,
{
    match node {
        BvhNode::Leaf { .. } => {},
        BvhNode::Inner { bounds, left, right } => {
            let l = leaves(*left);
            if i < l.len() {
                lemma_nested_encloses(*left, i);
            } else {
                lemma_nested_encloses(*right, i - l.len());
            }
        },
    }
}

/// In a tree whose inner nodes store the envelopes of their children, the
/// envelope of a node lies in every box that encloses the envelopes of all
/// leaves below it: it is the least such box.
pub proof fn lemma_nested_least<H>(node: BvhNode<H>, b: Aabb)
    requires
        nested(node),
        forall|i: int| 0 <= i < leaves(node).len() ==> b.encloses((#[trigger] leaves(node)[i]).bounds),
    ensures
        b.encloses(node.bounds()),
    decreases node,
{
    match node {
        BvhNode::Leaf { .. } => {
            assert(b.encloses(leaves(node)[0].bounds));
        },
        BvhNode::Inner { bounds, left, right } => {
            let l = leaves(*left);
            let r = leaves(*right);
            assert forall|i: int| 0 <= i < l.len() implies b.encloses((#[trigger] l[i]).bounds) by {
                assert(leaves(node)[i] == l[i]);
            }
            assert forall|i: int| 0 <= i < r.len() implies b.encloses((#[trigger] r[i]).bounds) by {
                assert(leaves(node)[i + l.len()] == r[i]);
            }
            lemma_nested_least(*left, b);
            lemma_nested_least(*right, b);
        },
    }
}

/// The hierarchy is balanced: over `n` entries no leaf lies deeper than the
/// number of times that `n` can be halved, rounding up, before it is 1.
pub proof fn lemma_tree_height<H>(entries: Seq<Entry<H>>)
    requires
        entries.len() >= 1,
    ensures
        height(tree_of(entries)) == halvings(entries.len()),
    decreases entries.len(),
{
    if entries.len() > 1 {
        let axis = envelope(entries).spec_longest_axis();
        let sorted = sorted_by_centroid(entries, axis);
        let n = entries.len();
        let mid = (n / 2) as int;
        lemma_sorted_len(entries, axis);
        lemma_tree_height(sorted.take(mid));
        lemma_tree_height(sorted.skip(mid));
        lemma_halvings_monotone((n / 2) as nat, (n - n / 2) as nat);
    }
}

/// How often `n` can be halved, rounding up, before it is 1.
pub open spec fn halvings(n: nat) -> nat
    decreases n,
{
    if n <= 1 {
        0
    } else {
        halvings((n - n / 2) as nat) + 1
    }
}

/// A smaller number is halved no more often.
pub proof fn lemma_halvings_monotone(a: nat, b: nat)
    requires
        a <= b,
    ensures
        halvings(a) <= halvings(b),
    decreases b,
{
    if a > 1 {
        lemma_halvings_monotone((a - a / 2) as nat, (b - b / 2) as nat);
    }
}

/// Where `place` puts an entry: at the first position `j` such that every
/// entry before it has its centre strictly before that of `e`.
proof fn lemma_place_at<H>(sorted: Seq<Entry<H>>, e: Entry<H>, axis: Axis, j: int)
    requires
        0 <= j <= sorted.len(),
        forall|i: int|
            0 <= i < j ==> (#[trigger] sorted[i]).bounds.centroid2(axis) < e.bounds.centroid2(
                axis,
            ),
        j == sorted.len() || e.bounds.centroid2(axis) <= sorted[j].bounds.centroid2(axis),
    ensures
        place(sorted, e, axis) == sorted.insert(j, e),
    decreases j,
{
    if j == 0 {
        assert(seq![e] + sorted =~= sorted.insert(0, e));
    } else {
        let head = sorted[0];
        assert(head.bounds.centroid2(axis) < e.bounds.centroid2(axis));
        let rest = sorted.drop_first();
        assert forall|i: int| 0 <= i < j - 1 implies (#[trigger] rest[i]).bounds.centroid2(axis)
            < e.bounds.centroid2(axis) by {
            assert(rest[i] == sorted[i + 1]);
        }
        lemma_place_at(rest, e, axis, j - 1);
        assert(seq![head] + rest.insert(j - 1, e) =~= sorted.insert(j, e));
    }
}

/// The members of `v` in the opposite order.
fn reversed<T>(v: Vec<T>) -> (r: Vec<T>)
    ensures
        r@.len() == v@.len(),
        forall|i: int| 0 <= i < r@.len() ==> r@[i] == v@[v@.len() - 1 - i],
{
    let mut v = v;
    let ghost whole = v@;
    let mut r: Vec<T> = Vec::new();
    while v.len() > 0
        invariant
            v@.len() + r@.len() == whole.len(),
            v@ == whole.take(v@.len() as int),
            forall|i: int| 0 <= i < r@.len() ==> r@[i] == whole[whole.len() - 1 - i],
        decreases v@.len(),
    {
        let last = v.pop().unwrap();
        r.push(last);
    }
    r
}

/// The envelope of all the entries.
fn envelope_of<H>(entries: &Vec<Entry<H>>) -> (r: Aabb)
    requires
        entries@.len() >= 1,
    ensures
        r == envelope(entries@),
{
    let mut acc: Aabb = entries[0].bounds;
    let mut i: usize = 1;
    proof {
        assert(entries@.take(1).first() == entries@[0]);
    }
    while i < entries.len()
        invariant
            1 <= i <= entries@.len(),
            acc == envelope(entries@.take(i as int)),
        decreases entries@.len() - i,
    {
        proof {
            assert(entries@.take(i + 1).drop_last() == entries@.take(i as int));
        }
        acc = surrounding_box(&acc, &entries[i].bounds);
        i += 1;
    }
    proof {
        assert(entries@.take(i as int) == entries@);
    }
    acc
}

/// The entries in the order of their centres along `axis`.
fn sort_entries<H>(src: Vec<Entry<H>>, axis: Axis) -> (out: Vec<Entry<H>>)
    ensures
        out@ == sorted_by_centroid(src@, axis),
{
    let mut src = src;
    let ghost whole = src@;
    let mut out: Vec<Entry<H>> = Vec::new();
    proof {
        assert(whole.skip(whole.len() as int) =~= Seq::<Entry<H>>::empty());
    }
    while src.len() > 0
        invariant
            src@ == whole.take(src@.len() as int),
            src@.len() <= whole.len(),
            out@ == sorted_by_centroid(whole.skip(src@.len() as int), axis),
        decreases src@.len(),
    {
        let ghost k = src@.len() - 1;
        let e = src.pop().unwrap();
        let mut j: usize = 0;
        while j < out.len() && out[j].bounds.centroid_before(&e.bounds, axis)
            invariant
                j <= out@.len(),
                forall|i: int|
                    0 <= i < j ==> (#[trigger] out@[i]).bounds.centroid2(axis)
                        < e.bounds.centroid2(axis),
            decreases out@.len() - j,
        {
            j += 1;
        }
        proof {
            lemma_place_at(out@, e, axis, j as int);
            assert(whole.skip(k).drop_first() == whole.skip(k + 1));
            assert(whole.skip(k).first() == e);
        }
        out.insert(j, e);
    }
    proof {
        assert(whole.skip(0) == whole);
    }
    out
}

/// The hierarchy over `entries`.
fn build<H>(entries: Vec<Entry<H>>) -> (r: BvhNode<H>)
    requires
        entries@.len() >= 1,
    ensures
        r == tree_of(entries@),
    decreases entries@.len(),
{
    let mut entries = entries;
    if entries.len() == 1 {
        let e = entries.pop().unwrap();
        return BvhNode::Leaf { bounds: e.bounds, item: e.item };
    }
    let env = envelope_of(&entries);
    let axis = env.longest_axis();
    let ghost before = entries@;
    let mut sorted = sort_entries(entries, axis);
    proof {
        lemma_sorted_len(before, axis);
    }
    let mid = sorted.len() / 2;
    let upper_half = sorted.split_off(mid);
    let left = build(sorted);
    let right = build(upper_half);
    let bounds = surrounding_box(left.bounding(), right.bounding());
    BvhNode::Inner { bounds, left: Box::new(left), right: Box::new(right) }
}

/// `r` is an answer that the subtree under `node` may give for `ray` between
/// `t_min` and `t_max`, where `probe` decides which envelopes the ray meets.
pub open spec fn node_reports<'a, H: Hittable, F: Fn(&Ray, &Aabb, i64, i64) -> bool>(
    node: BvhNode<H>,
    probe: F,
    ray: Ray,
    t_min: i64,
    t_max: i64,
    r: Option<HitRecord<'a, H::Surface>>,
) -> bool
    decreases node,
{
    match node {
        BvhNode::Leaf { item, .. } => reports(item, ray, t_min, t_max, r),
        BvhNode::Inner { bounds, left, right } => {
            ||| call_ensures(probe, (&ray, &bounds, t_min, t_max), false) && r is None
            ||| call_ensures(probe, (&ray, &bounds, t_min, t_max), true) && exists|
                l: Option<HitRecord<'a, H::Surface>>,
                s: Option<HitRecord<'a, H::Surface>>,
            |
                {
                    &&& node_reports(*left, probe, ray, t_min, t_max, l)
                    &&& (l matches Some(h) ==> t_min <= h.t <= t_max)
                    &&& node_reports(*right, probe, ray, t_min, bound_of(l, t_max), s)
                    &&& (s matches Some(h) ==> t_min <= h.t <= bound_of(l, t_max))
                    &&& r == #[trigger] closer(l, s)
                }
        },
    }
}

/// One of the leaves below `node` has a surface at the parameter `t`, where
/// `surfaces` tells at which parameters an object has one.
pub open spec fn node_crossing<H>(node: BvhNode<H>, surfaces: spec_fn(H, i64) -> bool, t: i64) -> bool {
    exists|i: int| 0 <= i < leaves(node).len() && surfaces((#[trigger] leaves(node)[i]).item, t)
}

/// Every leaf below `node` is faithful to its surfaces.
pub open spec fn faithful_leaves<H: Hittable>(
    node: BvhNode<H>,
    ray: Ray,
    surfaces: spec_fn(H, i64) -> bool,
) -> bool {
    forall|i: int|
        0 <= i < leaves(node).len() ==> faithful(
            (#[trigger] leaves(node)[i]).item,
            ray,
            |t: i64| surfaces(leaves(node)[i].item, t),
        )
}

/// `probe` reports the envelope of an inner node at or below `node` as
/// missed by `ray` only for a range in which no leaf below that node has a
/// surface.
pub open spec fn sound<H, F: Fn(&Ray, &Aabb, i64, i64) -> bool>(
    node: BvhNode<H>,
    probe: F,
    ray: Ray,
    surfaces: spec_fn(H, i64) -> bool,
) -> bool
    decreases node,
{
    match node {
        BvhNode::Leaf { .. } => true,
        BvhNode::Inner { bounds, left, right } => {
            &&& forall|lo: i64, hi: i64, t: i64|
                #![trigger call_ensures(probe, (&ray, &bounds, lo, hi), false), node_crossing(node, surfaces, t)]
                call_ensures(probe, (&ray, &bounds, lo, hi), false) && lo <= t <= hi
                    ==> !node_crossing(node, surfaces, t)
            &&& sound(*left, probe, ray, surfaces)
            &&& sound(*right, probe, ray, surfaces)
        },
    }
}

/// The leaves below an inner node are those below its left child followed by
/// those below its right child.
proof fn lemma_inner_crossing<H>(node: BvhNode<H>, surfaces: spec_fn(H, i64) -> bool, t: i64)
    requires
        node is Inner,
    ensures
        node_crossing(node, surfaces, t) <==> node_crossing(*node->left, surfaces, t)
            || node_crossing(*node->right, surfaces, t),
{
    let l = leaves(*node->left);
    let r = leaves(*node->right);
    let all = leaves(node);
    assert(all == l + r);
    if node_crossing(node, surfaces, t) {
        let i = choose|i: int| 0 <= i < all.len() && surfaces((#[trigger] all[i]).item, t);
        if i < l.len() {
            assert(l[i] == all[i]);
        } else {
            assert(r[i - l.len()] == all[i]);
        }
    }
    if node_crossing(*node->left, surfaces, t) {
        let i = choose|i: int| 0 <= i < l.len() && surfaces((#[trigger] l[i]).item, t);
        assert(all[i] == l[i]);
    }
    if node_crossing(*node->right, surfaces, t) {
        let i = choose|i: int| 0 <= i < r.len() && surfaces((#[trigger] r[i]).item, t);
        assert(all[i + l.len()] == r[i]);
    }
}

/// A hierarchy whose leaves all name their first surface, and whose test
/// misses no envelope with a surface in range inside, names the first
/// surface of all its leaves: what it returns lies between `t_min` and
/// `t_max`, is a surface of one leaf, and no leaf has a surface before it in
/// the range; it returns none only where no leaf has a surface in the range.
pub proof fn lemma_bvh_hit_is_global<'a, H: Hittable, F: Fn(&Ray, &Aabb, i64, i64) -> bool>(
    node: BvhNode<H>,
    probe: F,
    ray: Ray,
    t_min: i64,
    t_max: i64,
    r: Option<HitRecord<'a, H::Surface>>,
    surfaces: spec_fn(H, i64) -> bool,
)
    requires
        node_reports(node, probe, ray, t_min, t_max, r),
        r matches Some(h) ==> t_min <= h.t <= t_max,
        sound(node, probe, ray, surfaces),
        faithful_leaves(node, ray, surfaces),
    ensures
        is_closest(|t: i64| node_crossing(node, surfaces, t), t_min, t_max, r),
    decreases node,
{
    let meets = |t: i64| node_crossing(node, surfaces, t);
    match node {
        BvhNode::Leaf { bounds, item } => {
            let only = leaves(node)[0];
            assert(only.item == item);
            assert(faithful(only.item, ray, |t: i64| surfaces(leaves(node)[0].item, t)));
            let own = |t: i64| surfaces(leaves(node)[0].item, t);
            assert(is_closest(own, t_min, t_max, r));
            assert forall|t: i64| #[trigger] meets(t) == own(t) by {
                if node_crossing(node, surfaces, t) {
                    let i = choose|i: int|
                        0 <= i < leaves(node).len() && surfaces(
                            (#[trigger] leaves(node)[i]).item,
                            t,
                        );
                    assert(leaves(node)[i] == only);
                }
                if surfaces(item, t) {
                    assert(surfaces(leaves(node)[0].item, t));
                }
            }
            match r {
                Some(h) => {
                    assert(own(h.t));
                    assert(meets(h.t));
                    assert forall|t: i64| t_min <= t < h.t implies !#[trigger] meets(t) by {
                        assert(!own(t));
                    }
                },
                None => {
                    assert forall|t: i64| t_min <= t <= t_max implies !#[trigger] meets(t) by {
                        assert(!own(t));
                    }
                },
            }
        },
        BvhNode::Inner { bounds, left, right } => {
            assert forall|t: i64|
                #[trigger] meets(t) == (node_crossing(*left, surfaces, t) || node_crossing(
                    *right,
                    surfaces,
                    t,
                )) by {
                lemma_inner_crossing(node, surfaces, t);
            }
            assert forall|i: int| 0 <= i < leaves(*left).len() implies faithful(
                (#[trigger] leaves(*left)[i]).item,
                ray,
                |t: i64| surfaces(leaves(*left)[i].item, t),
            ) by {
                assert(leaves(node)[i] == leaves(*left)[i]);
                assert((|t: i64| surfaces(leaves(*left)[i].item, t)) =~= (|t: i64|
                    surfaces(leaves(node)[i].item, t)));
            }
            assert forall|i: int| 0 <= i < leaves(*right).len() implies faithful(
                (#[trigger] leaves(*right)[i]).item,
                ray,
                |t: i64| surfaces(leaves(*right)[i].item, t),
            ) by {
                let k = i + leaves(*left).len();
                assert(leaves(node)[k] == leaves(*right)[i]);
                assert((|t: i64| surfaces(leaves(*right)[i].item, t)) =~= (|t: i64|
                    surfaces(leaves(node)[k].item, t)));
            }
            if call_ensures(probe, (&ray, &bounds, t_min, t_max), false) && r is None {
                assert forall|t: i64| t_min <= t <= t_max implies !#[trigger] meets(t) by {
                    assert(!node_crossing(node, surfaces, t));
                }
            } else {
                let (l, s) = choose|
                    l: Option<HitRecord<'a, H::Surface>>,
                    s: Option<HitRecord<'a, H::Surface>>,
                |
                    {
                        &&& node_reports(*left, probe, ray, t_min, t_max, l)
                        &&& (l matches Some(h) ==> t_min <= h.t <= t_max)
                        &&& node_reports(*right, probe, ray, t_min, bound_of(l, t_max), s)
                        &&& (s matches Some(h) ==> t_min <= h.t <= bound_of(l, t_max))
                        &&& r == #[trigger] closer(l, s)
                    };
                let bound = bound_of(l, t_max);
                lemma_bvh_hit_is_global(*left, probe, ray, t_min, t_max, l, surfaces);
                lemma_bvh_hit_is_global(*right, probe, ray, t_min, bound, s, surfaces);
                let on_left = |t: i64| node_crossing(*left, surfaces, t);
                let on_right = |t: i64| node_crossing(*right, surfaces, t);
                assert(is_closest(on_left, t_min, t_max, l));
                assert(is_closest(on_right, t_min, bound, s));
                match r {
                    Some(h) => {
                        assert(on_left(h.t) || on_right(h.t));
                        assert(meets(h.t));
                        assert forall|t: i64| t_min <= t < h.t implies !#[trigger] meets(t) by {
                            assert(!on_left(t));
                            assert(!on_right(t));
                        }
                    },
                    None => {
                        assert forall|t: i64| t_min <= t <= t_max implies !#[trigger] meets(
                            t,
                        ) by {
                            assert(!on_left(t));
                            assert(!on_right(t));
                        }
                    },
                }
            }
        },
    }
}

/// The hierarchy over the members of a collection has a surface wherever the
/// collection has one, and nowhere else.
pub proof fn lemma_same_crossings<H: Hittable>(
    list: Seq<H>,
    t0: i64,
    t1: i64,
    entries: Seq<Entry<H>>,
    surfaces: spec_fn(H, i64) -> bool,
    t: i64,
)
    requires
        list.len() > 0,
        entries_of(list, t0, t1, entries),
    ensures
        node_crossing(tree_of(entries), surfaces, t) <==> list_crossing(list, surfaces, t),
{
    let tree = tree_of(entries);
    let found = leaves(tree);
    lemma_tree_leaves(entries);
    if node_crossing(tree, surfaces, t) {
        let i = choose|i: int| 0 <= i < found.len() && surfaces((#[trigger] found[i]).item, t);
        to_multiset_contains(found, found[i]);
        to_multiset_contains(entries, found[i]);
        assert(found.contains(found[i]));
        let j = choose|j: int| 0 <= j < entries.len() && entries[j] == found[i];
        assert(list[j] == entries[j].item);
    }
    if list_crossing(list, surfaces, t) {
        let j = choose|j: int| 0 <= j < list.len() && surfaces(#[trigger] list[j], t);
        assert(entries[j].item == list[j]);
        to_multiset_contains(entries, entries[j]);
        to_multiset_contains(found, entries[j]);
        assert(entries.contains(entries[j]));
        let i = choose|i: int| 0 <= i < found.len() && found[i] == entries[j];
        assert(surfaces(found[i].item, t));
    }
}

/// The leaves of the hierarchy over the members of a collection are
/// faithful to their surfaces where the members are.
pub proof fn lemma_leaves_faithful<H: Hittable>(
    list: Seq<H>,
    t0: i64,
    t1: i64,
    entries: Seq<Entry<H>>,
    ray: Ray,
    surfaces: spec_fn(H, i64) -> bool,
)
    requires
        list.len() > 0,
        entries_of(list, t0, t1, entries),
        all_faithful(list, ray, surfaces),
    ensures
        faithful_leaves(tree_of(entries), ray, surfaces),
{
    let found = leaves(tree_of(entries));
    lemma_tree_leaves(entries);
    assert forall|i: int| 0 <= i < found.len() implies faithful(
        (#[trigger] found[i]).item,
        ray,
        |t: i64| surfaces(found[i].item, t),
    ) by {
        to_multiset_contains(found, found[i]);
        to_multiset_contains(entries, found[i]);
        assert(found.contains(found[i]));
        let j = choose|j: int| 0 <= j < entries.len() && entries[j] == found[i];
        assert(list[j] == entries[j].item);
        assert(faithful(list[j], ray, |t: i64| surfaces(list[j], t)));
        assert((|t: i64| surfaces(found[i].item, t)) =~= (|t: i64| surfaces(list[j], t)));
    }
}

/// A hierarchy and a flat collection over the same objects agree: where the
/// objects all name their first surface and the test misses no envelope with
/// a surface in range inside, both find a surface or both find none, and
/// where they find one, they find it at the same parameter.
pub proof fn lemma_bvh_agrees_with_list<'a, 'b, H: Hittable, F: Fn(&Ray, &Aabb, i64, i64) -> bool>(
    list: Seq<H>,
    t0: i64,
    t1: i64,
    entries: Seq<Entry<H>>,
    probe: F,
    ray: Ray,
    t_min: i64,
    t_max: i64,
    replies: Seq<Option<HitRecord<'b, H::Surface>>>,
    r: Option<HitRecord<'a, H::Surface>>,
    surfaces: spec_fn(H, i64) -> bool,
)
    requires
        list.len() > 0,
        entries_of(list, t0, t1, entries),
        node_reports(tree_of(entries), probe, ray, t_min, t_max, r),
        r matches Some(h) ==> t_min <= h.t <= t_max,
        list_run(list, ray, t_min, t_max, replies),
        all_faithful(list, ray, surfaces),
        sound(tree_of(entries), probe, ray, surfaces),
    ensures
        r is Some <==> first_least(replies) is Some,
        r matches Some(h) ==> h.t == first_least(replies).unwrap().t,
{
    let tree = tree_of(entries);
    lemma_leaves_faithful(list, t0, t1, entries, ray, surfaces);
    lemma_bvh_hit_is_global(tree, probe, ray, t_min, t_max, r, surfaces);
    lemma_list_hit_is_global(list, ray, t_min, t_max, replies, surfaces);
    let in_list = |t: i64| list_crossing(list, surfaces, t);
    let in_tree = |t: i64| node_crossing(tree, surfaces, t);
    assert forall|t: i64| #[trigger] in_tree(t) == in_list(t) by {
        lemma_same_crossings(list, t0, t1, entries, surfaces, t);
    }
    assert(in_tree =~= in_list);
    lemma_closest_is_unique(in_list, t_min, t_max, r, first_least(replies));
}

fn hit_node<'a, H: Hittable, F: Fn(&Ray, &Aabb, i64, i64) -> bool>(
    node: &'a BvhNode<H>,
    probe: &F,
    ray: &Ray,
    t_min: i64,
    t_max: i64,
) -> (r: Option<HitRecord<'a, H::Surface>>)
    requires
        forall|q: &Ray, b: &Aabb, lo: i64, hi: i64| call_requires(*probe, (q, b, lo, hi)),
    ensures
        node_reports(*node, *probe, *ray, t_min, t_max, r),
        r matches Some(h) ==> t_min <= h.t <= t_max,
    decreases *node,
{
    match node {
        BvhNode::Leaf { item, .. } => item.hit(ray, t_min, t_max),
        BvhNode::Inner { bounds, left, right } => {
            let met = probe(ray, bounds, t_min, t_max);
            if !met {
                return None;
            }
            let l = hit_node(&**left, probe, ray, t_min, t_max);
            let bound = match &l {
                Some(h) => h.t,
                None => t_max,
            };
            let s = hit_node(&**right, probe, ray, t_min, bound);
            let ghost gl = l;
            let ghost gs = s;
            let r = match (l, s) {
                (Some(a), Some(b)) => if b.t < a.t {
                    Some(b)
                } else {
                    Some(a)
                },
                (Some(a), None) => Some(a),
                (None, s) => s,
            };
            assert(r == closer(gl, gs));
            r
        },
    }
}

/// A hierarchy over a set of objects, with the test that tells which
/// envelopes a ray meets.
pub struct Bvh<H: Hittable, F: Fn(&Ray, &Aabb, i64, i64) -> bool> {
    root: BvhNode<H>,
    probe: F,
}

impl<H: Hittable, F: Fn(&Ray, &Aabb, i64, i64) -> bool> Bvh<H, F> {
    #[verifier::type_invariant]
    spec fn probe_is_total(self) -> bool {
        forall|q: &Ray, b: &Aabb, lo: i64, hi: i64| call_requires(self.probe, (q, b, lo, hi))
    }

    /// The tree of the hierarchy.
    pub closed spec fn tree(self) -> BvhNode<H> {
        self.root
    }

    /// The test that the hierarchy carries.
    pub closed spec fn test(self) -> F {
        self.probe
    }

    /// The root of the tree.
    pub fn root(&self) -> (r: &BvhNode<H>)
        ensures
            *r == self.tree(),
    {
        &self.root
    }

    /// Builds the hierarchy over the members of `list`, with their envelopes
    /// between the moments `t0` and `t1`.  `probe` is the test that tells
    /// whether a ray meets an envelope within a range of its parameter.
    pub fn new(list: Vec<H>, t0: i64, t1: i64, probe: F) -> (r: Result<Self, BvhError>)
        requires
            forall|q: &Ray, b: &Aabb, lo: i64, hi: i64| call_requires(probe, (q, b, lo, hi)),
        ensures
            match r {
                Ok(bvh) => exists|entries: Seq<Entry<H>>|
                    {
                        &&& #[trigger] entries_of(list@, t0, t1, entries)
                        &&& list@.len() > 0
                        &&& bvh.tree() == tree_of(entries)
                        &&& bvh.test() == probe
                    },
                Err(BvhError::Empty) => list@.len() == 0,
                Err(BvhError::Unbounded) => list@.len() > 0 && some_unbounded(list@, t0, t1),
            },
    {
        if list.len() == 0 {
            return Err(BvhError::Empty);
        }
        let ghost whole = list@;
        let mut rest = reversed(list);
        let mut entries: Vec<Entry<H>> = Vec::new();
        while rest.len() > 0
            invariant
                whole == list@,
                rest@.len() + entries@.len() == whole.len(),
                forall|i: int| 0 <= i < rest@.len() ==> rest@[i] == whole[whole.len() - 1 - i],
                entries_of(whole.take(entries@.len() as int), t0, t1, entries@),
            decreases rest@.len(),
        {
            let ghost k = entries@.len() as int;
            let ghost before = entries@;
            let item = rest.pop().unwrap();
            assert(item == whole[k]);
            match item.bounding_box(t0, t1) {
                Some(bounds) => {
                    entries.push(Entry { bounds, item });
                    proof {
                        assert forall|i: int| 0 <= i < k + 1 implies (#[trigger] entries@[i]).item
                            == whole.take(k + 1)[i] && bounded_by(
                            whole.take(k + 1)[i],
                            t0,
                            t1,
                            Some(entries@[i].bounds),
                        ) by {
                            if i < k {
                                assert(whole.take(k + 1)[i] == whole.take(k)[i]);
                                assert(entries@[i] == before[i]);
                            }
                        }
                    }
                },
                None => {
                    assert(bounded_by(whole[k], t0, t1, None));
                    return Err(BvhError::Unbounded);
                },
            }
        }
        proof {
            assert(whole.take(whole.len() as int) == whole);
        }
        Ok(Bvh { root: build(entries), probe })
    }
}

impl<H: Hittable, F: Fn(&Ray, &Aabb, i64, i64) -> bool> Hittable for Bvh<H, F> {
    type Surface = H::Surface;

    /// Walks the tree from the root.  A subtree whose envelope the test
    /// reports as missed gives no answer; of the two answers of an inner node
    /// the closer one is returned, the left one where both are equally close.
    fn hit<'a>(&'a self, ray: &Ray, t_min: i64, t_max: i64) -> (r: Option<
        HitRecord<'a, H::Surface>,
    >)
        ensures
            node_reports(self.tree(), self.test(), *ray, t_min, t_max, r),
    {
        proof {
            use_type_invariant(self);
        }
        hit_node(&self.root, &self.probe, ray, t_min, t_max)
    }

    /// The envelope that the root of the tree stores.
    fn bounding_box(&self, t0: i64, t1: i64) -> (r: Option<Aabb>)
        ensures
            r == Some(self.tree().bounds()),
    {
        Some(*self.root.bounding())
    }
}

/// A hierarchy whose leaves are faithful to their surfaces, and whose test
/// misses no envelope with a surface in range inside, is faithful to the
/// surfaces of all its leaves.
pub proof fn lemma_bvh_faithful<H: Hittable, F: Fn(&Ray, &Aabb, i64, i64) -> bool>(
    bvh: Bvh<H, F>,
    ray: Ray,
    surfaces: spec_fn(H, i64) -> bool,
)
    requires
        sound(bvh.tree(), bvh.test(), ray, surfaces),
        faithful_leaves(bvh.tree(), ray, surfaces),
    ensures
        faithful(bvh, ray, |t: i64| node_crossing(bvh.tree(), surfaces, t)),
{
    let meets = |t: i64| node_crossing(bvh.tree(), surfaces, t);
    assert forall|t_min: i64, t_max: i64, r: Option<HitRecord<'_, H::Surface>>| #[trigger]
        reports(bvh, ray, t_min, t_max, r) implies is_closest(meets, t_min, t_max, r) by {
        lemma_bvh_hit_is_global(bvh.tree(), bvh.test(), ray, t_min, t_max, r, surfaces);
    }
}

} // verus!
