//! The lattice of a gradient noise: three shuffled tables, and the gradient
//! that belongs to a corner of the lattice.

use rand::Rng;
use vstd::prelude::*;
use vstd::seq_lib::{to_multiset_contains, to_multiset_update};

verus! {

/// The numbers below `n` in their order.
pub open spec fn in_order(n: nat) -> Seq<u8> {
    Seq::new(n, |i: int| i as u8)
}

/// `p` holds each of the 256 numbers once.
pub open spec fn is_shuffle(p: Seq<u8>) -> bool {
    p.len() == 256 && p.to_multiset() == in_order(256).to_multiset()
}

/// The remainder of `i` by 256, which lies from 0 to 255 also where `i` is
/// below 0.
pub open spec fn wrapped(i: i64) -> int {
    i as int % 256
}

/// A number from 0 to `bound`, both included, from the generator that `rand`
/// keeps for the running thread: the call is
/// `rand::thread_rng().gen_range(0..=bound)`.  Which number comes back is
/// left open.  The call returns unless the operating system has refused the
/// thread its seed.
#[verifier::external_body]
fn random_up_to(bound: usize) -> (r: usize)
    ensures
        r <= bound,
{
    rand::thread_rng().gen_range(0..=bound)
}

/// Exchanges the members at the positions `i` and `j`.
pub fn exchange(p: &mut Vec<u8>, i: usize, j: usize)
    requires
        i < old(p)@.len(),
        j < old(p)@.len(),
    ensures
        final(p)@ == old(p)@.update(i as int, old(p)@[j as int]).update(j as int, old(p)@[i as int]),
        final(p)@.to_multiset() == old(p)@.to_multiset(),
{
    let a = p[i];
    let b = p[j];
    let ghost before = p@;
    p.set(i, b);
    p.set(j, a);
    proof {
        let mid = before.update(i as int, b);
        to_multiset_update(before, i as int, b);
        to_multiset_update(mid, j as int, a);
        to_multiset_contains(before, a);
        to_multiset_contains(before, b);
        assert(before.contains(a)) by {
            assert(before[i as int] == a);
        }
        assert(before.contains(b)) by {
            assert(before[j as int] == b);
        }
        if i == j {
            assert(p@ =~= before);
        } else {
            assert(mid[j as int] == b);
            assert(before.to_multiset().insert(b).remove(a).insert(a).remove(b)
                =~= before.to_multiset());
        }
    }
}

/// Shuffles `p`: from the last position down to the second, each member
/// changes places with one that is drawn from the positions up to its own.
pub fn permute(p: &mut Vec<u8>)
    ensures
        exists|targets: Seq<usize>|
            #[trigger] draws_fit(targets, old(p)@.len()) && final(p)@ == shuffled(
                old(p)@,
                targets,
                1,
            ),
        final(p)@.len() == old(p)@.len(),
        final(p)@.to_multiset() == old(p)@.to_multiset(),
{
    let ghost n = p@.len();
    let ghost mut targets: Seq<usize> = Seq::new(n, |k: int| 0usize);
    let mut i: usize = p.len();
    while i > 1
        invariant
            i <= n,
            n > 0 ==> i >= 1,
            n == old(p)@.len(),
            p@.len() == n,
            draws_fit(targets, n),
            p@ == shuffled(old(p)@, targets, i as int),
        decreases i,
    {
        i -= 1;
        let target = random_up_to(i);
        let ghost before = targets;
        proof {
            targets = before.update(i as int, target);
            lemma_shuffled_ignores_earlier(old(p)@, before, targets, i + 1);
        }
        exchange(p, i, target);
    }
    proof {
        lemma_shuffled_keeps_members(old(p)@, targets, 1);
    }
}

/// `s` with the members at the positions `i` and `j` exchanged.
pub open spec fn swapped(s: Seq<u8>, i: int, j: int) -> Seq<u8> {
    s.update(i, s[j]).update(j, s[i])
}

/// `targets` holds the draws of a shuffle of `n` members: for every position
/// from the second on, a position up to it.
pub open spec fn draws_fit(targets: Seq<usize>, n: nat) -> bool {
    &&& targets.len() == n
    &&& forall|k: int| 1 <= k < n ==> (#[trigger] targets[k]) <= k
}

/// `p` after the exchanges of a shuffle at the positions from the last one
/// down to `from`: at each of them, the member changes places with the one at
/// the position that was drawn for it.
pub open spec fn shuffled(p: Seq<u8>, targets: Seq<usize>, from: int) -> Seq<u8>
    decreases p.len() - from,
{
    if from >= p.len() {
        p
    } else {
        swapped(shuffled(p, targets, from + 1), from, targets[from] as int)
    }
}

/// The exchanges from a position down do not depend on what was drawn for
/// the positions before it.
proof fn lemma_shuffled_ignores_earlier(p: Seq<u8>, a: Seq<usize>, b: Seq<usize>, from: int)
    requires
        a.len() == b.len(),
        forall|k: int| from <= k < a.len() && 0 <= k ==> a[k] == b[k],
        0 <= from,
        a.len() == p.len(),
    ensures
        shuffled(p, a, from) == shuffled(p, b, from),
    decreases p.len() - from,
{
    if from < p.len() {
        lemma_shuffled_ignores_earlier(p, a, b, from + 1);
    }
}

/// The exchanges of a shuffle keep the number of the members, and neither
/// lose nor repeat one.
pub proof fn lemma_shuffled_keeps_members(p: Seq<u8>, targets: Seq<usize>, from: int)
    requires
        draws_fit(targets, p.len()),
        1 <= from,
    ensures
        shuffled(p, targets, from).len() == p.len(),
        shuffled(p, targets, from).to_multiset() == p.to_multiset(),
    decreases p.len() - from,
{
    if from < p.len() {
        lemma_shuffled_keeps_members(p, targets, from + 1);
        let before = shuffled(p, targets, from + 1);
        let j = targets[from] as int;
        let a = before[from];
        let b = before[j];
        let mid = before.update(from, b);
        to_multiset_update(before, from, b);
        to_multiset_update(mid, j, a);
        to_multiset_contains(before, a);
        to_multiset_contains(before, b);
        assert(before.contains(a)) by {
            assert(before[from] == a);
        }
        assert(before.contains(b)) by {
            assert(before[j] == b);
        }
        if from == j {
            assert(swapped(before, from, j) =~= before);
        } else {
            assert(mid[j] == b);
            assert(before.to_multiset().insert(b).remove(a).insert(a).remove(b)
                =~= before.to_multiset());
        }
    }
}

/// A table that holds each of the 256 numbers once, in an order that is
/// drawn afresh.
pub fn generate_perm() -> (p: Vec<u8>)
    ensures
        is_shuffle(p@),
{
    let mut p: Vec<u8> = Vec::new();
    let mut i: usize = 0;
    while i < 256
        invariant
            i <= 256,
            p@ == in_order(i as nat),
        decreases 256 - i,
    {
        p.push(i as u8);
        assert(p@ =~= in_order((i + 1) as nat));
        i += 1;
    }
    permute(&mut p);
    p
}

/// The three tables of a noise, one for each axis.
pub struct NoiseLattice {
    perm_x: Vec<u8>,
    perm_y: Vec<u8>,
    perm_z: Vec<u8>,
}

impl NoiseLattice {
    #[verifier::type_invariant]
    spec fn tables_are_shuffles(self) -> bool {
        is_shuffle(self.perm_x@) && is_shuffle(self.perm_y@) && is_shuffle(self.perm_z@)
    }

    /// The table of the first axis.
    pub closed spec fn xs(self) -> Seq<u8> {
        self.perm_x@
    }

    /// The table of the second axis.
    pub closed spec fn ys(self) -> Seq<u8> {
        self.perm_y@
    }

    /// The table of the third axis.
    pub closed spec fn zs(self) -> Seq<u8> {
        self.perm_z@
    }

    /// A lattice with three tables that are drawn afresh.
    pub fn new() -> (r: Self)
        ensures
            is_shuffle(r.xs()),
            is_shuffle(r.ys()),
            is_shuffle(r.zs()),
    {
        NoiseLattice { perm_x: generate_perm(), perm_y: generate_perm(), perm_z: generate_perm() }
    }

    /// The number of the gradient at the corner `(i, j, k)` of the lattice:
    /// the entries of the three tables at the three coordinates, each taken
    /// by its remainder by 256, combined bit by bit.
    pub fn corner(&self, i: i64, j: i64, k: i64) -> (r: u8)
        ensures
            r == self.xs()[wrapped(i)] ^ self.ys()[wrapped(j)] ^ self.zs()[wrapped(k)],
    {
        proof {
            use_type_invariant(self);
        }
        self.perm_x[wrap(i)] ^ self.perm_y[wrap(j)] ^ self.perm_z[wrap(k)]
    }
}

/// The remainder of `i` by 256.
pub fn wrap(i: i64) -> (r: usize)
    ensures
        r == wrapped(i),
        r < 256,
{
    if i >= 0 {
        (i % 256) as usize
    } else {
        let m = (-(i + 1)) % 256;
        (255 - m) as usize
    }
}

/// A shuffled table holds each number from 0 to 255 at one position, and at
/// one only.
pub proof fn lemma_shuffle_holds_each_once(p: Seq<u8>, v: u8)
    requires
        is_shuffle(p),
    ensures
        p.to_multiset().count(v) == 1,
        exists|i: int| 0 <= i < 256 && p[i] == v,
{
    let ordered = in_order(256);
    assert(ordered[v as int] == v);
    assert(ordered.to_multiset().count(v) == 1) by {
        lemma_in_order_counts(256, v);
    }
    to_multiset_contains(p, v);
    assert(p.contains(v));
}

/// Among the numbers below `n` in their order, a number below `n` occurs
/// once and another does not occur.
proof fn lemma_in_order_counts(n: nat, v: u8)
    requires
        n <= 256,
    ensures
        in_order(n).to_multiset().count(v) == if (v as nat) < n {
            1nat
        } else {
            0nat
        },
    decreases n,
{
    broadcast use vstd::multiset::group_multiset_axioms;

    if n == 0 {
        assert(in_order(0) =~= Seq::<u8>::empty());
        in_order(0).to_multiset_ensures();
    } else {
        let shorter = in_order((n - 1) as nat);
        lemma_in_order_counts((n - 1) as nat, v);
        assert(in_order(n) =~= shorter.push((n - 1) as u8));
        vstd::seq_lib::to_multiset_build(shorter, (n - 1) as u8);
    }
}

} // verus!
