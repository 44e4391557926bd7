//! Orders of play: the cells of a board in a shuffled order, drawn either
//! from the xorshift generator of this library or from a generator of the
//! `rand` crate.

use vstd::prelude::*;
use rand::rngs::SmallRng;
use rand::seq::SliceRandom;
use crate::game::is_permutation;
use crate::xorshift::{next_state, scaled, XorShift};

verus! {

/// `rand::rngs::SmallRng`, a generator whose state this library never
/// looks into.
#[verifier::external_type_specification]
#[verifier::external_body]
pub struct ExSmallRng(rand::rngs::SmallRng);

/// The first `n` indices in rising order.
pub open spec fn rising(n: nat) -> Seq<usize> {
    Seq::new(n, |i: int| i as usize)
}

/// The order that the inside-out shuffle builds for `n` cells from a
/// generator in the given state, and the state in which it leaves the
/// generator. Cell `n - 1` comes last: it takes a place drawn among the
/// first `n`, and what stood there moves to the end.
pub open spec fn inside_out(state: u64, n: nat) -> (Seq<usize>, u64)
    decreases n,
{
    if n == 0 {
        (Seq::empty(), state)
    } else {
        let (prev, before) = inside_out(state, (n - 1) as nat);
        let after = next_state(before);
        let j = scaled(after, n as u32);
        let last = (n - 1) as usize;
        let moved = if j < prev.len() {
            prev[j]
        } else {
            last
        };
        (prev.push(moved).update(j, last), after)
    }
}

/// The first `n` indices in rising order.
pub fn ascending(n: usize) -> (order: Vec<usize>)
    ensures
        order@ == rising(n as nat),
        is_permutation(order@, n as int),
{
    let mut order: Vec<usize> = Vec::new();
    let mut i: usize = 0;
    while i < n
        invariant
            i <= n,
            order@.len() == i,
            forall|k: int| 0 <= k < i ==> order@[k] == k,
        decreases n - i,
    {
        order.push(i);
        i = i + 1;
    }
    assert(order@ =~= rising(n as nat));
    order
}

/// The indices of `n` cells in the order of the inside-out shuffle, each
/// place drawn from `rng`.
pub fn shuffle(rng: &mut XorShift, n: usize) -> (order: Vec<usize>)
    requires
        n <= u32::MAX,
    ensures
        order@ == inside_out(old(rng).state(), n as nat).0,
        final(rng).state() == inside_out(old(rng).state(), n as nat).1,
        is_permutation(order@, n as int),
{
    let ghost start = rng.state();
    let mut order: Vec<usize> = Vec::new();
    let mut i: usize = 0;
    while i < n
        invariant
            i <= n,
            n <= u32::MAX,
            order@ == inside_out(start, i as nat).0,
            rng.state() == inside_out(start, i as nat).1,
            is_permutation(order@, i as int),
        decreases n - i,
    {
        let ghost prev = order@;
        let j: usize = rng.rand((i + 1) as u32) as usize;
        if j == i {
            order.push(i);
        } else {
            let moved: usize = order[j];
            order.push(moved);
            order.set(j, i);
        }
        proof {
            assert(order@ =~= inside_out(start, (i + 1) as nat).0);
            assert forall|a: int, b: int| 0 <= a < order@.len() && 0 <= b < order@.len() && a != b implies order@[a]
                != order@[b] by {
                if a < i && b < i {
                    assert(prev[a] != prev[b]);
                }
                if a < i && j < i {
                    assert(a != j ==> prev[a] != prev[j as int]);
                }
                if b < i && j < i {
                    assert(b != j ==> prev[b] != prev[j as int]);
                }
            }
        }
        i = i + 1;
    }
    order
}

/// `rand::seq::SliceRandom::shuffle` on the cells, with `rng` as the
/// source of randomness. It swaps elements of the slice and does nothing
/// else to it, so the cells afterwards are the cells before in some order.
/// Which order is not stated: it depends on the generator.
#[verifier::external_body]
fn shuffle_cells(cells: &mut Vec<usize>, rng: &mut SmallRng)
    ensures
        final(cells)@.to_multiset() == old(cells)@.to_multiset(),
{
    cells.shuffle(rng);
}

/// A sequence with the same elements as the first `n` indices in rising
/// order names each of them exactly once.
pub proof fn lemma_rearranged_is_permutation(order: Seq<usize>, n: nat)
    requires
        n <= usize::MAX,
        order.to_multiset() == rising(n).to_multiset(),
    ensures
        is_permutation(order, n as int),
{
    let id = rising(n);
    order.to_multiset_ensures();
    id.to_multiset_ensures();
    assert forall|k: int| 0 <= k < id.len() implies #[trigger] id[k] == k by {}
    id.lemma_multiset_has_no_duplicates();
    order.lemma_multiset_has_no_duplicates_conv();
    assert forall|i: int| 0 <= i < order.len() implies 0 <= #[trigger] order[i] < n by {
        assert(order.contains(order[i]));
        assert(id.to_multiset().count(order[i]) > 0);
        assert(id.contains(order[i]));
        let k = choose|k: int| 0 <= k < id.len() && id[k] == order[i];
        assert(id[k] == k);
    }
}

/// The indices of `n` cells in an order drawn from `rng`.
pub fn shuffled_cells(rng: &mut SmallRng, n: usize) -> (order: Vec<usize>)
    ensures
        is_permutation(order@, n as int),
{
    let mut order: Vec<usize> = ascending(n);
    shuffle_cells(&mut order, rng);
    proof {
        lemma_rearranged_is_permutation(order@, n as nat);
    }
    order
}

} // verus!
