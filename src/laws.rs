//! Facts about the rules that hold of every board of a given shape.

use vstd::prelude::*;

use crate::order::{cell_lt, strictly_sorted};
use crate::rules::{
    adjacent, alive_next, lemma_hits_all, lemma_live_among_empty, lemma_live_among_insert,
    live_neighbours, next_generation, Cell,
};

verus! {

/// A lone alive cell has no alive neighbour, so it dies; no dead cell has
/// three alive neighbours, so the next generation is empty.
pub proof fn lone_cell_dies(c: Cell)
    ensures
        next_generation(set![c]) == Set::<Cell>::empty(),
{
    assert forall|d: Cell| !alive_next(set![c], d) by {
        lemma_live_among_empty(d, 8);
        lemma_live_among_insert(Set::empty(), c, d, 8);
        lemma_hits_all(d, c);
    }
    assert(next_generation(set![c]) =~= Set::<Cell>::empty());
}

/// Two adjacent alive cells with no other alive cell each have one alive
/// neighbour, so both die; no dead cell has three alive neighbours, so the
/// next generation is empty.
pub proof fn adjacent_pair_dies(a: Cell, b: Cell)
    requires
        adjacent(a, b),
    ensures
        next_generation(set![a, b]) == Set::<Cell>::empty(),
{
    assert forall|d: Cell| !alive_next(set![a, b], d) by {
        lemma_live_among_empty(d, 8);
        lemma_live_among_insert(Set::empty(), a, d, 8);
        lemma_live_among_insert(set![a], b, d, 8);
        lemma_hits_all(d, a);
        lemma_hits_all(d, b);
        assert(live_neighbours(set![a, b], d) <= 2);
        if d == a || d == b {
            assert(live_neighbours(set![a, b], d) == 1);
        }
    }
    assert(next_generation(set![a, b]) =~= Set::<Cell>::empty());
}

/// Inserting a cell a second time changes nothing, and the ordered listing of
/// the alive cells holds that cell exactly once.
pub proof fn insert_twice_is_insert_once(s: Set<Cell>, c: Cell, listing: Seq<Cell>)
    requires
        strictly_sorted(listing),
        listing.to_set() == s.insert(c).insert(c),
    ensures
        s.insert(c).insert(c) == s.insert(c),
        exists|i: int|
            0 <= i < listing.len() && #[trigger] listing[i] == c && forall|j: int|
                0 <= j < listing.len() && #[trigger] listing[j] == c ==> j == i,
{
    assert(s.insert(c).insert(c) =~= s.insert(c));
    assert(listing.to_set().contains(c));
    let i = choose|i: int| 0 <= i < listing.len() && listing[i] == c;
    assert forall|j: int| 0 <= j < listing.len() && #[trigger] listing[j] == c implies j == i by {
        if j < i {
            assert(cell_lt(listing[j], listing[i]));
        } else if i < j {
            assert(cell_lt(listing[i], listing[j]));
        }
    }
}

} // verus!
