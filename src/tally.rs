//! A map from cells to small counts, kept as two parallel vectors sorted by cell.

use vstd::prelude::*;

use crate::order::{cell_lt, lemma_sorted_no_duplicates, search, strictly_sorted};
use crate::rules::Cell;

verus! {

/// Counts, for each cell, how many times it has been counted; cells never
/// counted are absent and stand for zero.
pub(crate) struct NeighbourTally {
    keys: Vec<Cell>,
    counts: Vec<u8>,
}

impl NeighbourTally {
    /// The cells that have been counted, in increasing order.
    pub(crate) closed spec fn cells(&self) -> Seq<Cell> {
        self.keys@
    }

    pub(crate) closed spec fn wf(&self) -> bool {
        &&& self.keys@.len() == self.counts@.len()
        &&& strictly_sorted(self.keys@)
        &&& forall|i: int| 0 <= i < self.counts@.len() ==> #[trigger] self.counts@[i] > 0
    }

    /// How many times `d` has been counted.
    pub(crate) closed spec fn count(&self, d: Cell) -> int {
        if self.keys@.contains(d) {
            self.counts@[self.keys@.index_of(d)] as int
        } else {
            0
        }
    }

    proof fn lemma_count_at(&self, i: int)
        requires
            self.wf(),
            0 <= i < self.keys@.len(),
        ensures
            self.count(self.keys@[i]) == self.counts@[i] as int,
    {
        let d = self.keys@[i];
        assert(self.keys@.contains(d));
        let j = self.keys@.index_of(d);
        if j != i {
            if i < j {
                assert(cell_lt(self.keys@[i], self.keys@[j]));
            } else {
                assert(cell_lt(self.keys@[j], self.keys@[i]));
            }
        }
    }

    /// The cells listed are exactly those counted at least once, each once.
    pub(crate) proof fn lemma_cells(&self)
        requires
            self.wf(),
        ensures
            self.cells().no_duplicates(),
            forall|d: Cell| #[trigger] self.cells().contains(d) <==> self.count(d) > 0,
    {
        assert forall|d: Cell| #[trigger] self.cells().contains(d) <==> self.count(d) > 0 by {
            if self.cells().contains(d) {
                let i = choose|i: int| 0 <= i < self.keys@.len() && self.keys@[i] == d;
                self.lemma_count_at(i);
            }
        }
        lemma_sorted_no_duplicates(self.keys@);
    }

    pub(crate) fn new() -> (r: Self)
        ensures
            r.wf(),
            forall|d: Cell| r.count(d) == 0,
    {
        NeighbourTally { keys: Vec::new(), counts: Vec::new() }
    }

    pub(crate) fn len(&self) -> (r: usize)
        requires
            self.wf(),
        ensures
            r == self.cells().len(),
    {
        self.keys.len()
    }

    /// The `i`-th counted cell and its count.
    pub(crate) fn entry(&self, i: usize) -> (r: (Cell, u8))
        requires
            self.wf(),
            i < self.cells().len(),
        ensures
            r.0 == self.cells()[i as int],
            r.1 as int == self.count(r.0),
    {
        proof {
            self.lemma_count_at(i as int);
        }
        (self.keys[i], self.counts[i])
    }
}

/// Counts `cell` once more.
pub(crate) fn inc_counter(map: &mut NeighbourTally, cell: Cell)
    requires
        old(map).wf(),
        old(map).count(cell) < u8::MAX,
    ensures
        final(map).wf(),
        forall|d: Cell| #[trigger]
            final(map).count(d) == old(map).count(d) + if d == cell {
                1int
            } else {
                0int
            },
{
    match search(&map.keys, cell) {
        Ok(i) => {
            proof {
                map.lemma_count_at(i as int);
            }
            let c = map.counts[i];
            map.counts[i] = c + 1;
            proof {
                assert forall|d: Cell| #[trigger]
                    map.count(d) == old(map).count(d) + if d == cell {
                        1int
                    } else {
                        0int
                    } by {
                    if map.keys@.contains(d) {
                        let j = choose|j: int| 0 <= j < map.keys@.len() && map.keys@[j] == d;
                        map.lemma_count_at(j);
                        old(map).lemma_count_at(j);
                    }
                }
            }
        },
        Err(i) => {
            map.keys.insert(i, cell);
            map.counts.insert(i, 1);
            proof {
                old(map).keys@.insert_ensures(i as int, cell);
                old(map).counts@.insert_ensures(i as int, 1u8);
                assert forall|d: Cell| #[trigger]
                    map.count(d) == old(map).count(d) + if d == cell {
                        1int
                    } else {
                        0int
                    } by {
                    if map.keys@.contains(d) {
                        let j = choose|j: int| 0 <= j < map.keys@.len() && map.keys@[j] == d;
                        map.lemma_count_at(j);
                        if j < i {
                            old(map).lemma_count_at(j);
                        } else if j > i {
                            old(map).lemma_count_at(j - 1);
                        }
                    } else {
                        assert(map.keys@[i as int] == cell);
                        if old(map).keys@.contains(d) {
                            let j = choose|j: int|
                                0 <= j < old(map).keys@.len() && old(map).keys@[j] == d;
                            if j < i {
                                assert(map.keys@[j] == d);
                            } else {
                                assert(map.keys@[j + 1] == d);
                            }
                        }
                    }
                }
            }
        },
    }
}

} // verus!
