//! The rules of Life, stated over sets of alive cells.
//!
//! The grid is as wide as `isize`: a position outside that range is never
//! alive and never becomes alive, so a cell on the edge of the range simply
//! has fewer neighbours that can be alive.

use vstd::prelude::*;

verus! {

/// A grid position: column `x`, then row `y`.
pub type Cell = (isize, isize);

/// Whether `v` is representable as an `isize`.
pub open spec fn in_isize(v: int) -> bool {
    isize::MIN <= v <= isize::MAX
}

/// The offset of the `k`-th of the eight neighbours (`0 <= k < 8`): the row
/// above from left to right, then left and right, then the row below.
pub open spec fn offset(k: int) -> (int, int) {
    if k == 0 {
        (-1, -1)
    } else if k == 1 {
        (0, -1)
    } else if k == 2 {
        (1, -1)
    } else if k == 3 {
        (-1, 0)
    } else if k == 4 {
        (1, 0)
    } else if k == 5 {
        (-1, 1)
    } else if k == 6 {
        (0, 1)
    } else {
        (1, 1)
    }
}

/// The position of the `k`-th neighbour of `c`, in unbounded coordinates.
pub open spec fn neighbour(c: Cell, k: int) -> (int, int) {
    (c.0 + offset(k).0, c.1 + offset(k).1)
}

/// Whether the position `p` holds an alive cell of `s`.
pub open spec fn alive_at(s: Set<Cell>, p: (int, int)) -> bool {
    in_isize(p.0) && in_isize(p.1) && s.contains((p.0 as isize, p.1 as isize))
}

/// How many of the first `n` neighbours of `c` are alive in `s`.
pub open spec fn live_among(s: Set<Cell>, c: Cell, n: int) -> int
    decreases n,
{
    if n <= 0 {
        0
    } else {
        live_among(s, c, n - 1) + if alive_at(s, neighbour(c, n - 1)) {
            1int
        } else {
            0int
        }
    }
}

/// How many of the eight neighbours of `c` are alive in `s`.
pub open spec fn live_neighbours(s: Set<Cell>, c: Cell) -> int {
    live_among(s, c, 8)
}

/// Whether `c` is alive in the generation after `s`: an alive cell survives
/// with two or three alive neighbours, a dead one is born with exactly three.
pub open spec fn alive_next(s: Set<Cell>, c: Cell) -> bool {
    if s.contains(c) {
        live_neighbours(s, c) == 2 || live_neighbours(s, c) == 3
    } else {
        live_neighbours(s, c) == 3
    }
}

/// The generation after `s`.
pub open spec fn next_generation(s: Set<Cell>) -> Set<Cell> {
    Set::new(|c: Cell| alive_next(s, c))
}

/// `a` and `b` are distinct and touch horizontally, vertically or diagonally.
pub open spec fn adjacent(a: Cell, b: Cell) -> bool {
    a != b && -1 <= a.0 - b.0 <= 1 && -1 <= a.1 - b.1 <= 1
}

/// How many of the first `n` neighbour positions of `c` are the cell `d`.
pub open spec fn hits(c: Cell, d: Cell, n: int) -> int
    decreases n,
{
    if n <= 0 {
        0
    } else {
        hits(c, d, n - 1) + if neighbour(c, n - 1) == (d.0 as int, d.1 as int) {
            1int
        } else {
            0int
        }
    }
}

/// How many cells of `q` are adjacent to `d`, counted with repetition.
pub open spec fn adjacent_in(q: Seq<Cell>, d: Cell) -> int
    decreases q.len(),
{
    if q.len() == 0 {
        0
    } else {
        adjacent_in(q.drop_last(), d) + if adjacent(q.last(), d) {
            1int
        } else {
            0int
        }
    }
}

/// Of the eight neighbour positions of `c`, exactly one is `d` when the two
/// are adjacent, and none otherwise.
pub proof fn lemma_hits_all(c: Cell, d: Cell)
    ensures
        hits(c, d, 8) == if adjacent(c, d) { 1int } else { 0int },
{
    reveal_with_fuel(hits, 9);
}

/// Counting fewer neighbour positions finds no more hits.
pub proof fn lemma_hits_monotone(c: Cell, d: Cell, k: int, m: int)
    requires
        0 <= k <= m,
    ensures
        hits(c, d, k) <= hits(c, d, m),
    decreases m - k,
{
    if k < m {
        lemma_hits_monotone(c, d, k, m - 1);
    }
}

/// At most `n` of the first `n` neighbours are alive.
pub proof fn lemma_live_among_bounds(s: Set<Cell>, c: Cell, n: int)
    requires
        0 <= n,
    ensures
        0 <= live_among(s, c, n) <= n,
    decreases n,
{
    if n > 0 {
        lemma_live_among_bounds(s, c, n - 1);
    }
}

/// Adding a new alive cell `e` raises the count of each position by the
/// number of times `e` is among its neighbours.
pub proof fn lemma_live_among_insert(s: Set<Cell>, e: Cell, c: Cell, n: int)
    requires
        !s.contains(e),
    ensures
        live_among(s.insert(e), c, n) == live_among(s, c, n) + hits(c, e, n),
    decreases n,
{
    if n > 0 {
        lemma_live_among_insert(s, e, c, n - 1);
        let p = neighbour(c, n - 1);
        if in_isize(p.0) && in_isize(p.1) {
            assert(s.insert(e).contains((p.0 as isize, p.1 as isize)) == (s.contains(
                (p.0 as isize, p.1 as isize),
            ) || p == (e.0 as int, e.1 as int)));
        }
    }
}

/// Counting, cell by cell, the cells of `q` adjacent to `d` gives the number
/// of alive neighbours of `d` among the cells of `q`.
pub proof fn lemma_adjacent_in_counts(q: Seq<Cell>, d: Cell)
    requires
        q.no_duplicates(),
    ensures
        adjacent_in(q, d) == live_neighbours(q.to_set(), d),
    decreases q.len(),
{
    if q.len() == 0 {
        assert(q.to_set() =~= Set::empty());
        lemma_live_among_empty(d, 8);
    } else {
        let p = q.drop_last();
        let e = q.last();
        assert(p.no_duplicates());
        lemma_adjacent_in_counts(p, d);
        assert(!p.to_set().contains(e)) by {
            if p.contains(e) {
                let j = choose|j: int| 0 <= j < p.len() && p[j] == e;
                assert(q[j] == q[q.len() - 1]);
            }
        }
        assert(q.to_set() =~= p.to_set().insert(e)) by {
            assert(q =~= p.push(e));
        }
        lemma_live_among_insert(p.to_set(), e, d, 8);
        lemma_hits_all(d, e);
    }
}

/// No neighbour of any position is alive in an empty set.
pub proof fn lemma_live_among_empty(c: Cell, n: int)
    ensures
        live_among(Set::empty(), c, n) == 0,
    decreases n,
{
    if n > 0 {
        lemma_live_among_empty(c, n - 1);
    }
}

} // verus!
