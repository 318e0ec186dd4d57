//! The board: a set of alive cells, and its advance by one generation.

use vstd::prelude::*;

use crate::order::{lemma_sorted_no_duplicates, search, strictly_sorted};
use crate::rules::{
    adjacent, adjacent_in, hits, in_isize, lemma_adjacent_in_counts, lemma_hits_all,
    lemma_hits_monotone, lemma_live_among_bounds, live_among, live_neighbours, neighbour,
    next_generation, Cell,
};
use crate::tally::{inc_counter, NeighbourTally};

verus! {

/// A board of Life: the set of its alive cells.
#[derive(Debug, PartialEq)]
pub struct Game {
    grid: Vec<Cell>,
}

impl View for Game {
    type V = Set<Cell>;

    /// The alive cells.
    closed spec fn view(&self) -> Set<Cell> {
        self.grid@.to_set()
    }
}

/// The position `p` as a cell, where it lies within the grid.
pub(crate) open spec fn position(p: (int, int)) -> Option<Cell> {
    if in_isize(p.0) && in_isize(p.1) {
        Some((p.0 as isize, p.1 as isize))
    } else {
        None
    }
}

impl Default for Game {
    /// A board with no alive cells.
    fn default() -> (r: Self)
        ensures
            r@ == Set::<Cell>::empty(),
    {
        Game::new()
    }
}

impl Game {
    #[verifier::type_invariant]
    spec fn inv(&self) -> bool {
        strictly_sorted(self.grid@)
    }

    /// Creates a board with no alive cells.
    pub fn new() -> (r: Self)
        ensures
            r@ == Set::<Cell>::empty(),
    {
        let r = Game { grid: Vec::new() };
        assert(r@ =~= Set::<Cell>::empty());
        r
    }

    /// Whether the cell `c` is alive.
    fn contains(&self, c: Cell) -> (r: bool)
        ensures
            r == self@.contains(c),
    {
        proof {
            use_type_invariant(self);
        }
        match search(&self.grid, c) {
            Ok(_) => true,
            Err(_) => false,
        }
    }

    /// Makes the cell at `(x, y)` alive; a cell already alive stays as it is.
    pub fn insert_cell(&mut self, x: isize, y: isize)
        ensures
            final(self)@ == old(self)@.insert((x, y)),
    {
        proof {
            use_type_invariant(&*self);
        }
        match search(&self.grid, (x, y)) {
            Ok(_) => {
                assert(self@ =~= old(self)@.insert((x, y)));
            },
            Err(i) => {
                let mut grid = Vec::new();
                std::mem::swap(&mut grid, &mut self.grid);
                grid.insert(i, (x, y));
                proof {
                    old(self).grid@.insert_ensures(i as int, (x, y));
                    assert forall|c: Cell| #[trigger] grid@.contains(c) <==> old(self).grid@.contains(c)
                        || c == (x, y) by {
                        if grid@.contains(c) {
                            let j = choose|j: int| 0 <= j < grid@.len() && grid@[j] == c;
                            if j < i {
                            } else if j > i {
                                assert(old(self).grid@[j - 1] == c);
                            }
                        }
                        if old(self).grid@.contains(c) {
                            let j = choose|j: int|
                                0 <= j < old(self).grid@.len() && old(self).grid@[j] == c;
                            if j < i {
                                assert(grid@[j] == c);
                            } else {
                                assert(grid@[j + 1] == c);
                            }
                        }
                        if c == (x, y) {
                            assert(grid@[i as int] == c);
                        }
                    }
                }
                self.grid = grid;
                assert(self@ =~= old(self)@.insert((x, y)));
            },
        }
    }

    /// The alive cells, in increasing order of `x`, then of `y`.
    pub fn alive_cells(&self) -> (r: Vec<Cell>)
        ensures
            strictly_sorted(r@),
            r@.to_set() == self@,
            r@.len() == self@.len(),
    {
        proof {
            use_type_invariant(self);
            lemma_sorted_no_duplicates(self.grid@);
            self.grid@.unique_seq_to_set();
        }
        let mut r: Vec<Cell> = Vec::new();
        let mut i: usize = 0;
        while i < self.grid.len()
            invariant
                i <= self.grid@.len(),
                r@ == self.grid@.take(i as int),
            decreases self.grid@.len() - i,
        {
            r.push(self.grid[i]);
            i += 1;
            assert(r@ =~= self.grid@.take(i as int));
        }
        assert(r@ =~= self.grid@);
        r
    }
}

impl Game {
    /// The generation after this one: an alive cell with two or three alive
    /// neighbours stays alive, a dead cell with exactly three becomes alive,
    /// and every other cell is dead.
    pub fn tick(&self) -> (r: Self)
        ensures
            r@ == next_generation(self@),
    {
        proof {
            use_type_invariant(self);
        }
        let ghost s = self@;
        let ghost g = self.grid@;
        proof {
            lemma_sorted_no_duplicates(g);
        }
        let mut dead_counters = NeighbourTally::new();
        let mut next = Game::new();
        let mut i: usize = 0;
        while i < self.grid.len()
            invariant
                s == self@,
                g == self.grid@,
                g.no_duplicates(),
                i <= g.len(),
                dead_counters.wf(),
                forall|d: Cell| #[trigger]
                    dead_counters.count(d) == if s.contains(d) {
                        0
                    } else {
                        adjacent_in(g.take(i as int), d)
                    },
                next@ == Set::new(
                    |c: Cell|
                        g.take(i as int).contains(c) && (live_neighbours(s, c) == 2
                            || live_neighbours(s, c) == 3),
                ),
            decreases g.len() - i,
        {
            proof {
                let q = g.take(i as int + 1);
                assert(q.drop_last() =~= g.take(i as int));
                assert(q.no_duplicates());
                assert forall|d: Cell|
                    !s.contains(d) implies #[trigger] dead_counters.count(d) + (if adjacent(
                        g[i as int],
                        d,
                    ) {
                        1int
                    } else {
                        0int
                    }) <= u8::MAX by {
                    lemma_adjacent_in_counts(q, d);
                    lemma_live_among_bounds(q.to_set(), d, 8);
                }
            }
            let (x, y) = self.grid[i];
            self.tick_for_alive_cell(&mut next, &mut dead_counters, x, y);
            i += 1;
            proof {
                let q = g.take(i as int);
                let p = g.take(i - 1);
                assert(q.drop_last() =~= p);
                assert(q.last() == (x, y));
                assert(next@ =~= Set::new(
                    |c: Cell|
                        q.contains(c) && (live_neighbours(s, c) == 2 || live_neighbours(s, c)
                            == 3),
                )) by {
                    assert forall|c: Cell| q.contains(c) <==> p.contains(c) || c == (
                        x,
                        y,
                    ) by {
                        if q.contains(c) {
                            let j = choose|j: int| 0 <= j < q.len() && q[j] == c;
                            if j < i - 1 {
                                assert(p[j] == c);
                            }
                        }
                        if p.contains(c) {
                            let j = choose|j: int| 0 <= j < p.len() && p[j] == c;
                            assert(q[j] == c);
                        }
                        if c == (x, y) {
                            assert(q[i - 1] == c);
                        }
                    }
                }
            }
        }
        proof {
            assert(g.take(g.len() as int) =~= g);
            dead_counters.lemma_cells();
        }
        let ghost survivors = next@;
        let ghost keys = dead_counters.cells();
        let mut j: usize = 0;
        while j < dead_counters.len()
            invariant
                dead_counters.wf(),
                keys == dead_counters.cells(),
                j <= keys.len(),
                next@ == survivors.union(
                    Set::new(|d: Cell| keys.take(j as int).contains(d) && dead_counters.count(d) == 3),
                ),
            decreases keys.len() - j,
        {
            let ghost before = next@;
            let (cell, count) = dead_counters.entry(j);
            if count == 3 {
                next.insert_cell(cell.0, cell.1);
            }
            j += 1;
            proof {
                let kq = keys.take(j as int);
                let kp = keys.take(j - 1);
                assert forall|d: Cell| kq.contains(d) <==> kp.contains(d)
                    || d == cell by {
                    if kq.contains(d) {
                        let m = choose|m: int| 0 <= m < kq.len() && kq[m] == d;
                        if m < j - 1 {
                            assert(kp[m] == d);
                        }
                    }
                    if kp.contains(d) {
                        let m = choose|m: int| 0 <= m < kp.len() && kp[m] == d;
                        assert(kq[m] == d);
                    }
                    if d == cell {
                        assert(kq[j - 1] == d);
                    }
                }
                assert(next@ == if count == 3 {
                    before.insert(cell)
                } else {
                    before
                });
                assert(next@ =~= survivors.union(
                    Set::new(|d: Cell| kq.contains(d) && dead_counters.count(d) == 3),
                ));
            }
        }
        proof {
            assert(keys.take(keys.len() as int) =~= keys);
            assert forall|c: Cell| next@.contains(c) == next_generation(s).contains(c) by {
                if !s.contains(c) {
                    lemma_adjacent_in_counts(g, c);
                }
            }
            assert(next@ =~= next_generation(s));
        }
        next
    }

    /// Adds the alive cell at `(x, y)` to `next` if it survives, and counts it
    /// once for each of its dead neighbours.
    fn tick_for_alive_cell(
        &self,
        next: &mut Self,
        dead_counters: &mut NeighbourTally,
        x: isize,
        y: isize,
    )
        requires
            old(dead_counters).wf(),
            forall|d: Cell|
                !self@.contains(d) ==> #[trigger] old(dead_counters).count(d) + (if adjacent(
                    (x, y),
                    d,
                ) {
                    1int
                } else {
                    0int
                }) <= u8::MAX,
        ensures
            final(next)@ == if live_neighbours(self@, (x, y)) == 2 || live_neighbours(
                self@,
                (x, y),
            ) == 3 {
                old(next)@.insert((x, y))
            } else {
                old(next)@
            },
            final(dead_counters).wf(),
            forall|d: Cell| #[trigger]
                final(dead_counters).count(d) == old(dead_counters).count(d) + if adjacent(
                    (x, y),
                    d,
                ) && !self@.contains(d) {
                    1int
                } else {
                    0int
                },
    {
        let ghost s = self@;
        let ghost c: Cell = (x, y);
        let positions = neighbour_positions(x, y);
        let mut neighbours: u8 = 0;
        let mut k: usize = 0;
        while k < 8
            invariant
                s == self@,
                c == (x, y),
                k <= 8,
                forall|m: int| 0 <= m < 8 ==> positions@[m] == position(neighbour(c, m)),
                neighbours as int == live_among(s, c, k as int),
                dead_counters.wf(),
                forall|d: Cell|
                    !s.contains(d) ==> #[trigger] old(dead_counters).count(d) + (if adjacent(
                        c,
                        d,
                    ) {
                        1int
                    } else {
                        0int
                    }) <= u8::MAX,
                forall|d: Cell| #[trigger]
                    dead_counters.count(d) == old(dead_counters).count(d) + if s.contains(d) {
                        0
                    } else {
                        hits(c, d, k as int)
                    },
            decreases 8 - k,
        {
            proof {
                lemma_live_among_bounds(s, c, k as int);
            }
            match positions[k] {
                Some(pos) => {
                    if self.contains(pos) {
                        neighbours += 1;
                    } else {
                        proof {
                            lemma_hits_all(c, pos);
                            lemma_hits_monotone(c, pos, k as int + 1, 8);
                        }
                        inc_counter(dead_counters, pos);
                    }
                },
                None => {},
            }
            k += 1;
        }
        proof {
            assert forall|d: Cell| #[trigger]
                dead_counters.count(d) == old(dead_counters).count(d) + if adjacent(c, d)
                    && !s.contains(d) {
                    1int
                } else {
                    0int
                } by {
                lemma_hits_all(c, d);
            }
        }
        if neighbours == 2 || neighbours == 3 {
            next.insert_cell(x, y);
        }
    }
}

/// The eight neighbour positions of `(x, y)`, in the order of `neighbour`;
/// `None` stands for a position outside the grid.
fn neighbour_positions(x: isize, y: isize) -> (r: [Option<Cell>; 8])
    ensures
        forall|k: int| 0 <= k < 8 ==> r@[k] == position(neighbour((x, y), k)),
{
    [
        // Top
        shifted(x, y, -1, -1),
        shifted(x, y, 0, -1),
        shifted(x, y, 1, -1),
        // Mid
        shifted(x, y, -1, 0),
        shifted(x, y, 1, 0),
        // Bottom
        shifted(x, y, -1, 1),
        shifted(x, y, 0, 1),
        shifted(x, y, 1, 1),
    ]
}

/// The cell `(x + dx, y + dy)`, where it lies within the grid.
fn shifted(x: isize, y: isize, dx: isize, dy: isize) -> (r: Option<Cell>)
    ensures
        r == position((x + dx, y + dy)),
{
    match (x.checked_add(dx), y.checked_add(dy)) {
        (Some(a), Some(b)) => Some((a, b)),
        _ => None,
    }
}

} // verus!
