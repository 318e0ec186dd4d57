//! Conway's Game of Life on a sparse grid of `isize` coordinates.
//!
//! A [`Game`] holds the set of alive cells; `Game::tick` computes the next
//! generation as `next_generation` states it. Positions beyond the range of
//! `isize` are never alive, so no coordinate arithmetic overflows.

mod game;
mod laws;
mod order;
mod rules;
mod tally;

pub use game::Game;
pub use laws::{adjacent_pair_dies, insert_twice_is_insert_once, lone_cell_dies};
pub use order::{cell_lt, strictly_sorted};
pub use rules::{
    adjacent, alive_at, alive_next, in_isize, live_among, live_neighbours, neighbour,
    next_generation, offset, Cell,
};
