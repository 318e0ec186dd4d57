use life::{Cell, Game};

fn board(cells: &[Cell]) -> Game {
    let mut game = Game::new();
    for &(x, y) in cells {
        game.insert_cell(x, y);
    }
    game
}

#[test]
fn tick_leaves_receiver_unchanged() {
    let game = board(&[(0, 1), (1, 1), (2, 1), (5, 5)]);
    let before = game.alive_cells();
    let _next = game.tick();
    assert_eq!(game.alive_cells(), before);
}

#[test]
fn default_board_is_empty() {
    assert_eq!(Game::default(), Game::new());
    assert_eq!(Game::default().alive_cells(), Vec::<Cell>::new());
}

#[test]
fn inserting_twice_keeps_one_occurrence() {
    let mut game = Game::new();
    game.insert_cell(-4, 7);
    game.insert_cell(-4, 7);
    assert_eq!(game.alive_cells(), vec![(-4, 7)]);
    game.insert_cell(2, 2);
    game.insert_cell(-4, 7);
    assert_eq!(game.alive_cells(), vec![(-4, 7), (2, 2)]);
}

#[test]
fn alive_cells_sorted_by_x_then_y() {
    let game = board(&[(3, -1), (-2, 5), (3, -7), (0, 0), (-2, -5), (3, -1)]);
    assert_eq!(
        game.alive_cells(),
        vec![(-2, -5), (-2, 5), (0, 0), (3, -7), (3, -1)]
    );
}

#[test]
fn lone_cell_far_away_dies() {
    let game = board(&[(-1_000_000, 999_999)]);
    assert_eq!(game.tick().alive_cells(), Vec::<Cell>::new());
}

#[test]
fn diagonal_pair_dies() {
    let game = board(&[(10, 10), (11, 11)]);
    assert_eq!(game.tick().alive_cells(), Vec::<Cell>::new());
}

#[test]
fn vertical_pair_dies() {
    let game = board(&[(-3, 4), (-3, 5)]);
    assert_eq!(game.tick().alive_cells(), Vec::<Cell>::new());
}

#[test]
fn blinker_returns_after_two_ticks() {
    let game = board(&[(0, 1), (1, 1), (2, 1)]);
    let once = game.tick();
    assert_eq!(once.alive_cells(), vec![(1, 0), (1, 1), (1, 2)]);
    let twice = once.tick();
    assert_eq!(twice.alive_cells(), vec![(0, 1), (1, 1), (2, 1)]);
}

#[test]
fn block_is_still_life() {
    let game = board(&[(0, 0), (0, 1), (1, 0), (1, 1)]);
    assert_eq!(game.tick(), game);
}

#[test]
fn crowded_centre_dies_and_corners_are_born() {
    let game = board(&[(1, 0), (0, 1), (1, 1), (2, 1), (1, 2)]);
    assert_eq!(
        game.tick().alive_cells(),
        vec![(0, 0), (0, 1), (0, 2), (1, 0), (1, 2), (2, 0), (2, 1), (2, 2)]
    );
}

#[test]
fn lone_cell_at_corner_of_grid_dies() {
    let game = board(&[(isize::MIN, isize::MIN)]);
    assert_eq!(game.tick().alive_cells(), Vec::<Cell>::new());
    let game = board(&[(isize::MAX, isize::MAX)]);
    assert_eq!(game.tick().alive_cells(), Vec::<Cell>::new());
}

#[test]
fn blinker_on_edge_of_grid_loses_cells_beyond_it() {
    let game = board(&[(0, isize::MAX), (1, isize::MAX), (2, isize::MAX)]);
    assert_eq!(
        game.tick().alive_cells(),
        vec![(1, isize::MAX - 1), (1, isize::MAX)]
    );
}

#[test]
fn block_on_corner_of_grid_is_still_life() {
    let game = board(&[
        (isize::MAX - 1, isize::MIN),
        (isize::MAX - 1, isize::MIN + 1),
        (isize::MAX, isize::MIN),
        (isize::MAX, isize::MIN + 1),
    ]);
    assert_eq!(game.tick(), game);
}
