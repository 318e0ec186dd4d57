use life::{Cell, Game};

fn alive_cells(game: &Game) -> Vec<Cell> {
    game.alive_cells()
}

#[test]
fn game_new() {
    let game = Game::new();
    assert_eq!(alive_cells(&game), Vec::<Cell>::new())
}

#[test]
fn game_inserting_cells() {
    let mut game = Game::new();
    assert_eq!(alive_cells(&game), vec![]);
    game.insert_cell(3, 0);
    assert_eq!(alive_cells(&game), vec![(3, 0)]);
    game.insert_cell(0, 0);
    assert_eq!(alive_cells(&game), vec![(0, 0), (3, 0)]);
    game.insert_cell(3, 3);
    assert_eq!(alive_cells(&game), vec![(0, 0), (3, 0), (3, 3)]);
}

#[test]
fn game_tick_0() {
    let game = Game::new();
    let next = game.tick();
    assert_eq!(game, next);
}

#[test]
fn game_tick_0_neighbours() {
    //
    // x__
    // ___
    // ___
    //
    let mut game = Game::new();
    game.insert_cell(0, 0);
    let next = game.tick();
    assert_eq!(alive_cells(&next), vec![]);
}

#[test]
fn game_tick_1() {
    //
    // xx_
    // ___
    // ___
    //
    let mut game = Game::new();
    game.insert_cell(0, 0);
    game.insert_cell(1, 0);
    let next = game.tick();
    assert_eq!(alive_cells(&next), vec![]);
}

#[test]
fn game_tick_2() {
    //
    // ___
    // xxx
    // ___
    //
    let mut game = Game::new();
    game.insert_cell(0, 1);
    game.insert_cell(1, 1);
    game.insert_cell(2, 1);
    let next = game.tick();
    assert_eq!(alive_cells(&next), vec![(1, 0), (1, 1), (1, 2)]);
}

#[test]
fn game_tick_3() {
    //
    // x__
    // xx_
    // ___
    //
    let mut game = Game::new();
    game.insert_cell(0, 0);
    game.insert_cell(0, 1);
    game.insert_cell(1, 1);
    let next = game.tick();
    assert_eq!(alive_cells(&next), vec![(0, 0), (0, 1), (1, 0), (1, 1)]);
}
