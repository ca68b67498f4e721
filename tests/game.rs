use toetactic::mech::{Cell, Game, GameState, Grid, Move, MoveError, Player};

fn play_all(game: &mut Game, moves: &[Move]) {
    for &mv in moves {
        assert_eq!(game.play(mv), Ok(()));
    }
}

#[test]
fn new_game_is_fresh() {
    for n in 3..=7 {
        let game = Game::new(n);
        assert_eq!(game.state(), GameState::Ongoing);
        assert_eq!(game.turn(), Player::X);
        assert_eq!(game.empty().len(), n * n);
        assert_eq!(game.undoubted(), None);
        assert_eq!(game.grid().n(), n);
    }
}

#[test]
fn new_game_lists_cells_in_row_major_order() {
    let game = Game::new(3);
    let expected: Vec<Move> = (0..3).flat_map(|i| (0..3).map(move |j| (i, j))).collect();
    assert_eq!(game.empty(), &expected);
}

#[test]
fn grid_starts_empty() {
    let grid = Grid::new(4);
    assert_eq!(grid.n(), 4);
    assert_eq!(grid.data().len(), 4);
    for row in grid.data() {
        assert_eq!(row, &vec![Cell::Empty; 4]);
    }
    assert_eq!(grid.get(3, 2), Cell::Empty);
}

#[test]
fn play_writes_the_movers_mark() {
    let mut game = Game::new(3);
    play_all(&mut game, &[(1, 2), (0, 0)]);
    assert_eq!(game.grid().get(1, 2), Cell::X);
    assert_eq!(game.grid().get(0, 0), Cell::O);
    assert_eq!(game.empty().len(), 7);
    assert!(!game.empty().contains(&(1, 2)));
    assert!(!game.empty().contains(&(0, 0)));
}

#[test]
fn rejected_moves_change_nothing() {
    let mut game = Game::new(3);
    play_all(&mut game, &[(0, 0)]);
    let before = game.clone();
    assert_eq!(game.play((3, 0)), Err(MoveError::OutOfBounds));
    assert_eq!(game, before);
    assert_eq!(game.play((0, 3)), Err(MoveError::OutOfBounds));
    assert_eq!(game, before);
    assert_eq!(game.play((0, 0)), Err(MoveError::CellOccupied));
    assert_eq!(game, before);
    assert_eq!(game.turn(), Player::O);
}

#[test]
fn finished_game_rejects_moves() {
    let mut game = Game::new(3);
    play_all(&mut game, &[(0, 0), (1, 1), (0, 1), (2, 2), (0, 2)]);
    let before = game.clone();
    assert_eq!(game.play((2, 0)), Err(MoveError::GameOver));
    assert_eq!(game.play((9, 9)), Err(MoveError::GameOver));
    assert_eq!(game.play((0, 0)), Err(MoveError::GameOver));
    assert_eq!(game, before);
    assert_eq!(game.state(), GameState::Decisive(Player::X));
}

#[test]
fn turn_alternates() {
    let mut game = Game::new(4);
    let mut expected = Player::X;
    for mv in [(0, 0), (3, 3), (1, 2), (2, 1), (0, 3)] {
        assert_eq!(game.turn(), expected);
        assert_eq!(game.play(mv), Ok(()));
        expected = !expected;
    }
    assert_eq!(game.turn(), Player::O);
}

#[test]
fn scenario_row_win() {
    let mut game = Game::new(3);
    play_all(&mut game, &[(0, 0), (1, 1), (0, 1), (2, 2)]);
    assert_eq!(game.state(), GameState::Ongoing);
    play_all(&mut game, &[(0, 2)]);
    assert_eq!(game.state(), GameState::Decisive(Player::X));
    assert_eq!(game.undoubted(), None);
}

#[test]
fn scenario_tie_sequence_ends_on_the_anti_diagonal() {
    let mut game = Game::new(3);
    play_all(&mut game, &[(0, 0), (1, 1), (2, 2), (0, 2), (1, 0)]);
    assert_eq!(game.state(), GameState::Ongoing);
    // O's mark at (2, 0) completes (0, 2), (1, 1), (2, 0).
    play_all(&mut game, &[(2, 0)]);
    assert_eq!(game.state(), GameState::Decisive(Player::O));
    for mv in [(2, 1), (0, 1), (1, 2)] {
        assert_eq!(game.play(mv), Err(MoveError::GameOver));
    }
    assert_eq!(game.state(), GameState::Decisive(Player::O));
}

#[test]
fn scenario_tie() {
    let mut game = Game::new(3);
    play_all(
        &mut game,
        &[(0, 0), (1, 1), (2, 2), (0, 1), (2, 1), (2, 0), (0, 2), (1, 2)],
    );
    assert_eq!(game.state(), GameState::Ongoing);
    play_all(&mut game, &[(1, 0)]);
    assert!(game.empty().is_empty());
    assert_eq!(game.state(), GameState::Tied);
    assert_eq!(game.undoubted(), None);
}

#[test]
fn scenario_no_threat() {
    let mut game = Game::new(3);
    play_all(&mut game, &[(0, 0), (0, 1)]);
    assert_eq!(game.turn(), Player::X);
    assert_eq!(game.undoubted(), None);
}

#[test]
fn scenario_block() {
    let mut game = Game::new(3);
    play_all(&mut game, &[(0, 0), (1, 1), (2, 1), (1, 0)]);
    assert_eq!(game.turn(), Player::X);
    assert_eq!(game.undoubted(), Some((Player::O, (1, 2))));
}

#[test]
fn column_win_for_o() {
    let mut game = Game::new(3);
    play_all(&mut game, &[(0, 0), (0, 2), (1, 1), (1, 2), (2, 0)]);
    assert_eq!(game.state(), GameState::Ongoing);
    play_all(&mut game, &[(2, 2)]);
    assert_eq!(game.state(), GameState::Decisive(Player::O));
}

#[test]
fn diagonal_wins() {
    let mut game = Game::new(3);
    play_all(&mut game, &[(0, 0), (0, 1), (1, 1), (0, 2), (2, 2)]);
    assert_eq!(game.state(), GameState::Decisive(Player::X));

    let mut game = Game::new(3);
    play_all(&mut game, &[(0, 2), (0, 0), (1, 1), (0, 1), (2, 0)]);
    assert_eq!(game.state(), GameState::Decisive(Player::X));
}

#[test]
fn win_on_a_larger_grid() {
    let mut game = Game::new(4);
    play_all(&mut game, &[(0, 3), (0, 0), (1, 3), (1, 1), (2, 3), (2, 2)]);
    assert_eq!(game.undoubted(), Some((Player::X, (3, 3))));
    play_all(&mut game, &[(3, 3)]);
    assert_eq!(game.state(), GameState::Decisive(Player::X));
}

#[test]
fn own_win_comes_before_block() {
    let mut game = Game::new(3);
    // X threatens row 0 at (0, 2); O threatens row 1 at (1, 2).
    play_all(&mut game, &[(0, 0), (1, 0), (0, 1), (1, 1)]);
    assert_eq!(game.turn(), Player::X);
    assert_eq!(game.undoubted(), Some((Player::X, (0, 2))));
    // With O to move, O's own win comes first.
    let mut game = Game::new(3);
    play_all(&mut game, &[(0, 0), (1, 0), (0, 1), (1, 1), (2, 2)]);
    assert_eq!(game.turn(), Player::O);
    assert_eq!(game.undoubted(), Some((Player::O, (1, 2))));
}

#[test]
fn last_scanned_threat_wins_ties() {
    let mut game = Game::new(3);
    // X threatens row 0 at (0, 2) and column 0 at (2, 0); columns come later.
    play_all(&mut game, &[(0, 0), (1, 1), (0, 1), (2, 2), (1, 0), (1, 2)]);
    assert_eq!(game.turn(), Player::X);
    assert_eq!(game.undoubted(), Some((Player::X, (2, 0))));
}

#[test]
fn conversions() {
    assert_eq!(isize::from(Cell::X), 1);
    assert_eq!(isize::from(Cell::O), -1);
    assert_eq!(isize::from(Cell::Empty), 0);
    assert_eq!(isize::from(Player::X), 1);
    assert_eq!(isize::from(Player::O), -1);
    assert_eq!(Cell::from(Player::X), Cell::X);
    assert_eq!(Cell::from(Player::O), Cell::O);
    assert_eq!(!Player::X, Player::O);
    assert_eq!(Player::O.opposite(), Player::X);
}
