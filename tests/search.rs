use toetactic::mech::{Game, GameState, Move, Player};
use toetactic::search::{best_moves, get_best_move, minimax};

fn game_after(n: usize, moves: &[Move]) -> Game {
    let mut game = Game::new(n);
    for &mv in moves {
        assert_eq!(game.play(mv), Ok(()));
    }
    game
}

/// Minimax without pruning, with the same scoring rules.
fn plain_value(game: &Game, depth: usize) -> isize {
    match game.state() {
        GameState::Decisive(p) => return isize::from(p),
        GameState::Tied => return 0,
        GameState::Ongoing => {}
    }
    if depth == 0 {
        return 0;
    }
    let turn = game.turn();
    if let Some((p, _)) = game.undoubted() {
        if p == turn {
            return isize::from(turn);
        }
    }
    let values = game.empty().iter().map(|&mv| {
        let mut next = game.clone();
        next.play(mv).unwrap();
        plain_value(&next, depth - 1)
    });
    if turn == Player::X {
        values.max().unwrap()
    } else {
        values.min().unwrap()
    }
}

/// The outcome of perfect play, by exhaustive search.
fn perfect(game: &Game) -> isize {
    match game.state() {
        GameState::Decisive(p) => isize::from(p),
        GameState::Tied => 0,
        GameState::Ongoing => {
            let values = game.empty().iter().map(|&mv| {
                let mut next = game.clone();
                next.play(mv).unwrap();
                perfect(&next)
            });
            if game.turn() == Player::X {
                values.max().unwrap()
            } else {
                values.min().unwrap()
            }
        }
    }
}

fn reply(game: &Game, mv: Move) -> Game {
    let mut next = game.clone();
    next.play(mv).unwrap();
    next
}

fn sample_positions() -> Vec<Vec<Move>> {
    vec![
        vec![(0, 0)],
        vec![(1, 1)],
        vec![(0, 0), (0, 1)],
        vec![(1, 1), (0, 0)],
        vec![(0, 1), (1, 1), (2, 1)],
        vec![(0, 0), (2, 2), (0, 2)],
        vec![(1, 1), (0, 2), (2, 0), (0, 0)],
        vec![(0, 0), (1, 1), (2, 2), (0, 2)],
    ]
}

#[test]
fn pruned_score_equals_plain_minimax() {
    for moves in sample_positions() {
        let game = game_after(3, &moves);
        for depth in 0..=9 {
            assert_eq!(
                minimax(&game, depth, isize::MIN, isize::MAX),
                plain_value(&game, depth),
                "{:?} at depth {}",
                moves,
                depth
            );
        }
    }
}

#[test]
fn pruned_best_set_equals_plain_best_set() {
    for moves in sample_positions() {
        let game = game_after(3, &moves);
        if game.undoubted().is_some() {
            continue;
        }
        for depth in 1..=9 {
            let values: Vec<(isize, Move)> = game
                .empty()
                .iter()
                .map(|&mv| (plain_value(&reply(&game, mv), depth - 1), mv))
                .collect();
            let best = if game.turn() == Player::X {
                values.iter().map(|v| v.0).max().unwrap()
            } else {
                values.iter().map(|v| v.0).min().unwrap()
            };
            let expected: Vec<Move> = values
                .into_iter()
                .filter(|v| v.0 == best)
                .map(|v| v.1)
                .collect();
            assert_eq!(best_moves(&game, depth), expected, "{:?} at depth {}", moves, depth);
        }
    }
}

#[test]
fn pruning_window_bounds() {
    let game = game_after(3, &[(0, 0), (1, 1), (2, 2), (0, 2)]);
    let exact = minimax(&game, 9, isize::MIN, isize::MAX);
    assert_eq!(exact, 1);
    assert!(minimax(&game, 9, -1, 0) >= 0);
    assert!(minimax(&game, 9, 1, 5) <= 1);
}

#[test]
fn full_depth_best_move_never_loses() {
    for moves in sample_positions() {
        let game = game_after(3, &moves);
        let outcome = perfect(&game);
        for _ in 0..5 {
            let mv = get_best_move(&game, 9);
            assert!(game.empty().contains(&mv));
            assert_eq!(perfect(&reply(&game, mv)), outcome, "{:?} then {:?}", moves, mv);
        }
    }
}

#[test]
fn best_move_takes_the_win() {
    let game = game_after(3, &[(0, 0), (1, 0), (0, 1), (1, 1)]);
    for depth in 0..=9 {
        assert_eq!(get_best_move(&game, depth), (0, 2));
    }
}

#[test]
fn best_move_blocks() {
    let game = game_after(3, &[(0, 0), (1, 1), (2, 1), (1, 0)]);
    assert_eq!(game.undoubted(), Some((Player::O, (1, 2))));
    for depth in 1..=9 {
        assert_eq!(get_best_move(&game, depth), (1, 2));
        assert_eq!(best_moves(&game, depth), vec![(1, 2)]);
    }
}

#[test]
fn first_move_is_any_cell() {
    let game = Game::new(3);
    assert_eq!(best_moves(&game, 6), game.empty().clone());
    let mut seen = Vec::new();
    for _ in 0..200 {
        let mv = get_best_move(&game, 6);
        assert!(mv.0 < 3 && mv.1 < 3);
        if !seen.contains(&mv) {
            seen.push(mv);
        }
    }
    assert!(seen.len() > 1);
}

#[test]
fn random_pick_stays_among_best_moves() {
    let game = game_after(3, &[(1, 1)]);
    let best = best_moves(&game, 8);
    assert_eq!(best, vec![(0, 0), (0, 2), (2, 0), (2, 2)]);
    let mut seen = Vec::new();
    for _ in 0..200 {
        let mv = get_best_move(&game, 8);
        assert!(best.contains(&mv));
        if !seen.contains(&mv) {
            seen.push(mv);
        }
    }
    assert!(seen.len() > 1);
}

#[test]
fn depth_limited_scores() {
    let game = game_after(3, &[(0, 0), (1, 1), (2, 2), (0, 2)]);
    // X to move must block at (2, 0), which also sets up a double threat.
    assert_eq!(game.undoubted(), Some((Player::O, (2, 0))));
    assert_eq!(minimax(&game, 0, isize::MIN, isize::MAX), 0);
    assert_eq!(minimax(&game, 1, isize::MIN, isize::MAX), 0);
    let won = game_after(3, &[(0, 0), (1, 1), (0, 1), (2, 2), (0, 2)]);
    assert_eq!(minimax(&won, 0, isize::MIN, isize::MAX), 1);
}

#[test]
fn larger_grid_search_picks_a_legal_move() {
    let game = game_after(4, &[(0, 0), (1, 1), (2, 2)]);
    let mv = get_best_move(&game, 3);
    assert!(game.empty().contains(&mv));
    let mut next = game.clone();
    assert_eq!(next.play(mv), Ok(()));
}

#[test]
fn narrow_windows_keep_fixed_scores() {
    let won = game_after(3, &[(0, 0), (1, 1), (0, 1), (2, 2), (0, 2)]);
    assert_eq!(minimax(&won, 4, 1, 5), 1);
    assert_eq!(minimax(&won, 4, -5, -1), 1);
    let tied = game_after(
        3,
        &[(0, 0), (1, 1), (2, 2), (0, 1), (2, 1), (2, 0), (0, 2), (1, 2), (1, 0)],
    );
    assert_eq!(minimax(&tied, 3, 0, 5), 0);
    assert_eq!(minimax(&tied, 3, -5, 0), 0);
    let fresh = game_after(3, &[(1, 1)]);
    assert_eq!(minimax(&fresh, 0, 0, 5), 0);
    // X to move can complete row 0 at once.
    let threat = game_after(3, &[(0, 0), (1, 0), (0, 1), (1, 1)]);
    assert_eq!(minimax(&threat, 2, 1, 5), 1);
    assert_eq!(minimax(&threat, 2, -5, -1), 1);
}
