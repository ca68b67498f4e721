//! Laws of the game engine, stated over the views of its types and proved.
use vstd::prelude::*;

use crate::mech::{pos_of, Cell, GameState, GameView, Move, MoveError, Player};
use crate::rules::{
    cell_at, empties, gap_of, is_threat, last_empty_in, lemma_empties_valid, lemma_gap_in_range,
    lemma_mover_decides, lemma_no_owner_no_winner, lemma_no_threat, lemma_only_threat,
    lemma_some_threat, line_full_of, line_owner, line_pos, num_lines, winner,
};

verus! {

/// A move that fills a line with one player's marks is that player's own,
/// and it decides the game for that player at once.
pub proof fn lemma_completing_move_decides(g: GameView, mv: Move, k: int, p: Player)
    requires
        g.valid(),
        g.check(mv) is Ok,
        0 <= k < num_lines(g.n()),
        line_full_of(g.after(mv).cells, k, p),
    ensures
        p == g.turn,
        g.after(mv).state == GameState::Decisive(p),
{
    assert(winner(g.cells) is None);
    lemma_mover_decides(g.cells, pos_of(mv), g.turn, k, p);
}

/// Once a game is decided or tied, every move is rejected as coming after
/// the game's end, so its state stays as it is.
pub proof fn lemma_finished_rejects(g: GameView, mv: Move)
    requires
        g.state != GameState::Ongoing,
    ensures
        g.check(mv) == Err::<(), MoveError>(MoveError::GameOver),
{
}

/// A grid on which every cell is marked and no line is filled is a tie.
pub proof fn lemma_full_board_ties(g: GameView)
    requires
        g.valid(),
        forall|k: int, p: Player| 0 <= k < num_lines(g.n()) ==> !#[trigger] line_full_of(g.cells, k, p),
        forall|i: int, j: int| 0 <= i < g.n() && 0 <= j < g.n() ==> #[trigger] g.cells[i][j] != Cell::Empty,
    ensures
        g.state == GameState::Tied,
{
    let c = g.cells;
    assert forall|k: int| 0 <= k < num_lines(g.n()) implies #[trigger] line_owner(c, k) is None by {
        assert(!line_full_of(c, k, Player::X));
        assert(!line_full_of(c, k, Player::O));
    }
    lemma_no_owner_no_winner(c, 0);
    lemma_empties_valid(c);
    if empties(c).len() > 0 {
        let p = empties(c)[0];
        assert(cell_at(c, p) == Cell::Empty);
        assert(c[p.0][p.1] != Cell::Empty);
    }
}

/// With no line filled and a single line, of either player, one move from
/// completion, the obvious move is that line's empty cell, named with the
/// player who completes it there.
pub proof fn lemma_single_threat_is_obvious(g: GameView, k: int, p: Player)
    requires
        g.valid(),
        g.state == GameState::Ongoing,
        0 <= k < num_lines(g.n()),
        is_threat(g.cells, k, p),
        forall|m: int, q: Player| 0 <= m < num_lines(g.n()) && #[trigger] is_threat(g.cells, m, q) ==> m == k && q == p,
    ensures
        g.obvious == Some((p, gap_of(g.cells, k))),
        cell_at(g.cells, gap_of(g.cells, k)) == Cell::Empty,
        exists|t: int| 0 <= t < g.n() && gap_of(g.cells, k) == #[trigger] line_pos(g.n(), k, t),
{
    let c = g.cells;
    let n = g.n();
    assert forall|m: int| 0 <= m < num_lines(n) && m != k implies !#[trigger] is_threat(c, m, p) by {
        if is_threat(c, m, p) {
            assert(m == k);
        }
    }
    lemma_only_threat(c, p, k, num_lines(n));
    assert forall|m: int| 0 <= m < num_lines(n) implies !#[trigger] is_threat(c, m, p.opponent()) by {
        if is_threat(c, m, p.opponent()) {
            assert(p.opponent() == p);
        }
    }
    lemma_no_threat(c, p.opponent(), num_lines(n));
    assert(p.opponent().opponent() == p);
    lemma_gap_in_range(c, k, n);
    let t = last_empty_in(c, k, n);
    assert(gap_of(c, k) == line_pos(n, k, t));
}

/// When the player to move can complete a line, the obvious move is that
/// player's own win, at the empty cell of one of its such lines, whatever the
/// opponent threatens.
pub proof fn lemma_own_win_first(g: GameView, k: int)
    requires
        g.valid(),
        g.state == GameState::Ongoing,
        0 <= k < num_lines(g.n()),
        is_threat(g.cells, k, g.turn),
    ensures
        exists|m: int|
            0 <= m < num_lines(g.n()) && #[trigger] is_threat(g.cells, m, g.turn) && g.obvious == Some(
                (g.turn, gap_of(g.cells, m)),
            ),
{
    let m = lemma_some_threat(g.cells, g.turn, k, num_lines(g.n()));
    assert(is_threat(g.cells, m, g.turn));
}

} // verus!
