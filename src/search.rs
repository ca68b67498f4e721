//! Move search: depth-bounded minimax with alpha-beta pruning, with fast
//! paths for the first move of a game and for obvious moves.
use vstd::prelude::*;

use crate::mech::{copy_moves, moves_view, pos_of, Cell, Game, GameState, GameView, Move, Player};
use crate::rules::{
    cell_at, empties, gap_of, in_grid, is_threat, last_empty_in, lemma_count_all,
    lemma_count_off_line, lemma_count_on_line, lemma_count_partition, lemma_count_two,
    lemma_empties_shrink, lemma_empties_valid, lemma_empty_listed, lemma_filled_by_mover,
    lemma_gap_in_range, lemma_line_pos_in_grid, lemma_mover_decides, lemma_no_full_line,
    lemma_place_square, lemma_some_threat, lemma_win_from_threat, lemma_winner_owns, line_cell,
    line_pos, num_lines, place, square, state_of, win_in_one, winner, Pos,
};

verus! {

/// The grid after `turn` writes its mark at `p`.
pub open spec fn child(c: Seq<Seq<Cell>>, turn: Player, p: Pos) -> Seq<Seq<Cell>> {
    place(c, p, turn.mark())
}

/// The better of two scores for `turn`: the larger for X, the smaller for O.
pub open spec fn better(turn: Player, a: int, b: int) -> int {
    match turn {
        Player::X => if a >= b {
            a
        } else {
            b
        },
        Player::O => if a <= b {
            a
        } else {
            b
        },
    }
}

/// The minimax score of the grid `c` with `turn` to move, searched `d` plies
/// deep: +1 when X wins, -1 when O wins, 0 for a tie or when the depth runs
/// out. A mover that can win at once scores that win without searching.
pub open spec fn value(c: Seq<Seq<Cell>>, turn: Player, d: nat) -> int
    decreases d, empties(c).len() + 1,
{
    match state_of(c) {
        GameState::Decisive(p) => p.score(),
        GameState::Tied => 0,
        GameState::Ongoing => if d == 0 {
            0
        } else if win_in_one(c, turn).is_some() {
            turn.score()
        } else {
            best_of(c, turn, (d - 1) as nat, empties(c).len() as int)
        },
    }
}

/// The score of playing the `i`-th empty cell, searched `e` plies below.
pub open spec fn reply_value(c: Seq<Seq<Cell>>, turn: Player, e: nat, i: int) -> int {
    value(child(c, turn, empties(c)[i]), turn.opponent(), e)
}

/// The best score for `turn` among the moves to the first `i` (at least one)
/// empty cells, each searched `e` plies below.
pub open spec fn best_of(c: Seq<Seq<Cell>>, turn: Player, e: nat, i: int) -> int
    decreases e + 1, i,
{
    if i <= 1 {
        value(child(c, turn, empties(c)[0]), turn.opponent(), e)
    } else {
        better(
            turn,
            best_of(c, turn, e, i - 1),
            value(child(c, turn, empties(c)[i - 1]), turn.opponent(), e),
        )
    }
}

/// Every score lies in -1..=1.
pub proof fn lemma_value_bounded(c: Seq<Seq<Cell>>, turn: Player, d: nat)
    ensures
        -1 <= value(c, turn, d) <= 1,
    decreases d, empties(c).len() + 1,
{
    if state_of(c) == GameState::Ongoing && d > 0 && win_in_one(c, turn).is_none() {
        lemma_best_bounded(c, turn, (d - 1) as nat, empties(c).len() as int);
    }
}

proof fn lemma_best_bounded(c: Seq<Seq<Cell>>, turn: Player, e: nat, i: int)
    ensures
        -1 <= best_of(c, turn, e, i) <= 1,
    decreases e + 1, i,
{
    lemma_value_bounded(child(c, turn, empties(c)[0]), turn.opponent(), e);
    if i > 1 {
        lemma_best_bounded(c, turn, e, i - 1);
        lemma_value_bounded(child(c, turn, empties(c)[i - 1]), turn.opponent(), e);
    }
}

/// The moves that `minimax` tries, in the order it tries them, are legal.
proof fn lemma_replies_legal(g: GameView, i: int)
    requires
        g.valid(),
        0 <= i < g.empty.len(),
    ensures
        in_grid(g.n(), g.empty[i]),
        cell_at(g.cells, g.empty[i]) == Cell::Empty,
{
    lemma_empties_valid(g.cells);
}

/// Evaluates `game` searching `depth` plies with alpha-beta pruning between
/// the bounds `alpha` and `beta`. A decided game scores its winner's score, a
/// tie or an ongoing game at depth 0 scores 0, and a mover that can win at
/// once scores its own win. Otherwise the score is exact when it lies strictly
/// between the bounds; a score at or below `alpha` is an upper bound of the
/// exact score, and one at or above `beta` a lower bound.
pub fn minimax(game: &Game, depth: usize, alpha: isize, beta: isize) -> (r: isize)
    requires
        game.wf(),
        alpha < beta,
    ensures
        -1 <= r <= 1,
        alpha < value(game@.cells, game@.turn, depth as nat) < beta ==> r == value(
            game@.cells,
            game@.turn,
            depth as nat,
        ),
        value(game@.cells, game@.turn, depth as nat) <= alpha ==> r <= alpha,
        value(game@.cells, game@.turn, depth as nat) >= beta ==> r >= beta,
        r <= alpha ==> value(game@.cells, game@.turn, depth as nat) <= r,
        r >= beta ==> value(game@.cells, game@.turn, depth as nat) >= r,
        game@.state is Decisive ==> r == game@.state->Decisive_0.score(),
        game@.state == GameState::Tied || (game@.state == GameState::Ongoing && depth == 0) ==> r
            == 0,
        game@.state == GameState::Ongoing && depth > 0 && win_in_one(game@.cells, game@.turn) is Some
            ==> r == game@.turn.score(),
        alpha == isize::MIN && beta == isize::MAX ==> r == value(
            game@.cells,
            game@.turn,
            depth as nat,
        ),
    decreases depth,
{
    proof {
        lemma_value_bounded(game@.cells, game@.turn, depth as nat);
    }
    let ghost g = game@;
    let ghost c = g.cells;
    let ghost t = g.turn;
    let state = game.state();
    if let GameState::Decisive(w) = state {
        return isize::from(w);
    }
    if state == GameState::Tied || depth == 0 {
        return 0;
    }
    let ghost e = (depth - 1) as nat;
    let obv = game.undoubted();
    let moves = game.empty();
    let len = moves.len();
    proof {
        assert(len >= 1);
    }
    if game.turn() == Player::X {
        // maximizing player
        if let Some((Player::X, _)) = obv {
            return 1;
        }
        assert(win_in_one(c, t).is_none());
        let mut a = alpha;
        let mut eval = isize::MIN;
        let mut i: usize = 0;
        while i < len
            invariant
                game.wf(),
                g == game@,
                c == g.cells,
                t == g.turn,
                t == Player::X,
                g.state == GameState::Ongoing,
                win_in_one(c, t) is None,
                moves_view(moves@) == g.empty,
                len == moves@.len(),
                len >= 1,
                e == depth - 1,
                depth >= 1,
                alpha < beta,
                value(c, t, depth as nat) == best_of(c, t, e, len as int),
                i <= len,
                i == 0 ==> eval == isize::MIN && a == alpha,
                i > 0 ==> {
                    &&& -1 <= eval <= 1
                    &&& eval < beta
                    &&& a == if alpha >= eval {
                        alpha
                    } else {
                        eval
                    }
                    &&& best_of(c, t, e, i as int) <= alpha ==> eval <= alpha
                    &&& best_of(c, t, e, i as int) > alpha ==> eval == best_of(c, t, e, i as int)
                    &&& eval <= alpha ==> best_of(c, t, e, i as int) <= eval
                },
            decreases len - i,
        {
            let mv = moves[i];
            proof {
                lemma_replies_legal(g, i as int);
                assert(pos_of(mv) == g.empty[i as int]);
            }
            let mut next = game.clone();
            let _ = next.play(mv);
            let r = minimax(&next, depth - 1, a, beta);
            proof {
                lemma_value_bounded(next@.cells, next@.turn, e);
                assert(reply_value(c, t, e, i as int) == value(next@.cells, next@.turn, e));
            }
            eval = if eval >= r {
                eval
            } else {
                r
            };
            a = if a >= eval {
                a
            } else {
                eval
            };
            if beta <= a {
                proof {
                    lemma_best_monotone(c, t, e, i as int + 1, len as int);
                }
                return eval;
            }
            i = i + 1;
        }
        eval
    } else {
        // minimizing player
        if let Some((Player::O, _)) = obv {
            return -1;
        }
        assert(win_in_one(c, t).is_none());
        let mut b = beta;
        let mut eval = isize::MAX;
        let mut i: usize = 0;
        while i < len
            invariant
                game.wf(),
                g == game@,
                c == g.cells,
                t == g.turn,
                t == Player::O,
                g.state == GameState::Ongoing,
                win_in_one(c, t) is None,
                moves_view(moves@) == g.empty,
                len == moves@.len(),
                len >= 1,
                e == depth - 1,
                depth >= 1,
                alpha < beta,
                value(c, t, depth as nat) == best_of(c, t, e, len as int),
                i <= len,
                i == 0 ==> eval == isize::MAX && b == beta,
                i > 0 ==> {
                    &&& -1 <= eval <= 1
                    &&& eval > alpha
                    &&& b == if beta <= eval {
                        beta
                    } else {
                        eval
                    }
                    &&& best_of(c, t, e, i as int) >= beta ==> eval >= beta
                    &&& best_of(c, t, e, i as int) < beta ==> eval == best_of(c, t, e, i as int)
                    &&& eval >= beta ==> best_of(c, t, e, i as int) >= eval
                },
            decreases len - i,
        {
            let mv = moves[i];
            proof {
                lemma_replies_legal(g, i as int);
                assert(pos_of(mv) == g.empty[i as int]);
            }
            let mut next = game.clone();
            let _ = next.play(mv);
            let r = minimax(&next, depth - 1, alpha, b);
            proof {
                lemma_value_bounded(next@.cells, next@.turn, e);
                assert(reply_value(c, t, e, i as int) == value(next@.cells, next@.turn, e));
            }
            eval = if eval <= r {
                eval
            } else {
                r
            };
            b = if b <= eval {
                b
            } else {
                eval
            };
            if alpha >= b {
                proof {
                    lemma_best_monotone(c, t, e, i as int + 1, len as int);
                }
                return eval;
            }
            i = i + 1;
        }
        eval
    }
}

/// Looking at more moves never makes the best score worse for the mover.
proof fn lemma_best_monotone(c: Seq<Seq<Cell>>, turn: Player, e: nat, i: int, j: int)
    requires
        1 <= i <= j,
    ensures
        turn == Player::X ==> best_of(c, turn, e, i) <= best_of(c, turn, e, j),
        turn == Player::O ==> best_of(c, turn, e, i) >= best_of(c, turn, e, j),
    decreases j - i,
{
    if i < j {
        lemma_best_monotone(c, turn, e, i, j - 1);
    }
}

/// Some move among the first `i` (at least one) attains the best score.
proof fn lemma_best_attained(c: Seq<Seq<Cell>>, turn: Player, e: nat, i: int) -> (j: int)
    requires
        i >= 1,
    ensures
        0 <= j < i,
        reply_value(c, turn, e, j) == best_of(c, turn, e, i),
    decreases i,
{
    if i == 1 {
        0
    } else {
        let j0 = lemma_best_attained(c, turn, e, i - 1);
        if best_of(c, turn, e, i) == best_of(c, turn, e, i - 1) {
            j0
        } else {
            i - 1
        }
    }
}

/// The moves among the first `i` empty cells whose score, searched `e` plies
/// below, is `target`, in row-major order.
pub open spec fn moves_scoring(c: Seq<Seq<Cell>>, turn: Player, e: nat, target: int, i: int) -> Seq<
    Pos,
>
    decreases i,
{
    if i <= 0 {
        seq![]
    } else {
        moves_scoring(c, turn, e, target, i - 1) + if reply_value(c, turn, e, i - 1) == target {
            seq![empties(c)[i - 1]]
        } else {
            seq![]
        }
    }
}

proof fn lemma_scoring_nonempty(c: Seq<Seq<Cell>>, turn: Player, e: nat, target: int, i: int, j: int)
    requires
        0 <= j < i,
        reply_value(c, turn, e, j) == target,
    ensures
        moves_scoring(c, turn, e, target, i).len() > 0,
    decreases i,
{
    if j < i - 1 {
        lemma_scoring_nonempty(c, turn, e, target, i - 1, j);
    }
}

/// How deep the replies to a move are searched when the move is chosen
/// searching `depth` plies.
pub open spec fn reply_depth(depth: nat) -> nat {
    if depth == 0 {
        0
    } else {
        (depth - 1) as nat
    }
}

/// The moves that are best for the player to move, searching `depth` plies:
/// every empty cell on an empty grid; else the obvious move, if any; else the
/// moves whose replies score best for the mover.
pub open spec fn candidates(g: GameView, depth: nat) -> Seq<Pos> {
    if g.empty.len() == g.n() * g.n() {
        g.empty
    } else {
        match g.obvious {
            Some((_, p)) => seq![p],
            None => {
                let e = reply_depth(depth);
                moves_scoring(g.cells, g.turn, e, best_of(g.cells, g.turn, e, g.empty.len() as int), g.empty.len() as int)
            },
        }
    }
}

/// Lists the best moves for the player to move, searching `depth` plies:
/// each reply is searched `depth - 1` plies (with `depth` 0, replies are
/// scored only by whether they end the game).
pub fn best_moves(game: &Game, depth: usize) -> (r: Vec<Move>)
    requires
        game.wf(),
        game@.state == GameState::Ongoing,
    ensures
        moves_view(r@) == candidates(game@, depth as nat),
        r@.len() > 0,
{
    let ghost g = game@;
    let ghost c = g.cells;
    let ghost t = g.turn;
    let n = game.grid().n();
    let moves = game.empty();
    let len = moves.len();
    if len == n * n {
        return copy_moves(moves);
    }
    if let Some((_, mv)) = game.undoubted() {
        let r = vec![mv];
        assert(moves_view(r@) =~= candidates(g, depth as nat));
        return r;
    }
    let e: usize = if depth == 0 {
        0
    } else {
        depth - 1
    };
    let isx = game.turn() == Player::X;
    let mut besteval: isize = if isx {
        isize::MIN
    } else {
        isize::MAX
    };
    let mut evals: Vec<isize> = Vec::new();
    let mut i: usize = 0;
    while i < len
        invariant
            game.wf(),
            g == game@,
            c == g.cells,
            t == g.turn,
            isx == (t == Player::X),
            g.state == GameState::Ongoing,
            moves_view(moves@) == g.empty,
            len == moves@.len(),
            e == reply_depth(depth as nat),
            i <= len,
            evals@.len() == i,
            forall|j: int| 0 <= j < i ==> #[trigger] evals@[j] == reply_value(c, t, e as nat, j),
            i == 0 ==> besteval == if isx {
                isize::MIN
            } else {
                isize::MAX
            },
            i > 0 ==> besteval == best_of(c, t, e as nat, i as int),
        decreases len - i,
    {
        let mv = moves[i];
        proof {
            lemma_replies_legal(g, i as int);
            assert(pos_of(mv) == g.empty[i as int]);
        }
        let mut next = game.clone();
        let _ = next.play(mv);
        let eval = minimax(&next, e, isize::MIN, isize::MAX);
        proof {
            lemma_value_bounded(next@.cells, next@.turn, e as nat);
            assert(reply_value(c, t, e as nat, i as int) == value(next@.cells, next@.turn, e as nat));
        }
        evals.push(eval);
        besteval = if isx {
            if besteval >= eval {
                besteval
            } else {
                eval
            }
        } else {
            if besteval <= eval {
                besteval
            } else {
                eval
            }
        };
        i = i + 1;
    }
    let ghost target = best_of(c, t, e as nat, len as int);
    let mut best: Vec<Move> = Vec::new();
    let mut j: usize = 0;
    while j < len
        invariant
            moves_view(moves@) == g.empty,
            g.empty == empties(c),
            len == moves@.len(),
            evals@.len() == len,
            forall|k: int| 0 <= k < len ==> #[trigger] evals@[k] == reply_value(c, t, e as nat, k),
            besteval == target,
            j <= len,
            moves_view(best@) == moves_scoring(c, t, e as nat, target, j as int),
        decreases len - j,
    {
        let ghost before = best@;
        if evals[j] == besteval {
            best.push(moves[j]);
            assert(moves_view(best@) =~= moves_view(before).push(pos_of(moves@[j as int])));
        }
        j = j + 1;
        assert(moves_view(best@) =~= moves_scoring(c, t, e as nat, target, j as int));
    }
    proof {
        let k = lemma_best_attained(c, t, e as nat, len as int);
        lemma_scoring_nonempty(c, t, e as nat, target, len as int, k);
    }
    best
}

/// Relies on `fastrand::usize`: a number drawn from the range `0..n`, which
/// panics only when that range is empty.
#[verifier::external_body]
fn random_index(n: usize) -> (r: usize)
    requires
        n > 0,
    ensures
        r < n,
{
    fastrand::usize(0..n)
}

/// Picks the best move for the player to move, searching `depth` plies: one
/// of `best_moves`, drawn at random. The game must be ongoing.
pub fn get_best_move(game: &Game, depth: usize) -> (r: Move)
    requires
        game.wf(),
        game@.state == GameState::Ongoing,
    ensures
        candidates(game@, depth as nat).contains(pos_of(r)),
{
    let moves = best_moves(game, depth);
    let k = random_index(moves.len());
    assert(moves_view(moves@)[k as int] == pos_of(moves@[k as int]));
    moves[k]
}

/// No reply scores better for the mover than the best of them.
proof fn lemma_best_dominates(c: Seq<Seq<Cell>>, turn: Player, e: nat, i: int, j: int)
    requires
        0 <= j < i,
    ensures
        turn == Player::X ==> reply_value(c, turn, e, j) <= best_of(c, turn, e, i),
        turn == Player::O ==> reply_value(c, turn, e, j) >= best_of(c, turn, e, i),
    decreases i,
{
    if j < i - 1 {
        lemma_best_dominates(c, turn, e, i - 1, j);
    }
}

/// A move listed as scoring `target` is an empty cell whose reply scores `target`.
proof fn lemma_scoring_member(c: Seq<Seq<Cell>>, turn: Player, e: nat, target: int, i: int, p: Pos) -> (j: int)
    requires
        moves_scoring(c, turn, e, target, i).contains(p),
    ensures
        0 <= j < i,
        empties(c)[j] == p,
        reply_value(c, turn, e, j) == target,
    decreases i,
{
    let prev = moves_scoring(c, turn, e, target, i - 1);
    if prev.contains(p) {
        lemma_scoring_member(c, turn, e, target, i - 1, p)
    } else {
        let x = choose|x: int| 0 <= x < moves_scoring(c, turn, e, target, i).len() && moves_scoring(c, turn, e, target, i)[x] == p;
        if x < prev.len() {
            assert(prev[x] == p);
        }
        i - 1
    }
}

/// Playing the gap of one's own threat wins the game at once.
proof fn lemma_gap_wins(c: Seq<Seq<Cell>>, turn: Player, m: int)
    requires
        square(c),
        winner(c) is None,
        0 <= m < num_lines(c.len() as int),
        is_threat(c, m, turn),
    ensures
        in_grid(c.len() as int, gap_of(c, m)),
        cell_at(c, gap_of(c, m)) == Cell::Empty,
        state_of(child(c, turn, gap_of(c, m))) == GameState::Decisive(turn),
{
    let n = c.len() as int;
    lemma_gap_in_range(c, m, n);
    let t0 = last_empty_in(c, m, n);
    lemma_line_pos_in_grid(n, m, t0);
    lemma_count_on_line(c, m, t0, turn.mark(), turn.mark(), n);
    lemma_mover_decides(c, gap_of(c, m), turn, m, turn);
}

/// After a move elsewhere than the gap of the opponent's threat, with no
/// threat of one's own, the opponent still threatens and the game goes on.
proof fn lemma_unblocked(c: Seq<Seq<Cell>>, turn: Player, m: int, q: Pos)
    requires
        square(c),
        winner(c) is None,
        win_in_one(c, turn) is None,
        0 <= m < num_lines(c.len() as int),
        is_threat(c, m, turn.opponent()),
        in_grid(c.len() as int, q),
        cell_at(c, q) == Cell::Empty,
        q != gap_of(c, m),
    ensures
        state_of(child(c, turn, q)) == GameState::Ongoing,
        win_in_one(child(c, turn, q), turn.opponent()) is Some,
{
    let n = c.len() as int;
    let o = turn.opponent();
    let c2 = child(c, turn, q);
    lemma_gap_in_range(c, m, n);
    let t0 = last_empty_in(c, m, n);
    let p = gap_of(c, m);
    lemma_line_pos_in_grid(n, m, t0);
    assert forall|t1: int| 0 <= t1 < n implies #[trigger] line_pos(n, m, t1) != q by {
        if line_pos(n, m, t1) == q {
            assert(line_cell(c, m, t1) == Cell::Empty);
            lemma_count_two(c, m, Cell::Empty, n, t0, t1);
        }
    }
    lemma_count_off_line(c, q, turn.mark(), m, o.mark(), n);
    lemma_count_off_line(c, q, turn.mark(), m, Cell::Empty, n);
    lemma_place_square(c, q, turn.mark());
    lemma_some_threat(c2, o, m, num_lines(n));
    if winner(c2) is Some {
        let k2 = lemma_winner_owns(c2, 0);
        let w2 = winner(c2).unwrap();
        lemma_no_full_line(c);
        lemma_filled_by_mover(c, q, turn, k2, w2);
        let t1 = choose|t: int| 0 <= t < n && #[trigger] line_pos(n, k2, t) == q;
        lemma_count_on_line(c, k2, t1, turn.mark(), turn.mark(), n);
        lemma_count_on_line(c, k2, t1, turn.mark(), Cell::Empty, n);
        lemma_count_partition(c2, k2, n);
        lemma_count_all(c2, k2, Cell::X, n);
        lemma_count_all(c2, k2, Cell::O, n);
        lemma_count_all(c2, k2, Cell::Empty, n);
        assert(is_threat(c, k2, turn));
        lemma_some_threat(c, turn, k2, num_lines(n));
    }
    assert(c[q.0].len() == n);
    assert(c[p.0].len() == n);
    assert(cell_at(c2, p) == Cell::Empty);
    lemma_empty_listed(c2, p);
}

/// Searching at least as many plies as there are empty cells, a move that
/// `get_best_move` may pick on a grid with a mark on it scores at least as
/// well, in the search's own scores, as any other legal move.
proof fn lemma_best_move_scores_best(g: GameView, depth: nat, p: Pos, q: Pos)
    requires
        g.valid(),
        g.state == GameState::Ongoing,
        g.empty.len() < g.n() * g.n(),
        depth >= g.empty.len(),
        candidates(g, depth).contains(p),
        g.empty.contains(q),
    ensures
        g.empty.contains(p),
        g.turn == Player::X ==> value(child(g.cells, g.turn, p), g.turn.opponent(), reply_depth(depth))
            >= value(child(g.cells, g.turn, q), g.turn.opponent(), reply_depth(depth)),
        g.turn == Player::O ==> value(child(g.cells, g.turn, p), g.turn.opponent(), reply_depth(depth))
            <= value(child(g.cells, g.turn, q), g.turn.opponent(), reply_depth(depth)),
        value(child(g.cells, g.turn, q), g.turn.opponent(), reply_depth(depth)) != g.turn.opponent().score()
            ==> value(child(g.cells, g.turn, p), g.turn.opponent(), reply_depth(depth)) != g.turn.opponent().score(),
{
    let c = g.cells;
    let t = g.turn;
    let o = t.opponent();
    let n = g.n();
    let e = reply_depth(depth);
    let len = g.empty.len() as int;
    lemma_value_bounded(child(c, t, p), o, e);
    lemma_value_bounded(child(c, t, q), o, e);
    let jq = choose|j: int| 0 <= j < len && g.empty[j] == q;
    lemma_empties_valid(c);
    assert(in_grid(n, q) && cell_at(c, q) == Cell::Empty);
    match g.obvious {
        None => {
            let target = best_of(c, t, e, len);
            let jp = lemma_scoring_member(c, t, e, target, len, p);
            assert(g.empty[jp] == p);
            lemma_best_dominates(c, t, e, len, jq);
        },
        Some((w, x)) => {
            assert(candidates(g, depth) == seq![x]);
            assert(p == x);
            if win_in_one(c, t) is Some {
                let m = lemma_win_from_threat(c, t, num_lines(n));
                lemma_gap_wins(c, t, m);
                lemma_empty_listed(c, p);
            } else {
                assert(w == o);
                let m = lemma_win_from_threat(c, o, num_lines(n));
                lemma_gap_in_range(c, m, n);
                lemma_line_pos_in_grid(n, m, last_empty_in(c, m, n));
                lemma_empty_listed(c, p);
                if q != p {
                    lemma_unblocked(c, t, m, q);
                    let jp = choose|j: int| 0 <= j < len && g.empty[j] == p;
                    assert(jp != jq);
                    assert(len >= 2);
                    assert(win_in_one(child(c, t, q), o) is Some);
                    assert(o.opponent() == t);
                }
            }
        },
    }
}

/// The score of plain minimax from the grid `c` with `turn` to move, looking
/// `d` plies ahead, with no fast path: +1 when X can force a win, -1 when O
/// can, 0 otherwise or when the depth runs out.
pub open spec fn perfect(c: Seq<Seq<Cell>>, turn: Player, d: nat) -> int
    decreases d, empties(c).len() + 1,
{
    match state_of(c) {
        GameState::Decisive(p) => p.score(),
        GameState::Tied => 0,
        GameState::Ongoing => if d == 0 {
            0
        } else {
            perfect_best(c, turn, (d - 1) as nat, empties(c).len() as int)
        },
    }
}

/// The best plain minimax score for `turn` among the moves to the first `i`
/// (at least one) empty cells, each looking `e` plies below.
pub open spec fn perfect_best(c: Seq<Seq<Cell>>, turn: Player, e: nat, i: int) -> int
    decreases e + 1, i,
{
    if i <= 1 {
        perfect(child(c, turn, empties(c)[0]), turn.opponent(), e)
    } else {
        better(
            turn,
            perfect_best(c, turn, e, i - 1),
            perfect(child(c, turn, empties(c)[i - 1]), turn.opponent(), e),
        )
    }
}

/// The outcome of the game under best play by both sides, from the grid `c`
/// with `turn` to move: plain minimax over the whole game tree.
pub open spec fn outcome(c: Seq<Seq<Cell>>, turn: Player) -> int {
    perfect(c, turn, empties(c).len())
}

proof fn lemma_perfect_bounded(c: Seq<Seq<Cell>>, turn: Player, d: nat)
    ensures
        -1 <= perfect(c, turn, d) <= 1,
    decreases d, empties(c).len() + 1,
{
    if state_of(c) == GameState::Ongoing && d > 0 {
        lemma_perfect_best_bounded(c, turn, (d - 1) as nat, empties(c).len() as int);
    }
}

proof fn lemma_perfect_best_bounded(c: Seq<Seq<Cell>>, turn: Player, e: nat, i: int)
    ensures
        -1 <= perfect_best(c, turn, e, i) <= 1,
    decreases e + 1, i,
{
    lemma_perfect_bounded(child(c, turn, empties(c)[0]), turn.opponent(), e);
    if i > 1 {
        lemma_perfect_best_bounded(c, turn, e, i - 1);
        lemma_perfect_bounded(child(c, turn, empties(c)[i - 1]), turn.opponent(), e);
    }
}

proof fn lemma_perfect_best_dominates(c: Seq<Seq<Cell>>, turn: Player, e: nat, i: int, j: int)
    requires
        0 <= j < i,
    ensures
        turn == Player::X ==> perfect(child(c, turn, empties(c)[j]), turn.opponent(), e)
            <= perfect_best(c, turn, e, i),
        turn == Player::O ==> perfect(child(c, turn, empties(c)[j]), turn.opponent(), e)
            >= perfect_best(c, turn, e, i),
    decreases i,
{
    if j < i - 1 {
        lemma_perfect_best_dominates(c, turn, e, i - 1, j);
    }
}

/// A move to a listed empty cell leaves a square grid with one empty cell fewer.
proof fn lemma_child_grid(c: Seq<Seq<Cell>>, turn: Player, j: int)
    requires
        square(c),
        0 <= j < empties(c).len(),
    ensures
        square(child(c, turn, empties(c)[j])),
        empties(child(c, turn, empties(c)[j])).len() == empties(c).len() - 1,
{
    lemma_empties_valid(c);
    lemma_place_square(c, empties(c)[j], turn.mark());
    lemma_empties_shrink(c, empties(c)[j], turn.mark());
}

/// Searching as many plies as there are empty cells, the fast path for a
/// mover who can win at once changes no score: the search scores plain minimax.
pub proof fn lemma_value_is_perfect(c: Seq<Seq<Cell>>, turn: Player, d: nat)
    requires
        square(c),
        d >= empties(c).len(),
    ensures
        value(c, turn, d) == perfect(c, turn, d),
    decreases d, empties(c).len() + 1,
{
    if state_of(c) == GameState::Ongoing {
        let len = empties(c).len() as int;
        let e = (d - 1) as nat;
        if win_in_one(c, turn) is Some {
            let m = lemma_win_from_threat(c, turn, num_lines(c.len() as int));
            lemma_gap_wins(c, turn, m);
            let p = gap_of(c, m);
            lemma_empty_listed(c, p);
            let jg = choose|j: int| 0 <= j < len && empties(c)[j] == p;
            lemma_perfect_best_dominates(c, turn, e, len, jg);
            lemma_perfect_best_bounded(c, turn, e, len);
        } else {
            lemma_folds_agree(c, turn, e, len);
        }
    }
}

proof fn lemma_folds_agree(c: Seq<Seq<Cell>>, turn: Player, e: nat, i: int)
    requires
        square(c),
        e + 1 >= empties(c).len(),
        1 <= i <= empties(c).len(),
    ensures
        best_of(c, turn, e, i) == perfect_best(c, turn, e, i),
    decreases e + 1, i,
{
    lemma_child_grid(c, turn, 0);
    lemma_value_is_perfect(child(c, turn, empties(c)[0]), turn.opponent(), e);
    if i > 1 {
        lemma_folds_agree(c, turn, e, i - 1);
        lemma_child_grid(c, turn, i - 1);
        lemma_value_is_perfect(child(c, turn, empties(c)[i - 1]), turn.opponent(), e);
    }
}

/// Plain minimax gives the same score at every depth that covers all empty
/// cells: it is then the outcome of the whole game tree.
pub proof fn lemma_perfect_depth_free(c: Seq<Seq<Cell>>, turn: Player, d1: nat, d2: nat)
    requires
        square(c),
        d1 >= empties(c).len(),
        d2 >= empties(c).len(),
    ensures
        perfect(c, turn, d1) == perfect(c, turn, d2),
    decreases d1, empties(c).len() + 1,
{
    if state_of(c) == GameState::Ongoing {
        lemma_perfect_folds_agree(c, turn, (d1 - 1) as nat, (d2 - 1) as nat, empties(c).len() as int);
    }
}

proof fn lemma_perfect_folds_agree(c: Seq<Seq<Cell>>, turn: Player, e1: nat, e2: nat, i: int)
    requires
        square(c),
        e1 + 1 >= empties(c).len(),
        e2 + 1 >= empties(c).len(),
        1 <= i <= empties(c).len(),
    ensures
        perfect_best(c, turn, e1, i) == perfect_best(c, turn, e2, i),
    decreases e1 + 1, i,
{
    lemma_child_grid(c, turn, 0);
    lemma_perfect_depth_free(child(c, turn, empties(c)[0]), turn.opponent(), e1, e2);
    if i > 1 {
        lemma_perfect_folds_agree(c, turn, e1, e2, i - 1);
        lemma_child_grid(c, turn, i - 1);
        lemma_perfect_depth_free(child(c, turn, empties(c)[i - 1]), turn.opponent(), e1, e2);
    }
}

/// Searching at least as many plies as there are empty cells, every move that
/// `get_best_move` may pick on a grid with a mark on it is legal, and under
/// best play it leads to an outcome at least as good for the mover as any
/// other legal move. So it never lets the opponent force a win when some move
/// does not.
pub proof fn lemma_best_move_is_optimal(g: GameView, depth: nat, p: Pos, q: Pos)
    requires
        g.valid(),
        g.state == GameState::Ongoing,
        g.empty.len() < g.n() * g.n(),
        depth >= g.empty.len(),
        candidates(g, depth).contains(p),
        g.empty.contains(q),
    ensures
        g.empty.contains(p),
        g.turn == Player::X ==> outcome(child(g.cells, g.turn, p), g.turn.opponent()) >= outcome(
            child(g.cells, g.turn, q),
            g.turn.opponent(),
        ),
        g.turn == Player::O ==> outcome(child(g.cells, g.turn, p), g.turn.opponent()) <= outcome(
            child(g.cells, g.turn, q),
            g.turn.opponent(),
        ),
        outcome(child(g.cells, g.turn, q), g.turn.opponent()) != g.turn.opponent().score() ==> outcome(
            child(g.cells, g.turn, p),
            g.turn.opponent(),
        ) != g.turn.opponent().score(),
{
    let c = g.cells;
    let t = g.turn;
    let o = t.opponent();
    let e = reply_depth(depth);
    let len = g.empty.len() as int;
    lemma_best_move_scores_best(g, depth, p, q);
    let jp = choose|j: int| 0 <= j < len && g.empty[j] == p;
    let jq = choose|j: int| 0 <= j < len && g.empty[j] == q;
    lemma_child_grid(c, t, jp);
    lemma_child_grid(c, t, jq);
    let cp = child(c, t, p);
    let cq = child(c, t, q);
    lemma_value_is_perfect(cp, o, e);
    lemma_value_is_perfect(cq, o, e);
    lemma_perfect_depth_free(cp, o, e, empties(cp).len());
    lemma_perfect_depth_free(cq, o, e, empties(cq).len());
}

} // verus!
