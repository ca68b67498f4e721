//! The rules of the game as mathematics over a grid of cells.
//!
//! A grid is a `Seq<Seq<Cell>>` of `n` rows of `n` cells. It has `2n + 2`
//! lines: the rows (line `k` for `k < n`), the columns (line `n + j`), the
//! `\` diagonal (line `2n`) and the `/` diagonal (line `2n + 1`). Lines are
//! always scanned in that order.
use vstd::prelude::*;

use crate::mech::{empty_grid, Cell, GameState, Player};

verus! {

/// A position on the grid, as (row, column).
pub type Pos = (int, int);

/// The grid is square, at least 3 by 3, and small enough that the number of
/// its cells fits in a `usize`.
pub open spec fn square(c: Seq<Seq<Cell>>) -> bool {
    &&& c.len() >= 3
    &&& c.len() * c.len() <= usize::MAX
    &&& forall|i: int| 0 <= i < c.len() ==> #[trigger] c[i].len() == c.len()
}

pub open spec fn in_grid(n: int, p: Pos) -> bool {
    0 <= p.0 < n && 0 <= p.1 < n
}

pub open spec fn num_lines(n: int) -> int {
    2 * n + 2
}

/// The position of the `t`-th cell of line `k`.
pub open spec fn line_pos(n: int, k: int, t: int) -> Pos {
    if k < n {
        (k, t)
    } else if k < 2 * n {
        (t, k - n)
    } else if k == 2 * n {
        (t, t)
    } else {
        (t, n - 1 - t)
    }
}

pub open spec fn cell_at(c: Seq<Seq<Cell>>, p: Pos) -> Cell {
    c[p.0][p.1]
}

pub open spec fn line_cell(c: Seq<Seq<Cell>>, k: int, t: int) -> Cell {
    cell_at(c, line_pos(c.len() as int, k, t))
}

/// How many of the first `m` cells of line `k` hold `v`.
pub open spec fn count_in_line(c: Seq<Seq<Cell>>, k: int, v: Cell, m: int) -> int
    decreases m,
{
    if m <= 0 {
        0
    } else {
        count_in_line(c, k, v, m - 1) + if line_cell(c, k, m - 1) == v {
            1int
        } else {
            0int
        }
    }
}

/// How many cells of line `k` hold `v`.
pub open spec fn line_count(c: Seq<Seq<Cell>>, k: int, v: Cell) -> int {
    count_in_line(c, k, v, c.len() as int)
}

/// Every cell of line `k` holds the mark of `p`.
pub open spec fn line_full_of(c: Seq<Seq<Cell>>, k: int, p: Player) -> bool {
    line_count(c, k, p.mark()) == c.len()
}

/// The player, if any, whose marks fill line `k`.
pub open spec fn line_owner(c: Seq<Seq<Cell>>, k: int) -> Option<Player> {
    if line_full_of(c, k, Player::X) {
        Some(Player::X)
    } else if line_full_of(c, k, Player::O) {
        Some(Player::O)
    } else {
        None
    }
}

/// The owner of the first filled line among lines `k, k + 1, ...`.
pub open spec fn winner_from(c: Seq<Seq<Cell>>, k: int) -> Option<Player>
    decreases num_lines(c.len() as int) - k,
{
    if k < 0 || k >= num_lines(c.len() as int) {
        None
    } else {
        match line_owner(c, k) {
            Some(p) => Some(p),
            None => winner_from(c, k + 1),
        }
    }
}

/// The owner of the first filled line, scanning rows, then columns, then diagonals.
pub open spec fn winner(c: Seq<Seq<Cell>>) -> Option<Player> {
    winner_from(c, 0)
}

/// The empty cells of the first `j` columns of row `i`, left to right.
pub open spec fn row_empties(c: Seq<Seq<Cell>>, i: int, j: int) -> Seq<Pos>
    decreases j,
{
    if j <= 0 {
        seq![]
    } else {
        row_empties(c, i, j - 1) + if c[i][j - 1] == Cell::Empty {
            seq![(i, j - 1)]
        } else {
            seq![]
        }
    }
}

/// The empty cells of the first `i` rows, in row-major order.
pub open spec fn rows_empties(c: Seq<Seq<Cell>>, i: int) -> Seq<Pos>
    decreases i,
{
    if i <= 0 {
        seq![]
    } else {
        rows_empties(c, i - 1) + row_empties(c, i - 1, c.len() as int)
    }
}

/// The empty cells of the grid, in row-major order.
pub open spec fn empties(c: Seq<Seq<Cell>>) -> Seq<Pos> {
    rows_empties(c, c.len() as int)
}

/// The state that a grid is in: decided by the first filled line, else tied
/// when no cell is empty, else ongoing.
pub open spec fn state_of(c: Seq<Seq<Cell>>) -> GameState {
    match winner(c) {
        Some(p) => GameState::Decisive(p),
        None => if empties(c).len() == 0 {
            GameState::Tied
        } else {
            GameState::Ongoing
        },
    }
}

/// Line `k` holds `n - 1` marks of `p` and one empty cell: `p` completes it
/// by playing there.
pub open spec fn is_threat(c: Seq<Seq<Cell>>, k: int, p: Player) -> bool {
    &&& line_count(c, k, p.mark()) == c.len() - 1
    &&& line_count(c, k, Cell::Empty) == 1
}

/// The index within line `k` of the last empty cell among its first `m`, or -1.
pub open spec fn last_empty_in(c: Seq<Seq<Cell>>, k: int, m: int) -> int
    decreases m,
{
    if m <= 0 {
        -1
    } else if line_cell(c, k, m - 1) == Cell::Empty {
        m - 1
    } else {
        last_empty_in(c, k, m - 1)
    }
}

/// The empty cell of line `k` (its last one, should it have several).
pub open spec fn gap_of(c: Seq<Seq<Cell>>, k: int) -> Pos {
    line_pos(c.len() as int, k, last_empty_in(c, k, c.len() as int))
}

/// The gap of the last line before line `k` that is a threat of `p`.
pub open spec fn last_threat(c: Seq<Seq<Cell>>, p: Player, k: int) -> Option<Pos>
    decreases k,
{
    if k <= 0 {
        None
    } else if is_threat(c, k - 1, p) {
        Some(gap_of(c, k - 1))
    } else {
        last_threat(c, p, k - 1)
    }
}

/// Where `p` wins in one move, if anywhere: the gap of the last of its threats.
pub open spec fn win_in_one(c: Seq<Seq<Cell>>, p: Player) -> Option<Pos> {
    last_threat(c, p, num_lines(c.len() as int))
}

/// The obvious move with `turn` to move: none once a line is filled; else the
/// mover's own winning cell; else the cell that blocks the opponent's win;
/// else none. Each comes with the player who wins there.
pub open spec fn obvious_of(c: Seq<Seq<Cell>>, turn: Player) -> Option<(Player, Pos)> {
    if winner(c).is_some() {
        None
    } else if win_in_one(c, turn).is_some() {
        Some((turn, win_in_one(c, turn).unwrap()))
    } else if win_in_one(c, turn.opponent()).is_some() {
        Some((turn.opponent(), win_in_one(c, turn.opponent()).unwrap()))
    } else {
        None
    }
}

/// The grid after `v` is written at `p`.
pub open spec fn place(c: Seq<Seq<Cell>>, p: Pos, v: Cell) -> Seq<Seq<Cell>> {
    c.update(p.0, c[p.0].update(p.1, v))
}

/// A line with an empty cell among its first `m` has a last such cell there.
pub proof fn lemma_gap_in_range(c: Seq<Seq<Cell>>, k: int, m: int)
    requires
        count_in_line(c, k, Cell::Empty, m) >= 1,
    ensures
        0 <= last_empty_in(c, k, m) < m,
        line_cell(c, k, last_empty_in(c, k, m)) == Cell::Empty,
    decreases m,
{
    if m > 0 && line_cell(c, k, m - 1) != Cell::Empty {
        lemma_gap_in_range(c, k, m - 1);
    }
}

proof fn lemma_row_empties_valid(c: Seq<Seq<Cell>>, i: int, j: int)
    requires
        square(c),
        0 <= i < c.len(),
        j <= c.len(),
    ensures
        forall|k: int|
            0 <= k < row_empties(c, i, j).len() ==> {
                let p = #[trigger] row_empties(c, i, j)[k];
                p.0 == i && 0 <= p.1 < j && c[i][p.1] == Cell::Empty
            },
    decreases j,
{
    if j > 0 {
        lemma_row_empties_valid(c, i, j - 1);
    }
}

proof fn lemma_rows_empties_valid(c: Seq<Seq<Cell>>, i: int)
    requires
        square(c),
        i <= c.len(),
    ensures
        forall|k: int|
            0 <= k < rows_empties(c, i).len() ==> {
                let p = #[trigger] rows_empties(c, i)[k];
                0 <= p.0 < i && in_grid(c.len() as int, p) && cell_at(c, p) == Cell::Empty
            },
    decreases i,
{
    if i > 0 {
        lemma_rows_empties_valid(c, i - 1);
        lemma_row_empties_valid(c, i - 1, c.len() as int);
        let a = rows_empties(c, i - 1);
        let b = row_empties(c, i - 1, c.len() as int);
        assert forall|k: int| 0 <= k < rows_empties(c, i).len() implies {
            let p = #[trigger] rows_empties(c, i)[k];
            0 <= p.0 < i && in_grid(c.len() as int, p) && cell_at(c, p) == Cell::Empty
        } by {
            if k < a.len() {
                assert(rows_empties(c, i)[k] == a[k]);
            } else {
                assert(rows_empties(c, i)[k] == b[k - a.len()]);
            }
        }
    }
}

/// Every listed empty cell lies on the grid and is empty.
pub proof fn lemma_empties_valid(c: Seq<Seq<Cell>>)
    requires
        square(c),
    ensures
        forall|k: int|
            0 <= k < empties(c).len() ==> in_grid(c.len() as int, #[trigger] empties(c)[k])
                && cell_at(c, empties(c)[k]) == Cell::Empty,
{
    lemma_rows_empties_valid(c, c.len() as int);
}

/// A square grid has fewer lines than cells, so line indices fit in a `usize`.
pub proof fn lemma_lines_fit(c: Seq<Seq<Cell>>)
    requires
        square(c),
    ensures
        num_lines(c.len() as int) <= c.len() * c.len(),
{
    let n = c.len() as int;
    assert(2 * n + 2 <= n * n) by (nonlinear_arith)
        requires
            n >= 3,
    ;
}

/// Every cell of every line lies on the grid.
pub proof fn lemma_line_pos_in_grid(n: int, k: int, t: int)
    requires
        0 <= k < num_lines(n),
        0 <= t < n,
    ensures
        in_grid(n, line_pos(n, k, t)),
{
}

/// A count of the first `m` cells is at most `m`, and reaches `m` only when
/// all of them hold `v`.
pub proof fn lemma_count_all(c: Seq<Seq<Cell>>, k: int, v: Cell, m: int)
    requires
        m >= 0,
    ensures
        0 <= count_in_line(c, k, v, m) <= m,
        count_in_line(c, k, v, m) == m <==> forall|t: int| 0 <= t < m ==> #[trigger] line_cell(c, k, t) == v,
    decreases m,
{
    if m > 0 {
        lemma_count_all(c, k, v, m - 1);
        if count_in_line(c, k, v, m) == m {
            assert forall|t: int| 0 <= t < m implies #[trigger] line_cell(c, k, t) == v by {
                if t < m - 1 {
                    assert(count_in_line(c, k, v, m - 1) == m - 1);
                }
            }
        }
        if forall|t: int| 0 <= t < m ==> #[trigger] line_cell(c, k, t) == v {
            assert(line_cell(c, k, m - 1) == v);
            assert forall|t: int| 0 <= t < m - 1 implies #[trigger] line_cell(c, k, t) == v by {
                assert(line_cell(c, k, t) == v);
            }
        }
    }
}

/// Writing at a position off the first `m` cells of a line leaves their counts alone.
pub proof fn lemma_count_off_line(c: Seq<Seq<Cell>>, p: Pos, x: Cell, k: int, v: Cell, m: int)
    requires
        square(c),
        in_grid(c.len() as int, p),
        0 <= k < num_lines(c.len() as int),
        m <= c.len(),
        forall|t: int| 0 <= t < m ==> #[trigger] line_pos(c.len() as int, k, t) != p,
    ensures
        count_in_line(place(c, p, x), k, v, m) == count_in_line(c, k, v, m),
    decreases m,
{
    if m > 0 {
        lemma_count_off_line(c, p, x, k, v, m - 1);
        let q = line_pos(c.len() as int, k, m - 1);
        lemma_line_pos_in_grid(c.len() as int, k, m - 1);
        assert(q != p);
        assert(c[q.0].len() == c.len());
        assert(line_cell(place(c, p, x), k, m - 1) == line_cell(c, k, m - 1));
    }
}

/// With no line filled from line `j` on, nothing is won from there.
pub proof fn lemma_no_owner_no_winner(c: Seq<Seq<Cell>>, j: int)
    requires
        0 <= j,
        forall|k: int| j <= k < num_lines(c.len() as int) ==> #[trigger] line_owner(c, k) is None,
    ensures
        winner_from(c, j) is None,
    decreases num_lines(c.len() as int) - j,
{
    if j < num_lines(c.len() as int) {
        lemma_no_owner_no_winner(c, j + 1);
    }
}

/// What is won from line `j` on is won by the owner of some filled line there.
pub proof fn lemma_winner_owns(c: Seq<Seq<Cell>>, j: int) -> (k: int)
    requires
        0 <= j,
        winner_from(c, j) is Some,
    ensures
        j <= k < num_lines(c.len() as int),
        line_owner(c, k) == winner_from(c, j),
    decreases num_lines(c.len() as int) - j,
{
    if line_owner(c, j) is Some {
        j
    } else {
        lemma_winner_owns(c, j + 1)
    }
}

/// With no threat of `p` among the first `k` lines, `p` has no winning cell there.
pub proof fn lemma_no_threat(c: Seq<Seq<Cell>>, p: Player, k: int)
    requires
        forall|l: int| 0 <= l < k ==> !#[trigger] is_threat(c, l, p),
    ensures
        last_threat(c, p, k) is None,
    decreases k,
{
    if k > 0 {
        lemma_no_threat(c, p, k - 1);
    }
}

/// With line `l` the only threat of `p` among the first `k` lines, its gap is
/// where `p` wins.
pub proof fn lemma_only_threat(c: Seq<Seq<Cell>>, p: Player, l: int, k: int)
    requires
        0 <= l < k,
        is_threat(c, l, p),
        forall|m: int| 0 <= m < k && m != l ==> !#[trigger] is_threat(c, m, p),
    ensures
        last_threat(c, p, k) == Some(gap_of(c, l)),
    decreases k,
{
    if k - 1 != l {
        lemma_only_threat(c, p, l, k - 1);
    }
}

/// A threat of `p` among the first `k` lines gives `p` a winning cell: the gap
/// of such a threat.
pub proof fn lemma_some_threat(c: Seq<Seq<Cell>>, p: Player, l: int, k: int) -> (m: int)
    requires
        0 <= l < k,
        is_threat(c, l, p),
    ensures
        0 <= m < k,
        is_threat(c, m, p),
        last_threat(c, p, k) == Some(gap_of(c, m)),
    decreases k,
{
    if is_threat(c, k - 1, p) {
        k - 1
    } else {
        lemma_some_threat(c, p, l, k - 1)
    }
}

proof fn lemma_row_empties_full(c: Seq<Seq<Cell>>, i: int, j: int)
    requires
        0 <= i < c.len(),
        0 <= j <= c[i].len(),
        forall|b: int| 0 <= b < c[i].len() ==> #[trigger] c[i][b] == Cell::Empty,
    ensures
        row_empties(c, i, j).len() == j,
    decreases j,
{
    if j > 0 {
        lemma_row_empties_full(c, i, j - 1);
    }
}

proof fn lemma_rows_empties_full(c: Seq<Seq<Cell>>, i: int)
    requires
        square(c),
        0 <= i <= c.len(),
        forall|a: int, b: int| 0 <= a < c.len() && 0 <= b < c.len() ==> #[trigger] c[a][b] == Cell::Empty,
    ensures
        rows_empties(c, i).len() == i * c.len(),
    decreases i,
{
    if i > 0 {
        lemma_rows_empties_full(c, i - 1);
        assert(c[i - 1].len() == c.len());
        assert forall|b: int| 0 <= b < c[i - 1].len() implies #[trigger] c[i - 1][b] == Cell::Empty by {
            assert(c[i - 1][b] == Cell::Empty);
        }
        lemma_row_empties_full(c, i - 1, c.len() as int);
        let n = c.len() as int;
        assert(rows_empties(c, i).len() == rows_empties(c, i - 1).len() + row_empties(c, i - 1, n).len());
        assert((i - 1) * n + n == i * n) by (nonlinear_arith);
    } else {
        assert(i * c.len() == 0) by (nonlinear_arith)
            requires
                i == 0,
        ;
    }
}

/// On an empty grid nothing is won, every cell is listed as empty, and no
/// player has a winning cell.
pub proof fn lemma_empty_grid(n: int)
    requires
        n >= 3,
        n * n <= usize::MAX,
    ensures
        square(empty_grid(n)),
        winner(empty_grid(n)) is None,
        empties(empty_grid(n)).len() == n * n,
        win_in_one(empty_grid(n), Player::X) is None,
        win_in_one(empty_grid(n), Player::O) is None,
{
    let c = empty_grid(n);
    assert(square(c));
    assert forall|k: int, v: Cell| 0 <= k < num_lines(n) && v != Cell::Empty implies #[trigger] count_in_line(c, k, v, n) == 0 by {
        lemma_count_all(c, k, Cell::Empty, n);
        assert forall|t: int| 0 <= t < n implies #[trigger] line_cell(c, k, t) == Cell::Empty by {
            lemma_line_pos_in_grid(n, k, t);
        }
        lemma_count_none(c, k, v, n);
    }
    assert forall|k: int| 0 <= k < num_lines(n) implies #[trigger] line_owner(c, k) is None by {
        assert(count_in_line(c, k, Cell::X, n) == 0);
        assert(count_in_line(c, k, Cell::O, n) == 0);
    }
    lemma_no_owner_no_winner(c, 0);
    lemma_rows_empties_full(c, n);
    assert forall|p: Player, l: int| 0 <= l < num_lines(n) implies !#[trigger] is_threat(c, l, p) by {
        assert(count_in_line(c, l, p.mark(), n) == 0);
    }
    lemma_no_threat(c, Player::X, num_lines(n));
    lemma_no_threat(c, Player::O, num_lines(n));
}

/// A count of a value that no counted cell holds is zero.
proof fn lemma_count_none(c: Seq<Seq<Cell>>, k: int, v: Cell, m: int)
    requires
        forall|t: int| 0 <= t < m ==> #[trigger] line_cell(c, k, t) != v,
    ensures
        count_in_line(c, k, v, m) == 0,
    decreases m,
{
    if m > 0 {
        lemma_count_none(c, k, v, m - 1);
    }
}

/// A filled line anywhere from line `j` on means something is won from there.
pub proof fn lemma_owner_gives_winner(c: Seq<Seq<Cell>>, j: int, k: int)
    requires
        0 <= j <= k < num_lines(c.len() as int),
        line_owner(c, k) is Some,
    ensures
        winner_from(c, j) is Some,
    decreases k - j,
{
    if j < k && line_owner(c, j) is None {
        lemma_owner_gives_winner(c, j + 1, k);
    }
}

/// A line filled by `q` fills up with `p`'s marks only when `p` is `q`.
pub proof fn lemma_full_owner(c: Seq<Seq<Cell>>, k: int, p: Player)
    requires
        square(c),
        line_full_of(c, k, p),
    ensures
        line_owner(c, k) == Some(p),
{
    let n = c.len() as int;
    lemma_count_all(c, k, p.mark(), n);
    lemma_count_all(c, k, p.opponent().mark(), n);
    assert(line_cell(c, k, 0) == p.mark());
}

/// A line that writing `turn`'s mark at `p` leaves filled, and that was not
/// filled before, goes through `p` and holds `turn`'s marks.
pub proof fn lemma_filled_by_mover(c: Seq<Seq<Cell>>, p: Pos, turn: Player, k: int, q: Player)
    requires
        square(c),
        in_grid(c.len() as int, p),
        0 <= k < num_lines(c.len() as int),
        !line_full_of(c, k, q),
        line_full_of(place(c, p, turn.mark()), k, q),
    ensures
        q == turn,
        exists|t: int| 0 <= t < c.len() && #[trigger] line_pos(c.len() as int, k, t) == p,
{
    let n = c.len() as int;
    let c2 = place(c, p, turn.mark());
    if forall|t: int| 0 <= t < n ==> #[trigger] line_pos(n, k, t) != p {
        lemma_count_off_line(c, p, turn.mark(), k, q.mark(), n);
    } else {
        let t0 = choose|t: int| 0 <= t < n && #[trigger] line_pos(n, k, t) == p;
        lemma_count_all(c2, k, q.mark(), n);
        assert(line_cell(c2, k, t0) == q.mark());
        assert(c2.len() == n);
    }
}

/// Writing a mark keeps the grid square.
pub proof fn lemma_place_square(c: Seq<Seq<Cell>>, p: Pos, v: Cell)
    requires
        square(c),
        in_grid(c.len() as int, p),
    ensures
        square(place(c, p, v)),
{
    let c2 = place(c, p, v);
    assert forall|i: int| 0 <= i < c2.len() implies #[trigger] c2[i].len() == c2.len() by {
        assert(c[i].len() == c.len());
    }
}

/// With nothing won, no line is filled.
pub proof fn lemma_no_full_line(c: Seq<Seq<Cell>>)
    requires
        square(c),
        winner(c) is None,
    ensures
        forall|l: int, q: Player| 0 <= l < num_lines(c.len() as int) ==> !#[trigger] line_full_of(c, l, q),
{
    assert forall|l: int, q: Player| 0 <= l < num_lines(c.len() as int) implies !#[trigger] line_full_of(c, l, q) by {
        if line_full_of(c, l, q) {
            lemma_full_owner(c, l, q);
            lemma_owner_gives_winner(c, 0, l);
        }
    }
}

/// On a grid where nothing is won, a mark that fills a line wins the game for
/// the player who wrote it.
pub proof fn lemma_mover_decides(c: Seq<Seq<Cell>>, p: Pos, turn: Player, k: int, q: Player)
    requires
        square(c),
        winner(c) is None,
        in_grid(c.len() as int, p),
        0 <= k < num_lines(c.len() as int),
        line_full_of(place(c, p, turn.mark()), k, q),
    ensures
        q == turn,
        state_of(place(c, p, turn.mark())) == GameState::Decisive(turn),
{
    let c2 = place(c, p, turn.mark());
    lemma_no_full_line(c);
    lemma_filled_by_mover(c, p, turn, k, q);
    lemma_place_square(c, p, turn.mark());
    lemma_full_owner(c2, k, q);
    lemma_owner_gives_winner(c2, 0, k);
    let k2 = lemma_winner_owns(c2, 0);
    let w = winner(c2).unwrap();
    assert(line_full_of(c2, k2, w));
    lemma_filled_by_mover(c, p, turn, k2, w);
}

/// Writing `v` at the `t0`-th cell of line `k` changes its counts by that
/// cell alone.
pub proof fn lemma_count_on_line(c: Seq<Seq<Cell>>, k: int, t0: int, v: Cell, w: Cell, m: int)
    requires
        square(c),
        0 <= k < num_lines(c.len() as int),
        0 <= t0 < c.len(),
        0 <= m <= c.len(),
    ensures
        count_in_line(place(c, line_pos(c.len() as int, k, t0), v), k, w, m) == count_in_line(c, k, w, m)
            + if t0 < m {
            (if v == w {
                1int
            } else {
                0int
            }) - (if line_cell(c, k, t0) == w {
                1int
            } else {
                0int
            })
        } else {
            0int
        },
    decreases m,
{
    let n = c.len() as int;
    let p = line_pos(n, k, t0);
    let c2 = place(c, p, v);
    if m > 0 {
        lemma_count_on_line(c, k, t0, v, w, m - 1);
        lemma_line_pos_in_grid(n, k, m - 1);
        lemma_line_pos_in_grid(n, k, t0);
        let q = line_pos(n, k, m - 1);
        assert(c[q.0].len() == n);
        assert(c[p.0].len() == n);
        if m - 1 == t0 {
            assert(line_cell(c2, k, m - 1) == v);
        } else {
            assert(q != p);
            assert(line_cell(c2, k, m - 1) == line_cell(c, k, m - 1));
        }
    }
}

/// The counts of X, O and empty cells among the first `m` cells add up to `m`.
pub proof fn lemma_count_partition(c: Seq<Seq<Cell>>, k: int, m: int)
    requires
        m >= 0,
    ensures
        count_in_line(c, k, Cell::X, m) + count_in_line(c, k, Cell::O, m) + count_in_line(c, k, Cell::Empty, m) == m,
    decreases m,
{
    if m > 0 {
        lemma_count_partition(c, k, m - 1);
    }
}

/// Two distinct cells holding `w` make a count of at least two.
pub proof fn lemma_count_two(c: Seq<Seq<Cell>>, k: int, w: Cell, m: int, t1: int, t2: int)
    requires
        0 <= t1 < m,
        0 <= t2 < m,
        t1 != t2,
        line_cell(c, k, t1) == w,
        line_cell(c, k, t2) == w,
    ensures
        count_in_line(c, k, w, m) >= 2,
    decreases m,
{
    lemma_count_all(c, k, w, m - 1);
    if m - 1 != t1 && m - 1 != t2 {
        lemma_count_two(c, k, w, m - 1, t1, t2);
    } else {
        let t = if m - 1 == t1 {
            t2
        } else {
            t1
        };
        lemma_count_one(c, k, w, m - 1, t);
    }
}

proof fn lemma_count_one(c: Seq<Seq<Cell>>, k: int, w: Cell, m: int, t: int)
    requires
        0 <= t < m,
        line_cell(c, k, t) == w,
    ensures
        count_in_line(c, k, w, m) >= 1,
    decreases m,
{
    lemma_count_all(c, k, w, m - 1);
    if m - 1 != t {
        lemma_count_one(c, k, w, m - 1, t);
    }
}

proof fn lemma_row_lists(c: Seq<Seq<Cell>>, i: int, j: int, b: int)
    requires
        0 <= b < j,
        c[i][b] == Cell::Empty,
    ensures
        row_empties(c, i, j).contains((i, b)),
    decreases j,
{
    let prev = row_empties(c, i, j - 1);
    if b == j - 1 {
        assert(row_empties(c, i, j)[prev.len() as int] == (i, b));
    } else {
        lemma_row_lists(c, i, j - 1, b);
        let x = choose|x: int| 0 <= x < prev.len() && prev[x] == (i, b);
        assert(row_empties(c, i, j)[x] == (i, b));
    }
}

proof fn lemma_rows_list(c: Seq<Seq<Cell>>, i: int, p: Pos)
    requires
        0 <= p.0 < i,
        0 <= p.1 < c.len(),
        cell_at(c, p) == Cell::Empty,
    ensures
        rows_empties(c, i).contains(p),
    decreases i,
{
    let prev = rows_empties(c, i - 1);
    if p.0 == i - 1 {
        lemma_row_lists(c, i - 1, c.len() as int, p.1);
        let row = row_empties(c, i - 1, c.len() as int);
        let x = choose|x: int| 0 <= x < row.len() && row[x] == p;
        assert(rows_empties(c, i)[prev.len() + x] == p);
    } else {
        lemma_rows_list(c, i - 1, p);
        let x = choose|x: int| 0 <= x < prev.len() && prev[x] == p;
        assert(rows_empties(c, i)[x] == p);
    }
}

/// Every empty cell of the grid is listed among its empty cells.
pub proof fn lemma_empty_listed(c: Seq<Seq<Cell>>, p: Pos)
    requires
        in_grid(c.len() as int, p),
        cell_at(c, p) == Cell::Empty,
    ensures
        empties(c).contains(p),
{
    lemma_rows_list(c, c.len() as int, p);
}

/// A winning cell is the gap of one of the player's threats.
pub proof fn lemma_win_from_threat(c: Seq<Seq<Cell>>, p: Player, k: int) -> (m: int)
    requires
        last_threat(c, p, k) is Some,
    ensures
        0 <= m < k,
        is_threat(c, m, p),
        last_threat(c, p, k) == Some(gap_of(c, m)),
    decreases k,
{
    if is_threat(c, k - 1, p) {
        k - 1
    } else {
        lemma_win_from_threat(c, p, k - 1)
    }
}

proof fn lemma_row_empties_same(c: Seq<Seq<Cell>>, d: Seq<Seq<Cell>>, i: int, j: int)
    requires
        c[i] == d[i],
    ensures
        row_empties(c, i, j) == row_empties(d, i, j),
    decreases j,
{
    if j > 0 {
        lemma_row_empties_same(c, d, i, j - 1);
    }
}

proof fn lemma_row_empties_shrink(c: Seq<Seq<Cell>>, p: Pos, v: Cell, j: int)
    requires
        square(c),
        in_grid(c.len() as int, p),
        cell_at(c, p) == Cell::Empty,
        v != Cell::Empty,
        0 <= j <= c.len(),
    ensures
        row_empties(place(c, p, v), p.0, j).len() == row_empties(c, p.0, j).len() - if p.1 < j {
            1int
        } else {
            0int
        },
    decreases j,
{
    if j > 0 {
        lemma_row_empties_shrink(c, p, v, j - 1);
        assert(c[p.0].len() == c.len());
    }
}

proof fn lemma_rows_empties_shrink(c: Seq<Seq<Cell>>, p: Pos, v: Cell, i: int)
    requires
        square(c),
        in_grid(c.len() as int, p),
        cell_at(c, p) == Cell::Empty,
        v != Cell::Empty,
        0 <= i <= c.len(),
    ensures
        rows_empties(place(c, p, v), i).len() == rows_empties(c, i).len() - if p.0 < i {
            1int
        } else {
            0int
        },
    decreases i,
{
    if i > 0 {
        lemma_rows_empties_shrink(c, p, v, i - 1);
        let n = c.len() as int;
        if i - 1 == p.0 {
            lemma_row_empties_shrink(c, p, v, n);
        } else {
            lemma_row_empties_same(c, place(c, p, v), i - 1, n);
        }
    }
}

/// Marking an empty cell leaves one empty cell fewer.
pub proof fn lemma_empties_shrink(c: Seq<Seq<Cell>>, p: Pos, v: Cell)
    requires
        square(c),
        in_grid(c.len() as int, p),
        cell_at(c, p) == Cell::Empty,
        v != Cell::Empty,
    ensures
        empties(place(c, p, v)).len() == empties(c).len() - 1,
{
    lemma_rows_empties_shrink(c, p, v, c.len() as int);
}

/// `p` comes before `q` in row-major order.
pub open spec fn before(p: Pos, q: Pos) -> bool {
    p.0 < q.0 || (p.0 == q.0 && p.1 < q.1)
}

proof fn lemma_row_empties_sorted(c: Seq<Seq<Cell>>, i: int, j: int)
    ensures
        forall|a: int| 0 <= a < row_empties(c, i, j).len() ==> {
            let p = #[trigger] row_empties(c, i, j)[a];
            p.0 == i && p.1 < j
        },
        forall|a: int, b: int|
            0 <= a < b < row_empties(c, i, j).len() ==> before(
                #[trigger] row_empties(c, i, j)[a],
                #[trigger] row_empties(c, i, j)[b],
            ),
    decreases j,
{
    if j > 0 {
        lemma_row_empties_sorted(c, i, j - 1);
        let s = row_empties(c, i, j);
        let prev = row_empties(c, i, j - 1);
        assert forall|a: int| 0 <= a < s.len() implies {
            let p = #[trigger] s[a];
            p.0 == i && p.1 < j
        } by {
            if a < prev.len() {
                assert(s[a] == prev[a]);
            }
        }
        assert forall|a: int, b: int| 0 <= a < b < s.len() implies before(#[trigger] s[a], #[trigger] s[b]) by {
            assert(s[a] == prev[a]);
            if b < prev.len() {
                assert(s[b] == prev[b]);
            } else {
                assert(s[b] == (i, j - 1));
            }
        }
    }
}

proof fn lemma_rows_empties_sorted(c: Seq<Seq<Cell>>, i: int)
    ensures
        forall|a: int| 0 <= a < rows_empties(c, i).len() ==> (#[trigger] rows_empties(c, i)[a]).0 < i,
        forall|a: int, b: int|
            0 <= a < b < rows_empties(c, i).len() ==> before(
                #[trigger] rows_empties(c, i)[a],
                #[trigger] rows_empties(c, i)[b],
            ),
    decreases i,
{
    if i > 0 {
        lemma_rows_empties_sorted(c, i - 1);
        lemma_row_empties_sorted(c, i - 1, c.len() as int);
        let s = rows_empties(c, i);
        let x = rows_empties(c, i - 1);
        let y = row_empties(c, i - 1, c.len() as int);
        assert forall|a: int| 0 <= a < s.len() implies (#[trigger] s[a]).0 < i by {
            if a < x.len() {
                assert(s[a] == x[a]);
            } else {
                assert(s[a] == y[a - x.len()]);
            }
        }
        assert forall|a: int, b: int| 0 <= a < b < s.len() implies before(#[trigger] s[a], #[trigger] s[b]) by {
            if b < x.len() {
                assert(s[a] == x[a]);
                assert(s[b] == x[b]);
            } else if a < x.len() {
                assert(s[a] == x[a]);
                assert(s[b] == y[b - x.len()]);
            } else {
                assert(s[a] == y[a - x.len()]);
                assert(s[b] == y[b - x.len()]);
            }
        }
    }
}

/// The empty cells are listed in strictly increasing row-major order, so
/// none is listed twice.
pub proof fn lemma_empties_distinct(c: Seq<Seq<Cell>>)
    ensures
        forall|a: int, b: int|
            0 <= a < b < empties(c).len() ==> before(#[trigger] empties(c)[a], #[trigger] empties(c)[b]),
        empties(c).no_duplicates(),
{
    lemma_rows_empties_sorted(c, c.len() as int);
    let s = empties(c);
    assert forall|a: int, b: int| 0 <= a < s.len() && 0 <= b < s.len() && a != b implies s[a] != s[b] by {
        if a < b {
            assert(before(s[a], s[b]));
        } else {
            assert(before(s[b], s[a]));
        }
    }
}

} // verus!
