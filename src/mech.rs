//! Game mechanics: cells, players, the grid and the game state machine.
use vstd::prelude::*;

use crate::rules::{
    count_in_line, empties, in_grid, last_empty_in, last_threat, lemma_empties_distinct,
    lemma_empty_grid, lemma_empty_listed, lemma_gap_in_range, lemma_lines_fit, line_cell,
    line_count, line_owner, line_pos, num_lines, obvious_of, place, row_empties, rows_empties,
    square, state_of, winner, winner_from, Pos,
};

verus! {

/// Represents the contents of a cell on the grid.
#[derive(Debug, PartialEq, Eq, Structural, Copy, Clone)]
pub enum Cell {
    X,
    O,
    Empty,
}

impl Cell {
    /// The signed score of a cell: `X` is +1, `O` is -1, `Empty` is 0.
    pub open spec fn score(self) -> int {
        match self {
            Cell::X => 1,
            Cell::O => -1,
            Cell::Empty => 0,
        }
    }
}

impl From<Cell> for isize {
    fn from(cell: Cell) -> (r: isize) {
        match cell {
            Cell::X => 1,
            Cell::O => -1,
            Cell::Empty => 0,
        }
    }
}

impl vstd::std_specs::convert::FromSpecImpl<Cell> for isize {
    open spec fn obeys_from_spec() -> bool {
        true
    }

    open spec fn from_spec(cell: Cell) -> isize {
        cell.score() as isize
    }
}

/// Represents a player, the player playing X or the player playing O.
#[derive(Debug, PartialEq, Eq, Structural, Copy, Clone)]
pub enum Player {
    X,
    O,
}

impl Player {
    /// The other player.
    pub open spec fn opponent(self) -> Player {
        match self {
            Player::X => Player::O,
            Player::O => Player::X,
        }
    }

    /// The cell content that this player writes.
    pub open spec fn mark(self) -> Cell {
        match self {
            Player::X => Cell::X,
            Player::O => Cell::O,
        }
    }

    /// The score of a win of this player: +1 for `X`, -1 for `O`.
    pub open spec fn score(self) -> int {
        match self {
            Player::X => 1,
            Player::O => -1,
        }
    }

    /// Returns the other player.
    pub fn opposite(self) -> (r: Player)
        ensures
            r == self.opponent(),
    {
        match self {
            Player::X => Player::O,
            Player::O => Player::X,
        }
    }
}

impl From<Player> for isize {
    fn from(player: Player) -> (r: isize) {
        match player {
            Player::X => 1,
            Player::O => -1,
        }
    }
}

impl vstd::std_specs::convert::FromSpecImpl<Player> for isize {
    open spec fn obeys_from_spec() -> bool {
        true
    }

    open spec fn from_spec(player: Player) -> isize {
        player.score() as isize
    }
}

impl From<Player> for Cell {
    fn from(player: Player) -> (r: Cell) {
        match player {
            Player::X => Cell::X,
            Player::O => Cell::O,
        }
    }
}

impl vstd::std_specs::convert::FromSpecImpl<Player> for Cell {
    open spec fn obeys_from_spec() -> bool {
        true
    }

    open spec fn from_spec(player: Player) -> Cell {
        player.mark()
    }
}

impl std::ops::Not for Player {
    type Output = Player;

    fn not(self) -> (r: Player) {
        self.opposite()
    }
}

impl vstd::std_specs::ops::NotSpecImpl for Player {
    open spec fn obeys_not_spec() -> bool {
        true
    }

    open spec fn not_req(self) -> bool {
        true
    }

    open spec fn not_spec(self) -> Player {
        self.opponent()
    }
}

/// Represents the game state.
#[derive(Debug, PartialEq, Eq, Structural, Copy, Clone)]
pub enum GameState {
    Ongoing,
    Tied,
    /// The field gives the player who won.
    Decisive(Player),
}

/// Why a move was rejected.
#[derive(Debug, PartialEq, Eq, Structural, Copy, Clone)]
pub enum MoveError {
    /// The game has already ended.
    GameOver,
    /// The row or the column is outside the grid.
    OutOfBounds,
    /// The cell already holds a mark.
    CellOccupied,
}

/// Represents the game's grid data as a `Vec` of rows, where each row is a `Vec` of cells.
pub type GridData = Vec<Vec<Cell>>;

/// Represents a move as a row index (first) and a column index (second) on a grid.
pub type Move = (usize, usize);

/// The position that a move names.
pub open spec fn pos_of(mv: Move) -> Pos {
    (mv.0 as int, mv.1 as int)
}

/// Represents the game grid.
#[derive(Debug, PartialEq, Eq)]
pub struct Grid(GridData);

impl View for Grid {
    type V = Seq<Seq<Cell>>;

    closed spec fn view(&self) -> Seq<Seq<Cell>> {
        self.0@.map_values(|row: Vec<Cell>| row@)
    }
}

/// `n` rows of `n` empty cells.
pub open spec fn empty_grid(n: int) -> Seq<Seq<Cell>> {
    Seq::new(n as nat, |i: int| Seq::new(n as nat, |j: int| Cell::Empty))
}

impl Grid {
    /// Creates an empty `n` by `n` square grid.
    pub fn new(n: usize) -> (r: Grid)
        requires
            n >= 3,
        ensures
            r@ == empty_grid(n as int),
    {
        let mut rows: Vec<Vec<Cell>> = Vec::new();
        let mut i: usize = 0;
        while i < n
            invariant
                i <= n,
                rows@.len() == i,
                forall|a: int| 0 <= a < i ==> #[trigger] rows@[a]@ == Seq::new(n as nat, |j: int| Cell::Empty),
            decreases n - i,
        {
            let mut row: Vec<Cell> = Vec::new();
            let mut j: usize = 0;
            while j < n
                invariant
                    j <= n,
                    row@ == Seq::new(j as nat, |b: int| Cell::Empty),
                decreases n - j,
            {
                row.push(Cell::Empty);
                j += 1;
                assert(row@ =~= Seq::new(j as nat, |b: int| Cell::Empty));
            }
            rows.push(row);
            i += 1;
        }
        let r = Grid(rows);
        assert(r@ =~= empty_grid(n as int));
        r
    }

    /// Returns a reference to the grid data.
    pub fn data(&self) -> (r: &GridData)
        ensures
            r@.len() == self@.len(),
            forall|i: int| 0 <= i < r@.len() ==> #[trigger] r@[i]@ == self@[i],
    {
        &self.0
    }

    /// Returns the dimension `n` of the `n` by `n` grid.
    pub fn n(&self) -> (r: usize)
        ensures
            r == self@.len(),
    {
        self.0.len()
    }

    /// Returns the cell at (`row`, `col`).
    pub fn get(&self, row: usize, col: usize) -> (r: Cell)
        requires
            row < self@.len(),
            col < self@[row as int].len(),
        ensures
            r == self@[row as int][col as int],
    {
        self.0[row][col]
    }

    /// Writes `cell` at (`row`, `col`).
    fn set(&mut self, row: usize, col: usize, cell: Cell)
        requires
            row < old(self)@.len(),
            col < old(self)@[row as int].len(),
        ensures
            final(self)@ == place(old(self)@, (row as int, col as int), cell),
    {
        let mut line: Vec<Cell> = Vec::new();
        std::mem::swap(&mut line, &mut self.0[row]);
        line.set(col, cell);
        std::mem::swap(&mut line, &mut self.0[row]);
        assert(self@ =~= place(old(self)@, (row as int, col as int), cell));
    }
}

impl Clone for Grid {
    fn clone(&self) -> (r: Grid)
        ensures
            r@ == self@,
    {
        let mut rows: Vec<Vec<Cell>> = Vec::new();
        let mut i: usize = 0;
        while i < self.0.len()
            invariant
                i <= self.0@.len(),
                rows@.len() == i,
                forall|a: int| 0 <= a < i ==> #[trigger] rows@[a]@ == self.0@[a]@,
            decreases self.0@.len() - i,
        {
            let mut row: Vec<Cell> = Vec::new();
            let mut j: usize = 0;
            while j < self.0[i].len()
                invariant
                    i < self.0@.len(),
                    j <= self.0@[i as int]@.len(),
                    row@ == self.0@[i as int]@.subrange(0, j as int),
                decreases self.0@[i as int]@.len() - j,
            {
                row.push(self.0[i][j]);
                j += 1;
                assert(row@ =~= self.0@[i as int]@.subrange(0, j as int));
            }
            assert(row@ =~= self.0@[i as int]@);
            rows.push(row);
            i += 1;
        }
        let r = Grid(rows);
        assert(r@ =~= self@);
        r
    }
}

/// What a game is, seen as values: the grid, the player to move, and the
/// facts derived from them.
pub struct GameView {
    pub cells: Seq<Seq<Cell>>,
    pub turn: Player,
    pub state: GameState,
    /// The empty cells, in row-major order.
    pub empty: Seq<Pos>,
    /// The obvious move, with the player who wins there.
    pub obvious: Option<(Player, Pos)>,
}

/// The game on grid `cells` with `turn` to move, its derived facts computed
/// from them.
pub open spec fn position(cells: Seq<Seq<Cell>>, turn: Player) -> GameView {
    GameView {
        cells,
        turn,
        state: state_of(cells),
        empty: empties(cells),
        obvious: obvious_of(cells, turn),
    }
}

impl GameView {
    pub open spec fn n(self) -> int {
        self.cells.len() as int
    }

    /// The grid is square and every derived fact matches it.
    pub open spec fn valid(self) -> bool {
        square(self.cells) && self == position(self.cells, self.turn)
    }

    /// Whether a move is accepted, and if not, why: the guards in order.
    pub open spec fn check(self, mv: Move) -> Result<(), MoveError> {
        if self.state != GameState::Ongoing {
            Err(MoveError::GameOver)
        } else if mv.0 >= self.n() || mv.1 >= self.n() {
            Err(MoveError::OutOfBounds)
        } else if self.cells[mv.0 as int][mv.1 as int] != Cell::Empty {
            Err(MoveError::CellOccupied)
        } else {
            Ok(())
        }
    }

    /// The game after the mover writes its mark at `mv`.
    pub open spec fn after(self, mv: Move) -> GameView {
        position(place(self.cells, pos_of(mv), self.turn.mark()), self.turn.opponent())
    }
}

/// The positions that a sequence of moves names.
pub open spec fn moves_view(s: Seq<Move>) -> Seq<Pos> {
    s.map_values(|mv: Move| pos_of(mv))
}

/// A move, if any, as a position.
pub open spec fn opt_pos(o: Option<Move>) -> Option<Pos> {
    match o {
        Some(mv) => Some(pos_of(mv)),
        None => None,
    }
}

/// The obvious move, with positions as integers.
pub open spec fn obvious_view(o: Option<(Player, Move)>) -> Option<(Player, Pos)> {
    match o {
        Some((p, mv)) => Some((p, pos_of(mv))),
        None => None,
    }
}

/// Represents a game of tic-tac-toe.
#[derive(Debug, PartialEq, Eq)]
pub struct Game {
    grid: Grid,
    empty: Vec<Move>,
    undoubted: Option<(Player, Move)>,
    state: GameState,
    turn: Player,
}

impl View for Game {
    type V = GameView;

    closed spec fn view(&self) -> GameView {
        GameView {
            cells: self.grid@,
            turn: self.turn,
            state: self.state,
            empty: moves_view(self.empty@),
            obvious: obvious_view(self.undoubted),
        }
    }
}

/// A copy of a list of moves.
pub(crate) fn copy_moves(v: &Vec<Move>) -> (r: Vec<Move>)
    ensures
        r@ == v@,
{
    let mut r: Vec<Move> = Vec::new();
    let mut i: usize = 0;
    while i < v.len()
        invariant
            i <= v@.len(),
            r@ == v@.subrange(0, i as int),
        decreases v@.len() - i,
    {
        r.push(v[i]);
        i = i + 1;
        assert(r@ =~= v@.subrange(0, i as int));
    }
    assert(r@ =~= v@);
    r
}

/// How many cells of one line hold X, O and nothing, and the index in the
/// line of its last empty cell.
struct LineStats {
    xs: usize,
    os: usize,
    gaps: usize,
    last_gap: Option<usize>,
}

/// The move at the `t`-th cell of line `k`.
fn line_move(n: usize, k: usize, t: usize) -> (r: Move)
    requires
        3 <= n,
        2 * n + 2 <= usize::MAX,
        k < 2 * n + 2,
        t < n,
    ensures
        pos_of(r) == line_pos(n as int, k as int, t as int),
        in_grid(n as int, pos_of(r)),
{
    if k < n {
        (k, t)
    } else if k < 2 * n {
        (t, k - n)
    } else if k == 2 * n {
        (t, t)
    } else {
        (t, n - 1 - t)
    }
}

/// Counts the marks and the empty cells of line `k`.
fn line_stats(grid: &Grid, k: usize) -> (r: LineStats)
    requires
        square(grid@),
        k < num_lines(grid@.len() as int),
    ensures
        r.xs == line_count(grid@, k as int, Cell::X),
        r.os == line_count(grid@, k as int, Cell::O),
        r.gaps == line_count(grid@, k as int, Cell::Empty),
        r.xs + r.os + r.gaps == grid@.len(),
        r.gaps >= 1 ==> r.last_gap == Some(last_empty_in(grid@, k as int, grid@.len() as int) as usize),
{
    let ghost c = grid@;
    let n = grid.n();
    proof {
        lemma_lines_fit(c);
    }
    let mut stats = LineStats { xs: 0, os: 0, gaps: 0, last_gap: None };
    let mut t: usize = 0;
    while t < n
        invariant
            square(c),
            c == grid@,
            n == c.len(),
            2 * n + 2 <= usize::MAX,
            k < 2 * n + 2,
            t <= n,
            stats.xs == count_in_line(c, k as int, Cell::X, t as int),
            stats.os == count_in_line(c, k as int, Cell::O, t as int),
            stats.gaps == count_in_line(c, k as int, Cell::Empty, t as int),
            stats.xs + stats.os + stats.gaps == t,
            stats.gaps >= 1 ==> stats.last_gap == Some(last_empty_in(c, k as int, t as int) as usize),
        decreases n - t,
    {
        let (row, col) = line_move(n, k, t);
        assert(c[row as int].len() == n);
        let cell = grid.get(row, col);
        assert(cell == line_cell(c, k as int, t as int));
        match cell {
            Cell::X => stats.xs = stats.xs + 1,
            Cell::O => stats.os = stats.os + 1,
            Cell::Empty => {
                stats.gaps = stats.gaps + 1;
                stats.last_gap = Some(t);
            },
        }
        t = t + 1;
    }
    stats
}

/// The empty cells of a grid, in row-major order.
fn empty_cells(grid: &Grid) -> (r: Vec<Move>)
    requires
        square(grid@),
    ensures
        moves_view(r@) == empties(grid@),
{
    let ghost c = grid@;
    let n = grid.n();
    let mut empty: Vec<Move> = Vec::new();
    let mut i: usize = 0;
    while i < n
        invariant
            square(c),
            c == grid@,
            n == c.len(),
            i <= n,
            moves_view(empty@) == rows_empties(c, i as int),
        decreases n - i,
    {
        let mut j: usize = 0;
        assert(c[i as int].len() == n);
        while j < n
            invariant
                square(c),
                c == grid@,
                n == c.len(),
                i < n,
                j <= n,
                moves_view(empty@) == rows_empties(c, i as int) + row_empties(c, i as int, j as int),
            decreases n - j,
        {
            assert(c[i as int].len() == n);
            let ghost before = empty@;
            if grid.get(i, j) == Cell::Empty {
                empty.push((i, j));
                assert(moves_view(empty@) =~= moves_view(before).push((i as int, j as int)));
            }
            j = j + 1;
            assert(moves_view(empty@) =~= rows_empties(c, i as int) + row_empties(c, i as int, j as int));
        }
        i = i + 1;
        assert(moves_view(empty@) =~= rows_empties(c, i as int));
    }
    empty
}

impl Game {
    /// The grid is square and every derived fact matches it.
    pub open spec fn wf(&self) -> bool {
        self@.valid()
    }

    /// Recomputes the empty cells, the state and the obvious move from the
    /// grid and the player to move.
    fn update_state(&mut self)
        requires
            square(old(self).grid@),
        ensures
            final(self)@ == position(old(self).grid@, old(self).turn),
            final(self).grid == old(self).grid,
            final(self).turn == old(self).turn,
    {
        let ghost c = self.grid@;
        self.undoubted = None;
        self.empty = empty_cells(&self.grid);
        let n = self.grid.n();
        proof {
            lemma_lines_fit(c);
        }
        let lines = 2 * n + 2;
        let mut xwin: Option<Move> = None;
        let mut owin: Option<Move> = None;
        let mut k: usize = 0;
        while k < lines
            invariant
                square(c),
                c == self.grid@,
                n == c.len(),
                lines == num_lines(n as int),
                2 * n + 2 <= usize::MAX,
                k <= lines,
                moves_view(self.empty@) == empties(c),
                self.undoubted == None::<(Player, Move)>,
                self.grid == old(self).grid,
                self.turn == old(self).turn,
                winner(c) == winner_from(c, k as int),
                opt_pos(xwin) == last_threat(c, Player::X, k as int),
                opt_pos(owin) == last_threat(c, Player::O, k as int),
            decreases lines - k,
        {
            let stats = line_stats(&self.grid, k);
            if stats.xs == n {
                assert(line_owner(c, k as int) == Some(Player::X));
                self.state = GameState::Decisive(Player::X);
                return;
            }
            if stats.os == n {
                assert(line_owner(c, k as int) == Some(Player::O));
                self.state = GameState::Decisive(Player::O);
                return;
            }
            assert(line_owner(c, k as int) == None::<Player>);
            if stats.gaps == 1 {
                if let Some(t) = stats.last_gap {
                    proof {
                        lemma_gap_in_range(c, k as int, n as int);
                    }
                    if stats.xs == n - 1 {
                        xwin = Some(line_move(n, k, t));
                    } else if stats.os == n - 1 {
                        owin = Some(line_move(n, k, t));
                    }
                }
            }
            k = k + 1;
        }
        let own = if self.turn == Player::X { xwin } else { owin };
        let opp = if self.turn == Player::X { owin } else { xwin };
        self.undoubted = match own {
            Some(mv) => Some((self.turn, mv)),
            None => match opp {
                Some(mv) => Some((self.turn.opposite(), mv)),
                None => None,
            },
        };
        self.state = if self.empty.len() == 0 {
            GameState::Tied
        } else {
            GameState::Ongoing
        };
    }
}

impl Game {
    /// Creates a new game with an `n` by `n` grid: X to move, every cell empty.
    pub fn new(n: usize) -> (r: Game)
        requires
            n >= 3,
            n * n <= usize::MAX,
        ensures
            r.wf(),
            r@ == position(empty_grid(n as int), Player::X),
            r@.state == GameState::Ongoing,
            r@.turn == Player::X,
            r@.empty.len() == n * n,
            r@.empty.no_duplicates(),
            forall|i: int, j: int| 0 <= i < n && 0 <= j < n ==> #[trigger] r@.empty.contains((i, j)),
            r@.obvious is None,
    {
        proof {
            lemma_empty_grid(n as int);
            lemma_empties_distinct(empty_grid(n as int));
            assert forall|i: int, j: int| 0 <= i < n && 0 <= j < n implies #[trigger] empties(
                empty_grid(n as int),
            ).contains((i, j)) by {
                lemma_empty_listed(empty_grid(n as int), (i, j));
            }
        }
        let mut game = Game {
            grid: Grid::new(n),
            empty: Vec::new(),
            undoubted: None,
            state: GameState::Ongoing,
            turn: Player::X,
        };
        game.update_state();
        game
    }

    /// Returns a reference to the game grid.
    pub fn grid(&self) -> (r: &Grid)
        ensures
            r@ == self@.cells,
    {
        &self.grid
    }

    /// Returns the player whose turn it is to move.
    pub fn turn(&self) -> (r: Player)
        ensures
            r == self@.turn,
    {
        self.turn
    }

    /// Returns the game state.
    pub fn state(&self) -> (r: GameState)
        ensures
            r == self@.state,
    {
        self.state
    }

    /// Returns the cells in which a move may be played, in row-major order.
    pub fn empty(&self) -> (r: &Vec<Move>)
        ensures
            moves_view(r@) == self@.empty,
    {
        &self.empty
    }

    /// Returns the obvious move in the position, if there is one: a chance to
    /// win at once, or else the cell that stops the opponent's immediate win.
    /// It comes with the player who wins, or would win, there.
    pub fn undoubted(&self) -> (r: Option<(Player, Move)>)
        ensures
            obvious_view(r) == self@.obvious,
    {
        self.undoubted
    }

    /// Plays the mark of the player to move at `mv`. Fails, changing nothing,
    /// when the game is over, when `mv` is off the grid, or when the cell is
    /// taken, checked in that order.
    pub fn play(&mut self, mv: Move) -> (r: Result<(), MoveError>)
        requires
            old(self).wf(),
        ensures
            final(self).wf(),
            r == old(self)@.check(mv),
            r is Ok ==> final(self)@ == old(self)@.after(mv),
            r is Ok ==> final(self)@.turn == old(self)@.turn.opponent(),
            r is Err ==> *final(self) == *old(self),
    {
        let (row, col) = mv;
        let n = self.grid.n();
        if self.state != GameState::Ongoing {
            return Err(MoveError::GameOver);
        }
        if row >= n || col >= n {
            return Err(MoveError::OutOfBounds);
        }
        assert(self@.cells[row as int].len() == n);
        if self.grid.get(row, col) != Cell::Empty {
            return Err(MoveError::CellOccupied);
        }
        let ghost c = self.grid@;
        self.grid.set(row, col, Cell::from(self.turn));
        self.turn = self.turn.opposite();
        assert forall|i: int| 0 <= i < self.grid@.len() implies #[trigger] self.grid@[i].len()
            == self.grid@.len() by {
            assert(c[i].len() == c.len());
        }
        self.update_state();
        Ok(())
    }
}

impl Clone for Game {
    fn clone(&self) -> (r: Game)
        ensures
            r@ == self@,
    {
        Game {
            grid: self.grid.clone(),
            empty: copy_moves(&self.empty),
            undoubted: self.undoubted,
            state: self.state,
            turn: self.turn,
        }
    }
}

} // verus!
