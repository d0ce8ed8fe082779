use vstd::prelude::*;

verus! {

/// What a board cell holds.
#[derive(Clone, Copy, PartialEq, Eq, Structural, Debug)]
pub enum Cell {
    Empty,
    Tree,
    Tent,
}

/// A board as rows of cells, indexed `b[y][x]`.
pub type Board = Seq<Seq<Cell>>;

/// The board is `n` by `n`.
pub open spec fn is_square(b: Board, n: int) -> bool {
    b.len() == n && forall|y: int| 0 <= y < n ==> #[trigger] b[y].len() == n
}

pub open spec fn in_bounds(n: int, x: int, y: int) -> bool {
    0 <= x < n && 0 <= y < n
}

/// `(px, py)` is one of the four orthogonal neighbours of `(x, y)`.
pub open spec fn orthogonal(x: int, y: int, px: int, py: int) -> bool {
    (px == x && (py == y + 1 || py == y - 1)) || (py == y && (px == x + 1 || px == x - 1))
}

/// `(px, py)` is one of the eight cells around `(x, y)`.
pub open spec fn surrounding(x: int, y: int, px: int, py: int) -> bool {
    -1 <= px - x <= 1 && -1 <= py - y <= 1 && !(px == x && py == y)
}

/// Some orthogonal neighbour of `(x, y)` on the board holds `c`.
pub open spec fn has_orthogonal(b: Board, x: int, y: int, c: Cell) -> bool {
    exists|px: int, py: int|
        in_bounds(b.len() as int, px, py) && orthogonal(x, y, px, py) && #[trigger] b[py][px] == c
}

/// Some of the eight cells around `(x, y)` on the board holds `c`.
pub open spec fn has_surrounding(b: Board, x: int, y: int, c: Cell) -> bool {
    exists|px: int, py: int|
        in_bounds(b.len() as int, px, py) && surrounding(x, y, px, py) && #[trigger] b[py][px] == c
}

/// Number of tents in row `y` among the first `k` columns.
pub open spec fn row_tents(b: Board, y: int, k: int) -> nat
    decreases k,
{
    if k <= 0 {
        0
    } else {
        row_tents(b, y, k - 1) + if b[y][k - 1] == Cell::Tent { 1nat } else { 0nat }
    }
}

/// Number of tents in column `x` among the first `k` rows.
pub open spec fn col_tents(b: Board, x: int, k: int) -> nat
    decreases k,
{
    if k <= 0 {
        0
    } else {
        col_tents(b, x, k - 1) + if b[k - 1][x] == Cell::Tent { 1nat } else { 0nat }
    }
}

/// Every row and column holds as many tents as its clue asks.
pub open spec fn clues_met(b: Board, rows: Seq<usize>, cols: Seq<usize>) -> bool {
    forall|i: int|
        0 <= i < b.len() ==> #[trigger] rows[i] == row_tents(b, i, b.len() as int) && cols[i] == col_tents(
            b,
            i,
            b.len() as int,
        )
}

/// Every tent has a tree among its orthogonal neighbours.
pub open spec fn tents_supported(b: Board) -> bool {
    forall|x: int, y: int|
        in_bounds(b.len() as int, x, y) && #[trigger] b[y][x] == Cell::Tent ==> has_orthogonal(b, x, y, Cell::Tree)
}

/// No tent has another tent among the eight cells around it.
pub open spec fn tents_isolated(b: Board) -> bool {
    forall|x: int, y: int|
        in_bounds(b.len() as int, x, y) && #[trigger] b[y][x] == Cell::Tent ==> !has_surrounding(b, x, y, Cell::Tent)
}

/// The board, with its clues, is a solved puzzle.
pub open spec fn solved(b: Board, rows: Seq<usize>, cols: Seq<usize>) -> bool {
    clues_met(b, rows, cols) && tents_supported(b) && tents_isolated(b)
}

/// The board after a player's toggle at `(x, y)`: Empty and Tent swap, a
/// tree or a point off the board leaves it as it is.
pub open spec fn toggled(b: Board, x: int, y: int) -> Board {
    if !in_bounds(b.len() as int, x, y) || y >= b.len() || x >= b[y].len() {
        b
    } else if b[y][x] == Cell::Empty {
        b.update(y, b[y].update(x, Cell::Tent))
    } else if b[y][x] == Cell::Tent {
        b.update(y, b[y].update(x, Cell::Empty))
    } else {
        b
    }
}

/// The rows of a grid of cells, as a board.
pub open spec fn board_of(g: Vec<Vec<Cell>>) -> Board {
    g@.map_values(|row: Vec<Cell>| row@)
}

/// A puzzle session: the board and the tent clue of every row and column.
pub struct GameState {
    grid: Vec<Vec<Cell>>,
    size: usize,
    row_constraints: Vec<usize>,
    col_constraints: Vec<usize>,
}

impl GameState {
    pub closed spec fn board(&self) -> Board {
        board_of(self.grid)
    }

    pub closed spec fn n(&self) -> int {
        self.size as int
    }

    pub closed spec fn rows(&self) -> Seq<usize> {
        self.row_constraints@
    }

    pub closed spec fn cols(&self) -> Seq<usize> {
        self.col_constraints@
    }

    /// The session's shape: a non-empty square board and one clue in
    /// `[0, n]` for each of its rows and columns.
    pub open spec fn wf(&self) -> bool {
        &&& self.n() > 0
        &&& is_square(self.board(), self.n())
        &&& self.rows().len() == self.n()
        &&& self.cols().len() == self.n()
        &&& forall|i: int| 0 <= i < self.n() ==> #[trigger] self.rows()[i] <= self.n()
        &&& forall|i: int| 0 <= i < self.n() ==> #[trigger] self.cols()[i] <= self.n()
    }
}


/// Whether `(x, y)` is on the board and holds `c`.
pub(crate) fn cell_is(grid: &Vec<Vec<Cell>>, x: usize, y: usize, c: Cell) -> (r: bool)
    requires
        is_square(board_of(*grid), grid@.len() as int),
    ensures
        r == (in_bounds(grid@.len() as int, x as int, y as int) && board_of(*grid)[y as int][x as int] == c),
{
    y < grid.len() && x < grid.len() && grid[y][x] == c
}

/// Whether some orthogonal neighbour of `(x, y)` holds `c`.
fn has_orthogonal_cell(grid: &Vec<Vec<Cell>>, x: usize, y: usize, c: Cell) -> (r: bool)
    requires
        is_square(board_of(*grid), grid@.len() as int),
        x < grid@.len(),
        y < grid@.len(),
    ensures
        r == has_orthogonal(board_of(*grid), x as int, y as int, c),
{
    let ghost b = board_of(*grid);
    let n = grid.len();
    if y + 1 < n && cell_is(grid, x, y + 1, c) {
        assert(in_bounds(n as int, x as int, y + 1) && orthogonal(x as int, y as int, x as int, y + 1) && b[y + 1][x as int] == c);
        true
    } else if x + 1 < n && cell_is(grid, x + 1, y, c) {
        assert(in_bounds(n as int, x + 1, y as int) && orthogonal(x as int, y as int, x + 1, y as int) && b[y as int][x + 1] == c);
        true
    } else if y > 0 && cell_is(grid, x, y - 1, c) {
        assert(in_bounds(n as int, x as int, y - 1) && orthogonal(x as int, y as int, x as int, y - 1) && b[y - 1][x as int] == c);
        true
    } else if x > 0 && cell_is(grid, x - 1, y, c) {
        assert(in_bounds(n as int, x - 1, y as int) && orthogonal(x as int, y as int, x - 1, y as int) && b[y as int][x - 1] == c);
        true
    } else {
        false
    }
}

/// Whether some orthogonal neighbour of `(x, y)` is a tree.
pub fn has_adjacent_tree(grid: &Vec<Vec<Cell>>, x: usize, y: usize) -> (r: bool)
    requires
        is_square(board_of(*grid), grid@.len() as int),
        x < grid@.len(),
        y < grid@.len(),
    ensures
        r == has_orthogonal(board_of(*grid), x as int, y as int, Cell::Tree),
{
    has_orthogonal_cell(grid, x, y, Cell::Tree)
}

/// Whether some orthogonal neighbour of `(x, y)` is empty.
pub fn has_adjacent_empty(grid: &Vec<Vec<Cell>>, x: usize, y: usize) -> (r: bool)
    requires
        is_square(board_of(*grid), grid@.len() as int),
        x < grid@.len(),
        y < grid@.len(),
    ensures
        r == has_orthogonal(board_of(*grid), x as int, y as int, Cell::Empty),
{
    has_orthogonal_cell(grid, x, y, Cell::Empty)
}

/// Whether one of the eight cells around `(x, y)` is a tent.
pub fn has_adjacent_tent(grid: &Vec<Vec<Cell>>, x: usize, y: usize) -> (r: bool)
    requires
        is_square(board_of(*grid), grid@.len() as int),
        x < grid@.len(),
        y < grid@.len(),
    ensures
        r == has_surrounding(board_of(*grid), x as int, y as int, Cell::Tent),
{
    let ghost b = board_of(*grid);
    let n = grid.len();
    let y_lo = if y > 0 { y - 1 } else { 0 };
    let y_hi = if y + 1 < n { y + 1 } else { y };
    let x_lo = if x > 0 { x - 1 } else { 0 };
    let x_hi = if x + 1 < n { x + 1 } else { x };
    let mut py = y_lo;
    while py <= y_hi
        invariant
            b == board_of(*grid),
            is_square(b, n as int),
            n == grid@.len(),
            x < n,
            y < n,
            y_lo == (if y > 0 { y - 1 } else { 0 }),
            y_hi == (if y + 1 < n { y + 1 } else { y as int }),
            x_lo == (if x > 0 { x - 1 } else { 0 }),
            x_hi == (if x + 1 < n { x + 1 } else { x as int }),
            y_lo <= py <= y_hi + 1,
            forall|qx: int, qy: int|
                in_bounds(n as int, qx, qy) && surrounding(x as int, y as int, qx, qy) && qy < py ==> #[trigger] b[qy][qx]
                    != Cell::Tent,
        decreases y_hi + 1 - py,
    {
        let mut px = x_lo;
        while px <= x_hi
            invariant
                b == board_of(*grid),
                is_square(b, n as int),
                n == grid@.len(),
                x < n,
                y < n,
                y_lo == (if y > 0 { y - 1 } else { 0 }),
                y_hi == (if y + 1 < n { y + 1 } else { y as int }),
                x_lo == (if x > 0 { x - 1 } else { 0 }),
                x_hi == (if x + 1 < n { x + 1 } else { x as int }),
                y_lo <= py <= y_hi,
                x_lo <= px <= x_hi + 1,
                forall|qx: int, qy: int|
                    in_bounds(n as int, qx, qy) && surrounding(x as int, y as int, qx, qy) && (qy < py || (qy == py
                        && qx < px)) ==> #[trigger] b[qy][qx] != Cell::Tent,
            decreases x_hi + 1 - px,
        {
            if !(px == x && py == y) && grid[py][px] == Cell::Tent {
                assert(in_bounds(n as int, px as int, py as int) && surrounding(x as int, y as int, px as int, py as int)
                    && b[py as int][px as int] == Cell::Tent);
                return true;
            }
            px += 1;
        }
        py += 1;
    }
    false
}

/// Number of tents in row `y`.
pub(crate) fn count_row_tents(grid: &Vec<Vec<Cell>>, y: usize) -> (r: usize)
    requires
        is_square(board_of(*grid), grid@.len() as int),
        y < grid@.len(),
    ensures
        r == row_tents(board_of(*grid), y as int, grid@.len() as int),
        r <= grid@.len(),
{
    let ghost b = board_of(*grid);
    let n = grid.len();
    let mut cnt: usize = 0;
    let mut k: usize = 0;
    while k < n
        invariant
            b == board_of(*grid),
            is_square(b, n as int),
            n == grid@.len(),
            y < n,
            k <= n,
            cnt == row_tents(b, y as int, k as int),
            cnt <= k,
        decreases n - k,
    {
        if grid[y][k] == Cell::Tent {
            cnt += 1;
        }
        k += 1;
    }
    cnt
}

/// Number of tents in column `x`.
pub(crate) fn count_col_tents(grid: &Vec<Vec<Cell>>, x: usize) -> (r: usize)
    requires
        is_square(board_of(*grid), grid@.len() as int),
        x < grid@.len(),
    ensures
        r == col_tents(board_of(*grid), x as int, grid@.len() as int),
        r <= grid@.len(),
{
    let ghost b = board_of(*grid);
    let n = grid.len();
    let mut cnt: usize = 0;
    let mut k: usize = 0;
    while k < n
        invariant
            b == board_of(*grid),
            is_square(b, n as int),
            n == grid@.len(),
            x < n,
            k <= n,
            cnt == col_tents(b, x as int, k as int),
            cnt <= k,
        decreases n - k,
    {
        assert(b[k as int].len() == n);
        if grid[k][x] == Cell::Tent {
            cnt += 1;
        }
        k += 1;
    }
    cnt
}


/// Whether every row of `grid` has `n` cells.
fn rows_have_len(grid: &Vec<Vec<Cell>>, n: usize) -> (r: bool)
    ensures
        r == (forall|y: int| 0 <= y < grid@.len() ==> #[trigger] board_of(*grid)[y].len() == n),
{
    let mut y: usize = 0;
    while y < grid.len()
        invariant
            y <= grid@.len(),
            forall|q: int| 0 <= q < y ==> #[trigger] board_of(*grid)[q].len() == n,
        decreases grid@.len() - y,
    {
        if grid[y].len() != n {
            assert(board_of(*grid)[y as int].len() != n);
            return false;
        }
        y += 1;
    }
    true
}

/// Whether every value of `v` is at most `n`.
fn all_at_most(v: &Vec<usize>, n: usize) -> (r: bool)
    ensures
        r == (forall|i: int| 0 <= i < v@.len() ==> #[trigger] v@[i] <= n),
{
    let mut i: usize = 0;
    while i < v.len()
        invariant
            i <= v@.len(),
            forall|q: int| 0 <= q < i ==> #[trigger] v@[q] <= n,
        decreases v@.len() - i,
    {
        if v[i] > n {
            return false;
        }
        i += 1;
    }
    true
}

impl GameState {
    /// A session from a board and its clues; `None` unless the board is a
    /// non-empty square and there is one clue in `[0, n]` for each of its
    /// rows and columns.
    pub fn from_parts(grid: Vec<Vec<Cell>>, row_constraints: Vec<usize>, col_constraints: Vec<usize>) -> (r: Option<
        GameState,
    >)
        ensures
            r.is_some() <==> (grid@.len() > 0 && is_square(board_of(grid), grid@.len() as int) && row_constraints@.len()
                == grid@.len() && col_constraints@.len() == grid@.len() && (forall|i: int|
                0 <= i < grid@.len() ==> #[trigger] row_constraints@[i] <= grid@.len()) && (forall|i: int|
                0 <= i < grid@.len() ==> #[trigger] col_constraints@[i] <= grid@.len())),
            r.is_some() ==> ({
                let s = r.unwrap();
                &&& s.wf()
                &&& s.board() == board_of(grid)
                &&& s.rows() == row_constraints@
                &&& s.cols() == col_constraints@
            }),
    {
        let n = grid.len();
        if n == 0 || row_constraints.len() != n || col_constraints.len() != n {
            return None;
        }
        if !rows_have_len(&grid, n) || !all_at_most(&row_constraints, n) || !all_at_most(&col_constraints, n) {
            return None;
        }
        Some(GameState { grid, size: n, row_constraints, col_constraints })
    }

    /// The board's side length.
    pub fn size(&self) -> (r: usize)
        ensures
            r == self.n(),
    {
        self.size
    }

    /// The board, as rows of cells.
    pub fn grid(&self) -> (r: &Vec<Vec<Cell>>)
        ensures
            board_of(*r) == self.board(),
    {
        &self.grid
    }

    /// The tent clue of each row.
    pub fn row_constraints(&self) -> (r: &Vec<usize>)
        ensures
            r@ == self.rows(),
    {
        &self.row_constraints
    }

    /// The tent clue of each column.
    pub fn col_constraints(&self) -> (r: &Vec<usize>)
        ensures
            r@ == self.cols(),
    {
        &self.col_constraints
    }

    /// The cell in column `x` of row `y`.
    pub fn cell(&self, x: usize, y: usize) -> (r: Cell)
        requires
            self.wf(),
            x < self.n(),
            y < self.n(),
        ensures
            r == self.board()[y as int][x as int],
    {
        self.grid[y][x]
    }

    /// The player's move at `(x, y)`: an empty cell gets a tent, a tent is
    /// taken away; a tree, or a point off the board, is left alone.
    pub fn toggle(&mut self, x: usize, y: usize)
        requires
            old(self).wf(),
        ensures
            final(self).wf(),
            final(self).n() == old(self).n(),
            final(self).rows() == old(self).rows(),
            final(self).cols() == old(self).cols(),
            final(self).board() == toggled(old(self).board(), x as int, y as int),
    {
        let ghost b = self.board();
        if x < self.size && y < self.size {
            assert(b[y as int].len() == self.n());
            let c = self.grid[y][x];
            let next = match c {
                Cell::Empty => Cell::Tent,
                Cell::Tent => Cell::Empty,
                Cell::Tree => Cell::Tree,
            };
            let mut row = self.grid[y].clone();
            row.set(x, next);
            self.grid.set(y, row);
            assert(self.board() =~= toggled(b, x as int, y as int)) by {
                if c == Cell::Tree {
                    assert(b[y as int].update(x as int, Cell::Tree) =~= b[y as int]);
                }
            }
        }
    }
}

/// Whether the session is solved: every clue is met, every tent touches a
/// tree orthogonally, and no two tents touch, diagonals included.
pub fn is_grid_valid(game_state: &GameState) -> (r: bool)
    requires
        game_state.wf(),
    ensures
        r == solved(game_state.board(), game_state.rows(), game_state.cols()),
{
    let grid = &game_state.grid;
    let ghost b = game_state.board();
    let size = game_state.size;
    let mut i: usize = 0;
    while i < size
        invariant
            game_state.wf(),
            grid == &game_state.grid,
            b == board_of(*grid),
            size == game_state.n(),
            grid@.len() == size,
            i <= size,
            forall|q: int|
                0 <= q < i ==> #[trigger] game_state.row_constraints@[q] == row_tents(b, q, size as int)
                    && game_state.col_constraints@[q] == col_tents(b, q, size as int),
        decreases size - i,
    {
        let row_tent_count = count_row_tents(grid, i);
        let col_tent_count = count_col_tents(grid, i);
        if row_tent_count != game_state.row_constraints[i] || col_tent_count != game_state.col_constraints[i] {
            return false;
        }
        assert forall|q: int| 0 <= q < i + 1 implies #[trigger] game_state.row_constraints@[q] == row_tents(b, q, size as int)
            && game_state.col_constraints@[q] == col_tents(b, q, size as int) by {
            if q == i as int {
                assert(game_state.col_constraints@[q] == col_tent_count);
            }
        }
        i += 1;
    }
    let mut y: usize = 0;
    while y < size
        invariant
            game_state.wf(),
            grid == &game_state.grid,
            b == board_of(*grid),
            size == game_state.n(),
            y <= size,
            clues_met(b, game_state.rows(), game_state.cols()),
            forall|qx: int, qy: int|
                in_bounds(size as int, qx, qy) && qy < y && #[trigger] b[qy][qx] == Cell::Tent ==> has_orthogonal(
                    b,
                    qx,
                    qy,
                    Cell::Tree,
                ) && !has_surrounding(b, qx, qy, Cell::Tent),
        decreases size - y,
    {
        let mut x: usize = 0;
        while x < size
            invariant
                game_state.wf(),
                grid == &game_state.grid,
                b == board_of(*grid),
                size == game_state.n(),
                y < size,
                x <= size,
                clues_met(b, game_state.rows(), game_state.cols()),
                forall|qx: int, qy: int|
                    in_bounds(size as int, qx, qy) && (qy < y || (qy == y && qx < x)) && #[trigger] b[qy][qx]
                        == Cell::Tent ==> has_orthogonal(b, qx, qy, Cell::Tree) && !has_surrounding(
                        b,
                        qx,
                        qy,
                        Cell::Tent,
                    ),
            decreases size - x,
        {
            assert(b[y as int].len() == size);
            if grid[y][x] == Cell::Tent {
                if !has_adjacent_tree(grid, x, y) || has_adjacent_tent(grid, x, y) {
                    return false;
                }
            }
            x += 1;
        }
        y += 1;
    }
    true
}


/// The board after `k` toggles at `(x, y)`.
pub open spec fn toggled_times(b: Board, x: int, y: int, k: nat) -> Board
    decreases k,
{
    if k == 0 {
        b
    } else {
        toggled(toggled_times(b, x, y, (k - 1) as nat), x, y)
    }
}

/// Toggling a cell twice gives back the board it started from.
pub proof fn lemma_toggle_twice(b: Board, x: int, y: int)
    ensures
        toggled(toggled(b, x, y), x, y) == b,
{
    let t = toggled(b, x, y);
    if in_bounds(b.len() as int, x, y) && y < b.len() && x < b[y].len() {
        if b[y][x] == Cell::Empty || b[y][x] == Cell::Tent {
            assert(t[y] == b[y].update(x, t[y][x]));
            assert(toggled(t, x, y) =~= b) by {
                assert(toggled(t, x, y)[y] =~= b[y]);
            }
        }
    }
}

/// Any number of toggles on a tree leaves the board as it is.
pub proof fn lemma_toggle_tree(b: Board, x: int, y: int, k: nat)
    requires
        0 <= y < b.len(),
        0 <= x < b[y].len(),
        b[y][x] == Cell::Tree,
    ensures
        toggled_times(b, x, y, k) == b,
    decreases k,
{
    if k > 0 {
        lemma_toggle_tree(b, x, y, (k - 1) as nat);
    }
}

/// Two tents that touch, orthogonally or diagonally, make the board unsolved.
pub proof fn lemma_touching_tents_unsolved(b: Board, rows: Seq<usize>, cols: Seq<usize>, x: int, y: int, px: int, py: int)
    requires
        in_bounds(b.len() as int, x, y),
        in_bounds(b.len() as int, px, py),
        surrounding(x, y, px, py),
        b[y][x] == Cell::Tent,
        b[py][px] == Cell::Tent,
    ensures
        !solved(b, rows, cols),
{
    assert(has_surrounding(b, x, y, Cell::Tent));
}

/// A tent with no tree beside it makes the board unsolved.
pub proof fn lemma_lonely_tent_unsolved(b: Board, rows: Seq<usize>, cols: Seq<usize>, x: int, y: int)
    requires
        in_bounds(b.len() as int, x, y),
        b[y][x] == Cell::Tent,
        !has_orthogonal(b, x, y, Cell::Tree),
    ensures
        !solved(b, rows, cols),
{
}

} // verus!
