use crate::board::{
    board_of, cell_is, clues_met, col_tents, count_col_tents, count_row_tents, has_adjacent_empty, has_orthogonal,
    in_bounds, is_square, orthogonal, row_tents, solved, tents_isolated, tents_supported, Board, Cell, GameState,
};
use crate::counts::{
    board_count, lemma_board_count_absent, lemma_board_count_same, lemma_board_count_total, lemma_board_count_update,
    row_count, tent_count, tree_count,
};
use crate::grid::Point;
use rand::seq::SliceRandom;
use rand::Rng;
use rand::SeedableRng;
use vstd::prelude::*;

verus! {

#[verifier::external_type_specification]
#[verifier::external_body]
pub struct ExStdRng(rand::rngs::StdRng);

/// Relies on rand's `SeedableRng::seed_from_u64` for `StdRng`: a generator
/// whose draws depend on the seed alone.
#[verifier::external_body]
fn seeded_rng(seed: u64) -> (r: rand::rngs::StdRng) {
    rand::rngs::StdRng::seed_from_u64(seed)
}

/// Relies on rand's `Rng::gen_range` on a half-open range: a value in
/// `[lo, hi)`; it panics on an empty range, which `requires` rules out.
#[verifier::external_body]
fn random_in(rng: &mut rand::rngs::StdRng, lo: usize, hi: usize) -> (r: usize)
    requires
        lo < hi,
    ensures
        lo <= r < hi,
{
    rng.gen_range(lo..hi)
}

/// Relies on rand's `SliceRandom::choose`: `None` for an empty slice, else
/// one of its elements.
#[verifier::external_body]
fn choose_point(v: &Vec<Point>, rng: &mut rand::rngs::StdRng) -> (r: Option<Point>)
    ensures
        r.is_none() <==> v@.len() == 0,
        r.is_some() ==> v@.contains(r.unwrap()),
{
    v.choose(rng).copied()
}

/// The board with `(x, y)` set to `c`.
pub open spec fn set_at(b: Board, x: int, y: int, c: Cell) -> Board {
    b.update(y, b[y].update(x, c))
}

/// No cell of the board is a tent.
pub open spec fn no_tents(b: Board) -> bool {
    forall|x: int, y: int| in_bounds(b.len() as int, x, y) ==> #[trigger] b[y][x] != Cell::Tent
}

/// Every tree has an empty cell among its orthogonal neighbours.
pub open spec fn trees_have_room(b: Board) -> bool {
    forall|x: int, y: int|
        in_bounds(b.len() as int, x, y) && #[trigger] b[y][x] == Cell::Tree ==> has_orthogonal(b, x, y, Cell::Empty)
}

/// The board with every tent taken away.
pub open spec fn erase_tents(b: Board) -> Board {
    b.map_values(|row: Seq<Cell>| row.map_values(|c: Cell| if c == Cell::Tent { Cell::Empty } else { c }))
}

/// `p` is an orthogonal neighbour of `(x, y)` on an `n` by `n` board.
pub open spec fn orthogonal_point(n: int, x: int, y: int, p: Point) -> bool {
    in_bounds(n, p.0 as int, p.1 as int) && orthogonal(x, y, p.0 as int, p.1 as int)
}

/// An `n` by `n` grid of empty cells.
fn empty_grid(n: usize) -> (r: Vec<Vec<Cell>>)
    ensures
        is_square(board_of(r), n as int),
        forall|x: int, y: int| in_bounds(n as int, x, y) ==> #[trigger] board_of(r)[y][x] == Cell::Empty,
{
    let mut grid: Vec<Vec<Cell>> = Vec::new();
    let mut y: usize = 0;
    while y < n
        invariant
            y <= n,
            grid@.len() == y,
            forall|q: int| 0 <= q < y ==> #[trigger] grid@[q]@.len() == n,
            forall|qx: int, qy: int| 0 <= qy < y && 0 <= qx < n ==> #[trigger] grid@[qy]@[qx] == Cell::Empty,
        decreases n - y,
    {
        let mut row: Vec<Cell> = Vec::new();
        let mut x: usize = 0;
        while x < n
            invariant
                x <= n,
                row@.len() == x,
                forall|qx: int| 0 <= qx < x ==> #[trigger] row@[qx] == Cell::Empty,
            decreases n - x,
        {
            row.push(Cell::Empty);
            x += 1;
        }
        grid.push(row);
        y += 1;
    }
    grid
}

/// Sets the cell at `(x, y)` to `c`.
fn set_cell(grid: &mut Vec<Vec<Cell>>, x: usize, y: usize, c: Cell)
    requires
        is_square(board_of(*old(grid)), old(grid)@.len() as int),
        x < old(grid)@.len(),
        y < old(grid)@.len(),
    ensures
        final(grid)@.len() == old(grid)@.len(),
        board_of(*final(grid)) == set_at(board_of(*old(grid)), x as int, y as int, c),
        is_square(board_of(*final(grid)), final(grid)@.len() as int),
{
    let ghost b = board_of(*grid);
    assert(b[y as int].len() == grid@.len());
    let mut row = grid[y].clone();
    row.set(x, c);
    grid.set(y, row);
    assert(board_of(*grid) =~= set_at(b, x as int, y as int, c));
}

/// The orthogonal neighbours of `(x, y)` on an `n` by `n` board.
fn orthogonal_points(n: usize, x: usize, y: usize) -> (r: Vec<Point>)
    requires
        x < n,
        y < n,
    ensures
        forall|i: int| 0 <= i < r@.len() ==> orthogonal_point(n as int, x as int, y as int, #[trigger] r@[i]),
        n >= 2 ==> r@.len() > 0,
{
    let mut r: Vec<Point> = Vec::new();
    if y + 1 < n {
        r.push((x, y + 1));
    }
    if x + 1 < n {
        r.push((x + 1, y));
    }
    if y > 0 {
        r.push((x, y - 1));
    }
    if x > 0 {
        r.push((x - 1, y));
    }
    r
}

/// The empty orthogonal neighbours of `(x, y)`.
fn empty_orthogonal_points(grid: &Vec<Vec<Cell>>, x: usize, y: usize) -> (r: Vec<Point>)
    requires
        is_square(board_of(*grid), grid@.len() as int),
        x < grid@.len(),
        y < grid@.len(),
    ensures
        forall|i: int|
            0 <= i < r@.len() ==> orthogonal_point(grid@.len() as int, x as int, y as int, #[trigger] r@[i])
                && board_of(*grid)[r@[i].1 as int][r@[i].0 as int] == Cell::Empty,
        r@.len() == 0 <==> !has_orthogonal(board_of(*grid), x as int, y as int, Cell::Empty),
{
    let ghost b = board_of(*grid);
    let n = grid.len();
    let mut r: Vec<Point> = Vec::new();
    if y + 1 < n && cell_is(grid, x, y + 1, Cell::Empty) {
        r.push((x, y + 1));
    }
    if x + 1 < n && cell_is(grid, x + 1, y, Cell::Empty) {
        r.push((x + 1, y));
    }
    if y > 0 && cell_is(grid, x, y - 1, Cell::Empty) {
        r.push((x, y - 1));
    }
    if x > 0 && cell_is(grid, x - 1, y, Cell::Empty) {
        r.push((x - 1, y));
    }
    proof {
        if r@.len() > 0 {
            let p = r@[0];
            assert(in_bounds(n as int, p.0 as int, p.1 as int) && orthogonal(x as int, y as int, p.0 as int, p.1 as int)
                && b[p.1 as int][p.0 as int] == Cell::Empty);
        }
    }
    r
}


/// Makes one orthogonal neighbour of `(x, y)`, picked at random, empty.
fn create_adjacent_empty(grid: &mut Vec<Vec<Cell>>, x: usize, y: usize, rng: &mut rand::rngs::StdRng)
    requires
        is_square(board_of(*old(grid)), old(grid)@.len() as int),
        x < old(grid)@.len(),
        y < old(grid)@.len(),
    ensures
        final(grid)@.len() == old(grid)@.len(),
        is_square(board_of(*final(grid)), final(grid)@.len() as int),
        old(grid)@.len() >= 2 ==> exists|p: Point|
            orthogonal_point(old(grid)@.len() as int, x as int, y as int, p) && board_of(*final(grid)) == set_at(
                board_of(*old(grid)),
                p.0 as int,
                p.1 as int,
                Cell::Empty,
            ),
        old(grid)@.len() < 2 ==> board_of(*final(grid)) == board_of(*old(grid)),
{
    let n = grid.len();
    let candidates = orthogonal_points(n, x, y);
    match choose_point(&candidates, rng) {
        Some(p) => {
            let ghost k = candidates@.index_of(p);
            assert(orthogonal_point(n as int, x as int, y as int, candidates@[k]));
            set_cell(grid, p.0, p.1, Cell::Empty);
        },
        None => {},
    }
}

/// Puts a tent on one empty orthogonal neighbour of `(x, y)`, picked at
/// random; with no such neighbour the grid is left as it is.
fn place_adjacent_tent(grid: &mut Vec<Vec<Cell>>, x: usize, y: usize, rng: &mut rand::rngs::StdRng)
    requires
        is_square(board_of(*old(grid)), old(grid)@.len() as int),
        x < old(grid)@.len(),
        y < old(grid)@.len(),
    ensures
        final(grid)@.len() == old(grid)@.len(),
        is_square(board_of(*final(grid)), final(grid)@.len() as int),
        has_orthogonal(board_of(*old(grid)), x as int, y as int, Cell::Empty) ==> exists|p: Point|
            orthogonal_point(old(grid)@.len() as int, x as int, y as int, p) && board_of(*old(grid))[p.1 as int][p.0 as int]
                == Cell::Empty && board_of(*final(grid)) == set_at(board_of(*old(grid)), p.0 as int, p.1 as int, Cell::Tent),
        !has_orthogonal(board_of(*old(grid)), x as int, y as int, Cell::Empty) ==> board_of(*final(grid)) == board_of(
            *old(grid),
        ),
{
    let candidates = empty_orthogonal_points(grid, x, y);
    match choose_point(&candidates, rng) {
        Some(p) => {
            let ghost k = candidates@.index_of(p);
            assert(orthogonal_point(grid@.len() as int, x as int, y as int, candidates@[k]));
            set_cell(grid, p.0, p.1, Cell::Tent);
        },
        None => {},
    }
}


/// Random cells tried for each tree before the board is swept for an empty one.
const PLACEMENT_TRIES: usize = 64;

/// Turns the first empty cell in row-major order into a tree.
fn plant_in_first_empty(grid: &mut Vec<Vec<Cell>>)
    requires
        is_square(board_of(*old(grid)), old(grid)@.len() as int),
        no_tents(board_of(*old(grid))),
        board_count(board_of(*old(grid)), old(grid)@.len() as int, Cell::Empty) > 0,
    ensures
        final(grid)@.len() == old(grid)@.len(),
        is_square(board_of(*final(grid)), final(grid)@.len() as int),
        no_tents(board_of(*final(grid))),
        tree_count(board_of(*final(grid))) == tree_count(board_of(*old(grid))) + 1,
{
    let ghost start = board_of(*grid);
    let n = grid.len();
    let mut y: usize = 0;
    while y < n
        invariant
            n == grid@.len(),
            n == old(grid)@.len(),
            start == board_of(*old(grid)),
            board_of(*grid) == start,
            is_square(start, n as int),
            no_tents(start),
            board_count(start, n as int, Cell::Empty) > 0,
            y <= n,
            forall|qx: int, qy: int| in_bounds(n as int, qx, qy) && qy < y ==> #[trigger] start[qy][qx] != Cell::Empty,
        decreases n - y,
    {
        let mut x: usize = 0;
        while x < n
            invariant
                n == grid@.len(),
                n == old(grid)@.len(),
                start == board_of(*old(grid)),
                board_of(*grid) == start,
                is_square(start, n as int),
                no_tents(start),
                y < n,
                x <= n,
                forall|qx: int, qy: int|
                    in_bounds(n as int, qx, qy) && (qy < y || (qy == y && qx < x)) ==> #[trigger] start[qy][qx]
                        != Cell::Empty,
            decreases n - x,
        {
            if cell_is(grid, x, y, Cell::Empty) {
                set_cell(grid, x, y, Cell::Tree);
                proof {
                    lemma_board_count_update(start, n as int, x as int, y as int, Cell::Tree, Cell::Tree);
                }
                return;
            }
            x += 1;
        }
        y += 1;
    }
    proof {
        lemma_board_count_absent(start, n as int, n as int, Cell::Empty);
    }
}

/// Plants `count` trees on empty cells picked at random.
fn plant_trees(grid: &mut Vec<Vec<Cell>>, count: usize, rng: &mut rand::rngs::StdRng)
    requires
        old(grid)@.len() > 0,
        is_square(board_of(*old(grid)), old(grid)@.len() as int),
        no_tents(board_of(*old(grid))),
        tree_count(board_of(*old(grid))) + count <= old(grid)@.len() * old(grid)@.len(),
    ensures
        final(grid)@.len() == old(grid)@.len(),
        is_square(board_of(*final(grid)), final(grid)@.len() as int),
        no_tents(board_of(*final(grid))),
        tree_count(board_of(*final(grid))) == tree_count(board_of(*old(grid))) + count,
{
    let ghost base = tree_count(board_of(*grid));
    let n = grid.len();
    let mut t: usize = 0;
    while t < count
        invariant
            n == grid@.len(),
            n == old(grid)@.len(),
            n > 0,
            base == tree_count(board_of(*old(grid))),
            base + count <= n * n,
            is_square(board_of(*grid), n as int),
            no_tents(board_of(*grid)),
            t <= count,
            tree_count(board_of(*grid)) == base + t,
        decreases count - t,
    {
        let mut tries: usize = 0;
        let mut placed = false;
        while tries < PLACEMENT_TRIES && !placed
            invariant
                n == grid@.len(),
                n > 0,
                is_square(board_of(*grid), n as int),
                no_tents(board_of(*grid)),
                tries <= PLACEMENT_TRIES,
                tree_count(board_of(*grid)) == base + t + if placed { 1int } else { 0int },
            decreases PLACEMENT_TRIES - tries,
        {
            let x = random_in(rng, 0, n);
            let y = random_in(rng, 0, n);
            if cell_is(grid, x, y, Cell::Empty) {
                let ghost a = board_of(*grid);
                set_cell(grid, x, y, Cell::Tree);
                proof {
                    lemma_board_count_update(a, n as int, x as int, y as int, Cell::Tree, Cell::Tree);
                }
                placed = true;
            }
            tries += 1;
        }
        if !placed {
            proof {
                let b = board_of(*grid);
                lemma_board_count_total(b, n as int, n as int);
                lemma_board_count_absent(b, n as int, n as int, Cell::Tent);
            }
            plant_in_first_empty(grid);
        }
        t += 1;
    }
}

/// Emptying a cell keeps every empty neighbour a tree had.
proof fn lemma_emptying_keeps_room(a: Board, n: int, px: int, py: int)
    requires
        is_square(a, n),
        in_bounds(n, px, py),
    ensures
        forall|x: int, y: int|
            #![trigger has_orthogonal(set_at(a, px, py, Cell::Empty), x, y, Cell::Empty)]
            has_orthogonal(a, x, y, Cell::Empty) ==> has_orthogonal(set_at(a, px, py, Cell::Empty), x, y, Cell::Empty),
{
    let b = set_at(a, px, py, Cell::Empty);
    assert forall|x: int, y: int| has_orthogonal(a, x, y, Cell::Empty) implies has_orthogonal(b, x, y, Cell::Empty) by {
        let (wx, wy) = choose|wx: int, wy: int|
            in_bounds(a.len() as int, wx, wy) && orthogonal(x, y, wx, wy) && #[trigger] a[wy][wx] == Cell::Empty;
        assert(b[wy][wx] == Cell::Empty);
    }
}

/// Every cell of `b` is the cell of `start`, or an empty cell where `start`
/// had a tree.
pub open spec fn trees_cleared(start: Board, b: Board) -> bool {
    forall|x: int, y: int|
        in_bounds(start.len() as int, x, y) ==> #[trigger] b[y][x] == start[y][x] || (start[y][x] == Cell::Tree
            && b[y][x] == Cell::Empty)
}

/// The tree at `(x, y)` has a tent beside it, or had no free cell for one.
pub open spec fn tree_served(b: Board, x: int, y: int) -> bool {
    has_orthogonal(b, x, y, Cell::Tent) || !has_orthogonal(b, x, y, Cell::Empty)
}

/// Every tree has a tent beside it, or no free cell for one.
pub open spec fn trees_served(b: Board) -> bool {
    forall|x: int, y: int| in_bounds(b.len() as int, x, y) && #[trigger] b[y][x] == Cell::Tree ==> tree_served(b, x, y)
}

/// Gives every tree that has no empty orthogonal neighbour one, by emptying
/// a neighbour picked at random.
fn repair_trees(grid: &mut Vec<Vec<Cell>>, rng: &mut rand::rngs::StdRng)
    requires
        old(grid)@.len() >= 2,
        is_square(board_of(*old(grid)), old(grid)@.len() as int),
        no_tents(board_of(*old(grid))),
    ensures
        final(grid)@.len() == old(grid)@.len(),
        is_square(board_of(*final(grid)), final(grid)@.len() as int),
        no_tents(board_of(*final(grid))),
        trees_have_room(board_of(*final(grid))),
        trees_cleared(board_of(*old(grid)), board_of(*final(grid))),
        tree_count(board_of(*final(grid))) <= tree_count(board_of(*old(grid))),
        tree_count(board_of(*old(grid))) >= 1 ==> tree_count(board_of(*final(grid))) >= 1,
{
    let ghost start = board_of(*grid);
    let n = grid.len();
    let mut y: usize = 0;
    while y < n
        invariant
            n == grid@.len(),
            n >= 2,
            is_square(board_of(*grid), n as int),
            no_tents(board_of(*grid)),
            start == board_of(*old(grid)),
            is_square(start, n as int),
            trees_cleared(start, board_of(*grid)),
            tree_count(board_of(*grid)) <= tree_count(start),
            tree_count(start) >= 1 ==> tree_count(board_of(*grid)) >= 1,
            y <= n,
            forall|qx: int, qy: int|
                in_bounds(n as int, qx, qy) && qy < y && #[trigger] board_of(*grid)[qy][qx] == Cell::Tree
                    ==> has_orthogonal(board_of(*grid), qx, qy, Cell::Empty),
        decreases n - y,
    {
        let mut x: usize = 0;
        while x < n
            invariant
                n == grid@.len(),
                n >= 2,
                is_square(board_of(*grid), n as int),
                no_tents(board_of(*grid)),
                start == board_of(*old(grid)),
                is_square(start, n as int),
                trees_cleared(start, board_of(*grid)),
                tree_count(board_of(*grid)) <= tree_count(start),
                tree_count(start) >= 1 ==> tree_count(board_of(*grid)) >= 1,
                y < n,
                x <= n,
                forall|qx: int, qy: int|
                    in_bounds(n as int, qx, qy) && (qy < y || (qy == y && qx < x)) && #[trigger] board_of(*grid)[qy][qx]
                        == Cell::Tree ==> has_orthogonal(board_of(*grid), qx, qy, Cell::Empty),
            decreases n - x,
        {
            let ghost a = board_of(*grid);
            if cell_is(grid, x, y, Cell::Tree) && !has_adjacent_empty(grid, x, y) {
                create_adjacent_empty(grid, x, y, rng);
                proof {
                    let p = choose|p: Point|
                        orthogonal_point(n as int, x as int, y as int, p) && board_of(*grid) == set_at(
                            a,
                            p.0 as int,
                            p.1 as int,
                            Cell::Empty,
                        );
                    let b = board_of(*grid);
                    lemma_emptying_keeps_room(a, n as int, p.0 as int, p.1 as int);
                    lemma_board_count_update(a, n as int, p.0 as int, p.1 as int, Cell::Empty, Cell::Tree);
                    assert(b[y as int][x as int] == Cell::Tree);
                    lemma_board_count_update(b, n as int, x as int, y as int, Cell::Empty, Cell::Tree);
                    assert forall|qx: int, qy: int| in_bounds(n as int, qx, qy) implies #[trigger] b[qy][qx]
                        == start[qy][qx] || (start[qy][qx] == Cell::Tree && b[qy][qx] == Cell::Empty) by {
                        assert(a[qy][qx] == start[qy][qx] || (start[qy][qx] == Cell::Tree && a[qy][qx] == Cell::Empty));
                    }
                    assert(b[p.1 as int][p.0 as int] == Cell::Empty);
                    assert(has_orthogonal(b, x as int, y as int, Cell::Empty));
                    assert forall|qx: int, qy: int|
                        in_bounds(n as int, qx, qy) && (qy < y || (qy == y && qx <= x)) && #[trigger] b[qy][qx]
                            == Cell::Tree implies has_orthogonal(b, qx, qy, Cell::Empty) by {
                        if !(qx == x && qy == y) {
                            assert(a[qy][qx] == Cell::Tree);
                            assert(has_orthogonal(a, qx, qy, Cell::Empty));
                        }
                    }
                    assert forall|qx: int, qy: int| in_bounds(n as int, qx, qy) implies #[trigger] b[qy][qx]
                        != Cell::Tent by {
                        assert(a[qy][qx] != Cell::Tent);
                    }
                }
            }
            x += 1;
        }
        y += 1;
    }
}


/// Every cell of `b` is the cell of `start`, or a tent on what was empty there.
pub open spec fn tents_added(start: Board, b: Board) -> bool {
    forall|x: int, y: int|
        in_bounds(start.len() as int, x, y) ==> #[trigger] b[y][x] == start[y][x] || (start[y][x] == Cell::Empty
            && b[y][x] == Cell::Tent)
}

/// Putting a tent on an empty cell keeps every tree served.
proof fn lemma_tent_keeps_service(a: Board, n: int, px: int, py: int)
    requires
        is_square(a, n),
        in_bounds(n, px, py),
        a[py][px] == Cell::Empty,
    ensures
        forall|x: int, y: int|
            #![trigger tree_served(set_at(a, px, py, Cell::Tent), x, y)]
            tree_served(a, x, y) ==> tree_served(set_at(a, px, py, Cell::Tent), x, y),
{
    let b = set_at(a, px, py, Cell::Tent);
    assert forall|x: int, y: int| tree_served(a, x, y) implies tree_served(b, x, y) by {
        if has_orthogonal(a, x, y, Cell::Tent) {
            let (wx, wy) = choose|wx: int, wy: int|
                in_bounds(a.len() as int, wx, wy) && orthogonal(x, y, wx, wy) && #[trigger] a[wy][wx] == Cell::Tent;
            assert(b[wy][wx] == Cell::Tent);
        } else if has_orthogonal(b, x, y, Cell::Empty) {
            let (wx, wy) = choose|wx: int, wy: int|
                in_bounds(b.len() as int, wx, wy) && orthogonal(x, y, wx, wy) && #[trigger] b[wy][wx] == Cell::Empty;
            assert(a[wy][wx] == Cell::Empty);
        }
    }
}

/// Gives each tree, in row-major order, a tent on an empty orthogonal
/// neighbour picked at random; a tree whose neighbours are all taken gets none.
fn place_tents(grid: &mut Vec<Vec<Cell>>, rng: &mut rand::rngs::StdRng)
    requires
        is_square(board_of(*old(grid)), old(grid)@.len() as int),
        no_tents(board_of(*old(grid))),
    ensures
        final(grid)@.len() == old(grid)@.len(),
        is_square(board_of(*final(grid)), final(grid)@.len() as int),
        tents_added(board_of(*old(grid)), board_of(*final(grid))),
        tents_supported(board_of(*final(grid))),
        trees_served(board_of(*final(grid))),
        tree_count(board_of(*final(grid))) == tree_count(board_of(*old(grid))),
        tent_count(board_of(*final(grid))) <= tree_count(board_of(*final(grid))),
{
    let ghost start = board_of(*grid);
    let n = grid.len();
    proof {
        lemma_board_count_absent(start, n as int, n as int, Cell::Tent);
    }
    let mut y: usize = 0;
    while y < n
        invariant
            n == grid@.len(),
            n == old(grid)@.len(),
            start == board_of(*old(grid)),
            is_square(start, n as int),
            is_square(board_of(*grid), n as int),
            tents_added(start, board_of(*grid)),
            tents_supported(board_of(*grid)),
            y <= n,
            forall|qx: int, qy: int|
                in_bounds(n as int, qx, qy) && qy < y && #[trigger] board_of(*grid)[qy][qx] == Cell::Tree ==> tree_served(
                    board_of(*grid),
                    qx,
                    qy,
                ),
            tent_count(board_of(*grid)) <= board_count(start, y as int, Cell::Tree),
        decreases n - y,
    {
        let mut x: usize = 0;
        while x < n
            invariant
                n == grid@.len(),
                n == old(grid)@.len(),
                start == board_of(*old(grid)),
                is_square(start, n as int),
                is_square(board_of(*grid), n as int),
                tents_added(start, board_of(*grid)),
                tents_supported(board_of(*grid)),
                y < n,
                x <= n,
                forall|qx: int, qy: int|
                    in_bounds(n as int, qx, qy) && (qy < y || (qy == y && qx < x)) && #[trigger] board_of(*grid)[qy][qx]
                        == Cell::Tree ==> tree_served(board_of(*grid), qx, qy),
                tent_count(board_of(*grid)) <= board_count(start, y as int, Cell::Tree) + row_count(
                    start[y as int],
                    x as int,
                    Cell::Tree,
                ),
            decreases n - x,
        {
            let ghost a = board_of(*grid);
            assert(start[y as int].len() == n);
            assert(row_count(start[y as int], x + 1, Cell::Tree) == row_count(start[y as int], x as int, Cell::Tree) + if start[y as int][x as int] == Cell::Tree { 1nat } else { 0nat });
            if cell_is(grid, x, y, Cell::Tree) && has_adjacent_empty(grid, x, y) {
                place_adjacent_tent(grid, x, y, rng);
                proof {
                    let p = choose|p: Point|
                        orthogonal_point(n as int, x as int, y as int, p) && a[p.1 as int][p.0 as int] == Cell::Empty
                            && board_of(*grid) == set_at(a, p.0 as int, p.1 as int, Cell::Tent);
                    let b = board_of(*grid);
                    assert(in_bounds(n as int, x as int, y as int));
                    assert(start[y as int][x as int] == Cell::Tree);
                    lemma_board_count_update(a, n as int, p.0 as int, p.1 as int, Cell::Tent, Cell::Tent);
                    lemma_tent_keeps_service(a, n as int, p.0 as int, p.1 as int);
                    assert(b[p.1 as int][p.0 as int] == Cell::Tent);
                    assert(has_orthogonal(b, x as int, y as int, Cell::Tent));
                    assert forall|qx: int, qy: int| in_bounds(n as int, qx, qy) implies #[trigger] b[qy][qx]
                        == start[qy][qx] || (start[qy][qx] == Cell::Empty && b[qy][qx] == Cell::Tent) by {
                        assert(a[qy][qx] == start[qy][qx] || (start[qy][qx] == Cell::Empty && a[qy][qx] == Cell::Tent));
                    }
                    assert forall|qx: int, qy: int| in_bounds(n as int, qx, qy) && #[trigger] b[qy][qx]
                        == Cell::Tent implies has_orthogonal(b, qx, qy, Cell::Tree) by {
                        if qx == p.0 as int && qy == p.1 as int {
                            assert(b[y as int][x as int] == Cell::Tree);
                            assert(orthogonal(qx, qy, x as int, y as int));
                        } else {
                            assert(a[qy][qx] == Cell::Tent);
                            assert(has_orthogonal(a, qx, qy, Cell::Tree));
                            let (wx, wy) = choose|wx: int, wy: int|
                                in_bounds(n as int, wx, wy) && orthogonal(qx, qy, wx, wy) && #[trigger] a[wy][wx]
                                    == Cell::Tree;
                            assert(b[wy][wx] == Cell::Tree);
                        }
                    }
                    assert forall|qx: int, qy: int|
                        in_bounds(n as int, qx, qy) && (qy < y || (qy == y && qx <= x)) && #[trigger] b[qy][qx]
                            == Cell::Tree implies tree_served(b, qx, qy) by {
                        if !(qx == x && qy == y) {
                            assert(a[qy][qx] == Cell::Tree);
                        }
                    }
                }
            }
            x += 1;
        }
        proof {
            assert(start[y as int].len() == n);
        }
        y += 1;
    }
    proof {
        let b = board_of(*grid);
        lemma_board_count_same(start, b, n as int, n as int, Cell::Tree);
    }
}

/// Turns every tent back into an empty cell.
fn erase_all_tents(grid: &mut Vec<Vec<Cell>>)
    requires
        is_square(board_of(*old(grid)), old(grid)@.len() as int),
    ensures
        final(grid)@.len() == old(grid)@.len(),
        is_square(board_of(*final(grid)), final(grid)@.len() as int),
        board_of(*final(grid)) == erase_tents(board_of(*old(grid))),
{
    let ghost start = board_of(*grid);
    let n = grid.len();
    let mut y: usize = 0;
    while y < n
        invariant
            n == grid@.len(),
            n == old(grid)@.len(),
            start == board_of(*old(grid)),
            is_square(start, n as int),
            is_square(board_of(*grid), n as int),
            forall|qx: int, qy: int|
                in_bounds(n as int, qx, qy) ==> #[trigger] board_of(*grid)[qy][qx] == (if qy < y {
                    erase_tents(start)[qy][qx]
                } else {
                    start[qy][qx]
                }),
        decreases n - y,
    {
        let mut x: usize = 0;
        while x < n
            invariant
                n == grid@.len(),
                n == old(grid)@.len(),
                start == board_of(*old(grid)),
                is_square(start, n as int),
                is_square(board_of(*grid), n as int),
                y < n,
                x <= n,
                forall|qx: int, qy: int|
                    in_bounds(n as int, qx, qy) ==> #[trigger] board_of(*grid)[qy][qx] == (if qy < y || (qy == y && qx
                        < x) {
                        erase_tents(start)[qy][qx]
                    } else {
                        start[qy][qx]
                    }),
            decreases n - x,
        {
            assert(start[y as int].len() == n);
            if cell_is(grid, x, y, Cell::Tent) {
                set_cell(grid, x, y, Cell::Empty);
            }
            x += 1;
        }
        y += 1;
    }
    proof {
        let b = board_of(*grid);
        let e = erase_tents(start);
        assert forall|qy: int| 0 <= qy < n implies #[trigger] b[qy] =~= e[qy] by {
            assert(b[qy].len() == n);
            assert forall|qx: int| 0 <= qx < n implies b[qy][qx] == e[qy][qx] by {
                assert(in_bounds(n as int, qx, qy));
            }
        }
        assert(b =~= e);
    }
}


/// Why a level of the asked size cannot be generated.
#[derive(Clone, Copy, PartialEq, Eq, Structural, Debug)]
pub enum LevelError {
    /// The board is too small for the tree count range `[n²/5, n²/3)` to
    /// hold any value.
    SizeTooSmall,
}

/// Whether a level of side `size` can be generated: the tree count range
/// `[size²/5, size²/3)` is not empty.
pub open spec fn size_accepted(size: int) -> bool {
    size * size / 5 < size * size / 3
}

/// The tent count of every row and every column.
fn derive_clues(grid: &Vec<Vec<Cell>>) -> (r: (Vec<usize>, Vec<usize>))
    requires
        is_square(board_of(*grid), grid@.len() as int),
    ensures
        r.0@.len() == grid@.len(),
        r.1@.len() == grid@.len(),
        clues_met(board_of(*grid), r.0@, r.1@),
        forall|i: int| 0 <= i < grid@.len() ==> #[trigger] r.0@[i] <= grid@.len(),
        forall|i: int| 0 <= i < grid@.len() ==> #[trigger] r.1@[i] <= grid@.len(),
{
    let ghost b = board_of(*grid);
    let n = grid.len();
    let mut rows: Vec<usize> = Vec::new();
    let mut cols: Vec<usize> = Vec::new();
    let mut i: usize = 0;
    while i < n
        invariant
            b == board_of(*grid),
            n == grid@.len(),
            is_square(b, n as int),
            i <= n,
            rows@.len() == i,
            cols@.len() == i,
            forall|q: int| 0 <= q < i ==> #[trigger] rows@[q] == row_tents(b, q, n as int) && rows@[q] <= n,
            forall|q: int| 0 <= q < i ==> #[trigger] cols@[q] == col_tents(b, q, n as int) && cols@[q] <= n,
        decreases n - i,
    {
        let r = count_row_tents(grid, i);
        let c = count_col_tents(grid, i);
        rows.push(r);
        cols.push(c);
        i += 1;
    }
    (rows, cols)
}

/// Adding tents to a board without tents, then erasing them, gives it back.
proof fn lemma_erase_added(start: Board, b: Board, n: int)
    requires
        is_square(start, n),
        is_square(b, n),
        no_tents(start),
        tents_added(start, b),
    ensures
        erase_tents(b) == start,
{
    let e = erase_tents(b);
    assert forall|y: int| 0 <= y < n implies #[trigger] e[y] =~= start[y] by {
        assert forall|x: int| 0 <= x < n implies e[y][x] == start[y][x] by {
            assert(in_bounds(n, x, y));
        }
    }
    assert(e =~= start);
}

/// The hidden solution of a fresh level: trees, one tent per tree where a
/// free neighbour was left, and the clues counted from those tents.
fn build_level(size: usize, rng: &mut rand::rngs::StdRng) -> (r: (Vec<Vec<Cell>>, Vec<usize>, Vec<usize>))
    requires
        size >= 2,
        size_accepted(size as int),
        size * size <= usize::MAX,
    ensures
        r.0@.len() == size,
        is_square(board_of(r.0), size as int),
        r.1@.len() == size,
        r.2@.len() == size,
        forall|i: int| 0 <= i < size ==> #[trigger] r.1@[i] <= size,
        forall|i: int| 0 <= i < size ==> #[trigger] r.2@[i] <= size,
        clues_met(board_of(r.0), r.1@, r.2@),
        tents_supported(board_of(r.0)),
        no_tents(erase_tents(board_of(r.0))),
        trees_have_room(erase_tents(board_of(r.0))),
        trees_served(board_of(r.0)),
        tent_count(board_of(r.0)) <= tree_count(board_of(r.0)),
        tree_count(board_of(r.0)) == tree_count(erase_tents(board_of(r.0))),
        tree_count(board_of(r.0)) < size * size / 3,
        size * size / 5 >= 1 ==> tree_count(board_of(r.0)) >= 1,
{
    let mut grid = empty_grid(size);
    let area = size * size;
    let trees = random_in(rng, area / 5, area / 3);
    proof {
        lemma_board_count_absent(board_of(grid), size as int, size as int, Cell::Tree);
    }
    plant_trees(&mut grid, trees, rng);
    repair_trees(&mut grid, rng);
    let ghost repaired = board_of(grid);
    place_tents(&mut grid, rng);
    proof {
        lemma_erase_added(repaired, board_of(grid), size as int);
    }
    let (rows, cols) = derive_clues(&grid);
    (grid, rows, cols)
}

/// Whether the size is too small to generate a level of.
fn size_rejected(size: usize) -> (r: bool)
    requires
        size * size <= usize::MAX,
    ensures
        r == !size_accepted(size as int),
        !r ==> size >= 2,
{
    proof {
        if size < 2 {
            assert(size * size <= 1) by (nonlinear_arith)
                requires
                    size < 2,
            ;
        }
    }
    let area = size * size;
    area / 5 >= area / 3
}

/// A fresh level from `seed`, with its hidden solution still on the board:
/// every clue is met, every tent touches a tree, every tree has a tent
/// unless its neighbours were all taken, there are no more tents than trees,
/// and the board is solved exactly when no two tents touch.
pub fn generate_solved(size: usize, seed: u64) -> (r: Result<GameState, LevelError>)
    requires
        size * size <= usize::MAX,
    ensures
        r.is_err() <==> !size_accepted(size as int),
        r.is_err() ==> r == Err::<GameState, LevelError>(LevelError::SizeTooSmall),
        r.is_ok() ==> ({
            let s = r.unwrap();
            &&& s.wf()
            &&& s.n() == size
            &&& clues_met(s.board(), s.rows(), s.cols())
            &&& tents_supported(s.board())
            &&& (solved(s.board(), s.rows(), s.cols()) <==> tents_isolated(s.board()))
            &&& no_tents(erase_tents(s.board()))
            &&& trees_have_room(erase_tents(s.board()))
            &&& trees_served(s.board())
            &&& tent_count(s.board()) <= tree_count(s.board())
            &&& tree_count(s.board()) < size * size / 3
            &&& (size * size / 5 >= 1 ==> tree_count(s.board()) >= 1)
        }),
{
    if size_rejected(size) {
        return Err(LevelError::SizeTooSmall);
    }
    let mut rng = seeded_rng(seed);
    let (grid, rows, cols) = build_level(size, &mut rng);
    let s = GameState::from_parts(grid, rows, cols);
    Ok(s.unwrap())
}

/// A fresh level from `seed`, ready to play: trees and empty cells only,
/// fewer than `size²/3` trees and at least one once `size²/5` is positive,
/// every tree with an empty orthogonal neighbour, and clues that a hidden
/// placement of tents meets exactly. In that placement every tent touches a
/// tree, every tree has a tent unless its neighbours were all taken, and
/// there are no more tents than trees.
pub fn generate_random_level(size: usize, seed: u64) -> (r: Result<GameState, LevelError>)
    requires
        size * size <= usize::MAX,
    ensures
        r.is_err() <==> !size_accepted(size as int),
        r.is_err() ==> r == Err::<GameState, LevelError>(LevelError::SizeTooSmall),
        r.is_ok() ==> ({
            let s = r.unwrap();
            &&& s.wf()
            &&& s.n() == size
            &&& no_tents(s.board())
            &&& trees_have_room(s.board())
            &&& tree_count(s.board()) < size * size / 3
            &&& (size * size / 5 >= 1 ==> tree_count(s.board()) >= 1)
            &&& exists|sol: Board|
                is_square(sol, size as int) && erase_tents(sol) == s.board() && clues_met(sol, s.rows(), s.cols())
                    && tents_supported(sol) && trees_served(sol) && tent_count(sol) <= tree_count(sol)
                    && tree_count(sol) == tree_count(s.board())
        }),
{
    if size_rejected(size) {
        return Err(LevelError::SizeTooSmall);
    }
    let mut rng = seeded_rng(seed);
    let (mut grid, rows, cols) = build_level(size, &mut rng);
    let ghost sol = board_of(grid);
    erase_all_tents(&mut grid);
    let s = GameState::from_parts(grid, rows, cols);
    let s = s.unwrap();
    assert(is_square(sol, size as int) && erase_tents(sol) == s.board() && clues_met(sol, s.rows(), s.cols())
        && tents_supported(sol) && trees_served(sol) && tent_count(sol) <= tree_count(sol) && tree_count(sol)
        == tree_count(s.board()));
    Ok(s)
}

} // verus!
