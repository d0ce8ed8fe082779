use crate::board::{in_bounds, is_square, Board, Cell};
use crate::generator::set_at;
use vstd::prelude::*;

verus! {

/// 1 when `c == d`, else 0.
pub open spec fn is_one(c: Cell, d: Cell) -> int {
    if c == d { 1 } else { 0 }
}

/// Number of cells equal to `c` among the first `k` of a row.
pub open spec fn row_count(r: Seq<Cell>, k: int, c: Cell) -> nat
    decreases k,
{
    if k <= 0 {
        0
    } else {
        row_count(r, k - 1, c) + if r[k - 1] == c { 1nat } else { 0nat }
    }
}

/// Number of cells equal to `c` in the first `k` rows of a board.
pub open spec fn board_count(b: Board, k: int, c: Cell) -> nat
    decreases k,
{
    if k <= 0 {
        0
    } else {
        board_count(b, k - 1, c) + row_count(b[k - 1], b[k - 1].len() as int, c)
    }
}

/// Number of trees on the board.
pub open spec fn tree_count(b: Board) -> nat {
    board_count(b, b.len() as int, Cell::Tree)
}

/// Number of tents on the board.
pub open spec fn tent_count(b: Board) -> nat {
    board_count(b, b.len() as int, Cell::Tent)
}

/// Setting one cell of a row moves its count by what the cell gained or lost.
proof fn lemma_row_count_update(r: Seq<Cell>, k: int, x: int, v: Cell, c: Cell)
    requires
        0 <= x < r.len(),
        0 <= k <= r.len(),
    ensures
        row_count(r.update(x, v), k, c) == row_count(r, k, c) + if x < k {
            is_one(v, c) - is_one(r[x], c)
        } else {
            0
        },
    decreases k,
{
    if k > 0 {
        lemma_row_count_update(r, k - 1, x, v, c);
    }
}

/// Setting one cell of a board moves its count by what the cell gained or lost.
pub proof fn lemma_board_count_update(b: Board, k: int, x: int, y: int, v: Cell, c: Cell)
    requires
        0 <= y < b.len(),
        0 <= x < b[y].len(),
        0 <= k <= b.len(),
    ensures
        board_count(set_at(b, x, y, v), k, c) == board_count(b, k, c) + if y < k {
            is_one(v, c) - is_one(b[y][x], c)
        } else {
            0
        },
    decreases k,
{
    if k > 0 {
        lemma_board_count_update(b, k - 1, x, y, v, c);
        if k - 1 == y {
            lemma_row_count_update(b[y], b[y].len() as int, x, v, c);
        }
    }
}

proof fn lemma_row_count_total(r: Seq<Cell>, k: int)
    requires
        0 <= k <= r.len(),
    ensures
        row_count(r, k, Cell::Empty) + row_count(r, k, Cell::Tree) + row_count(r, k, Cell::Tent) == k,
    decreases k,
{
    if k > 0 {
        lemma_row_count_total(r, k - 1);
    }
}

/// The empty cells, trees and tents of the first `k` rows make `k * n` cells.
pub proof fn lemma_board_count_total(b: Board, k: int, n: int)
    requires
        is_square(b, n),
        0 <= k <= n,
    ensures
        board_count(b, k, Cell::Empty) + board_count(b, k, Cell::Tree) + board_count(b, k, Cell::Tent) == k * n,
    decreases k,
{
    if k > 0 {
        lemma_board_count_total(b, k - 1, n);
        assert(b[k - 1].len() == n);
        lemma_row_count_total(b[k - 1], n);
        assert((k - 1) * n + n == k * n) by (nonlinear_arith);
    } else {
        assert(k * n == 0) by (nonlinear_arith)
            requires
                k == 0,
        ;
    }
}

proof fn lemma_row_count_absent(r: Seq<Cell>, k: int, c: Cell)
    requires
        0 <= k <= r.len(),
        forall|x: int| 0 <= x < k ==> #[trigger] r[x] != c,
    ensures
        row_count(r, k, c) == 0,
    decreases k,
{
    if k > 0 {
        lemma_row_count_absent(r, k - 1, c);
    }
}

/// A board without any cell `c` counts none.
pub proof fn lemma_board_count_absent(b: Board, k: int, n: int, c: Cell)
    requires
        is_square(b, n),
        0 <= k <= n,
        forall|x: int, y: int| in_bounds(n, x, y) ==> #[trigger] b[y][x] != c,
    ensures
        board_count(b, k, c) == 0,
    decreases k,
{
    if k > 0 {
        lemma_board_count_absent(b, k - 1, n, c);
        assert(b[k - 1].len() == n);
        assert forall|x: int| 0 <= x < n implies #[trigger] b[k - 1][x] != c by {
            assert(in_bounds(n, x, k - 1));
        }
        lemma_row_count_absent(b[k - 1], n, c);
    }
}

proof fn lemma_row_count_same(r: Seq<Cell>, s: Seq<Cell>, k: int, c: Cell)
    requires
        0 <= k <= r.len(),
        0 <= k <= s.len(),
        forall|x: int| 0 <= x < k ==> (#[trigger] r[x] == c) == (s[x] == c),
    ensures
        row_count(r, k, c) == row_count(s, k, c),
    decreases k,
{
    if k > 0 {
        lemma_row_count_same(r, s, k - 1, c);
    }
}

/// Two boards with `c` on the same cells count it alike.
pub proof fn lemma_board_count_same(a: Board, b: Board, k: int, n: int, c: Cell)
    requires
        is_square(a, n),
        is_square(b, n),
        0 <= k <= n,
        forall|x: int, y: int| in_bounds(n, x, y) ==> (#[trigger] a[y][x] == c) == (b[y][x] == c),
    ensures
        board_count(a, k, c) == board_count(b, k, c),
    decreases k,
{
    if k > 0 {
        lemma_board_count_same(a, b, k - 1, n, c);
        assert(a[k - 1].len() == n && b[k - 1].len() == n);
        assert forall|x: int| 0 <= x < n implies (#[trigger] a[k - 1][x] == c) == (b[k - 1][x] == c) by {
            assert(in_bounds(n, x, k - 1));
        }
        lemma_row_count_same(a[k - 1], b[k - 1], n, c);
    }
}

} // verus!
