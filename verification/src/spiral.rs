//! The goal arrangement: the tiles `1 .. n * n - 1` written clockwise along an
//! inward spiral that starts in the top-left corner, and the blank in the cell
//! where the spiral ends.
//!
//! The board is cut into concentric rings; ring `k` is the border of the square
//! that remains once `k` outer rings are peeled off.  The rank of a cell is its
//! place on the spiral, counted from one.

use vstd::prelude::*;
use crate::board::{
    cell_index, is_permutation, is_valid_board, lemma_cell_index, lemma_index_cell,
    lemma_permutation_has_all,
};

verus! {

/// The smaller of two integers.
pub open spec fn least(a: int, b: int) -> int {
    if a <= b {
        a
    } else {
        b
    }
}

/// The ring on which cell `(x, y)` lies: its distance to the nearest border.
pub open spec fn ring_of(n: int, x: int, y: int) -> int {
    least(least(x, y), least(n - 1 - x, n - 1 - y))
}

/// The side length of ring `k`.
pub open spec fn ring_side(n: int, k: int) -> int {
    n - 2 * k
}

/// The number of cells on the rings outside ring `k`.
pub open spec fn cells_outside(n: int, k: int) -> int {
    n * n - ring_side(n, k) * ring_side(n, k)
}

/// The place of a cell along its ring, counted clockwise from the ring's top-left
/// corner; `(u, v)` are the cell's coordinates within the ring's square of side `m`.
pub open spec fn place_on_ring(m: int, u: int, v: int) -> int {
    if v == 0 {
        u
    } else if u == m - 1 {
        (m - 1) + v
    } else if v == m - 1 {
        2 * (m - 1) + (m - 1 - u)
    } else {
        3 * (m - 1) + (m - 1 - v)
    }
}

/// The place of cell `(x, y)` on the spiral, counted from one.
pub open spec fn spiral_rank(n: int, x: int, y: int) -> int {
    let k = ring_of(n, x, y);
    cells_outside(n, k) + place_on_ring(ring_side(n, k), x - k, y - k) + 1
}

/// What the goal holds in cell `(x, y)`: its rank, but the blank in the last cell.
pub open spec fn goal_value(n: int, x: int, y: int) -> int {
    if spiral_rank(n, x, y) == n * n {
        0
    } else {
        spiral_rank(n, x, y)
    }
}

/// The cells of the goal of side `n`, in row-major order.
pub open spec fn goal_cells(n: int) -> Seq<usize> {
    Seq::new((n * n) as nat, |i: int| goal_value(n, i % n, i / n) as usize)
}

/// The larger of two numbers has the larger square.
proof fn lemma_square_monotonic(a: int, b: int)
    requires
        0 <= a <= b,
    ensures
        a * a <= b * b,
{
    assert(a * a <= b * b) by (nonlinear_arith)
        requires
            0 <= a <= b,
    ;
}

/// A ring of side `m` has `4 * (m - 1)` cells.
proof fn lemma_ring_growth(n: int, k: int)
    ensures
        cells_outside(n, k + 1) == cells_outside(n, k) + 4 * (ring_side(n, k) - 1),
{
    let m = ring_side(n, k);
    assert((m - 2) * (m - 2) == m * m - 4 * (m - 1)) by (nonlinear_arith);
}

/// The facts about the ring of a cell on which the other proofs rest.
pub proof fn lemma_ring_shape(n: int, x: int, y: int)
    requires
        0 <= x < n,
        0 <= y < n,
    ensures
        0 <= ring_of(n, x, y),
        1 <= ring_side(n, ring_of(n, x, y)) <= n,
        0 <= cells_outside(n, ring_of(n, x, y)),
        0 <= x - ring_of(n, x, y) < ring_side(n, ring_of(n, x, y)),
        0 <= y - ring_of(n, x, y) < ring_side(n, ring_of(n, x, y)),
        x - ring_of(n, x, y) == 0 || y - ring_of(n, x, y) == 0 || x - ring_of(n, x, y)
            == ring_side(n, ring_of(n, x, y)) - 1 || y - ring_of(n, x, y) == ring_side(
            n,
            ring_of(n, x, y),
        ) - 1,
{
    let k = ring_of(n, x, y);
    lemma_square_monotonic(ring_side(n, k), n);
}

/// The ranks of one ring fill the range that follows the rings outside it.
pub proof fn lemma_rank_in_ring(n: int, x: int, y: int)
    requires
        0 <= x < n,
        0 <= y < n,
    ensures
        cells_outside(n, ring_of(n, x, y)) + 1 <= spiral_rank(n, x, y),
        ring_side(n, ring_of(n, x, y)) >= 2 ==> spiral_rank(n, x, y) <= cells_outside(
            n,
            ring_of(n, x, y) + 1,
        ),
        ring_side(n, ring_of(n, x, y)) == 1 ==> spiral_rank(n, x, y) == n * n,
{
    let k = ring_of(n, x, y);
    lemma_ring_shape(n, x, y);
    lemma_ring_growth(n, k);
    let m = ring_side(n, k);
    if m == 1 {
        assert(m * m == 1) by (nonlinear_arith)
            requires
                m == 1,
        ;
    }
}

/// Every rank lies in `1 ..= n * n`.
pub proof fn lemma_rank_bounds(n: int, x: int, y: int)
    requires
        0 <= x < n,
        0 <= y < n,
    ensures
        1 <= spiral_rank(n, x, y) <= n * n,
{
    let k = ring_of(n, x, y);
    lemma_ring_shape(n, x, y);
    lemma_rank_in_ring(n, x, y);
    let m = ring_side(n, k);
    if m >= 2 {
        let inner = ring_side(n, k + 1);
        assert(inner * inner >= 0) by (nonlinear_arith);
    }
}

/// The cells outside a ring include those of every ring further out.
proof fn lemma_outer_ring_first(n: int, k1: int, k2: int)
    requires
        0 <= k1 < k2,
        1 <= ring_side(n, k2),
    ensures
        cells_outside(n, k1 + 1) <= cells_outside(n, k2),
{
    lemma_square_monotonic(ring_side(n, k2), ring_side(n, k1 + 1));
}

/// Two cells of one rank are one cell.
pub proof fn lemma_rank_injective(n: int, x1: int, y1: int, x2: int, y2: int)
    requires
        0 <= x1 < n,
        0 <= y1 < n,
        0 <= x2 < n,
        0 <= y2 < n,
        spiral_rank(n, x1, y1) == spiral_rank(n, x2, y2),
    ensures
        x1 == x2,
        y1 == y2,
{
    let k1 = ring_of(n, x1, y1);
    let k2 = ring_of(n, x2, y2);
    lemma_ring_shape(n, x1, y1);
    lemma_ring_shape(n, x2, y2);
    lemma_rank_in_ring(n, x1, y1);
    lemma_rank_in_ring(n, x2, y2);
    if k1 < k2 {
        lemma_outer_ring_first(n, k1, k2);
    } else if k2 < k1 {
        lemma_outer_ring_first(n, k2, k1);
    }
}

/// The goal holds each of `0 .. n * n` in one cell and in no other.
pub proof fn lemma_goal_holds_each_once(n: int, value: usize)
    requires
        2 <= n,
        n * n <= usize::MAX,
        value < n * n,
    ensures
        exists|i: int|
            0 <= i < n * n && #[trigger] goal_cells(n)[i] == value && forall|j: int|
                0 <= j < n * n && #[trigger] goal_cells(n)[j] == value ==> j == i,
{
    lemma_goal_is_valid(n);
    lemma_permutation_has_all(goal_cells(n), value);
    let i = choose|i: int| 0 <= i < goal_cells(n).len() && goal_cells(n)[i] == value;
    assert(goal_cells(n)[i] == value);
}

/// Every cell whose rank is below `rank` already holds its rank.
pub open spec fn filled_below(cells: Seq<usize>, n: int, rank: int) -> bool {
    forall|i: int|
        0 <= i < cells.len() && spiral_rank(n, i % n, i / n) < rank ==> (#[trigger] cells[i])
            == spiral_rank(n, i % n, i / n)
}

/// How far the ranks of ring `k` stay below the number of cells.
pub proof fn lemma_ring_room(n: int, k: int)
    requires
        2 <= ring_side(n, k),
    ensures
        cells_outside(n, k) + 2 * ring_side(n, k) <= n * n,
        (cells_outside(n, k) + 2 * ring_side(n, k) == n * n) <==> ring_side(n, k) == 2,
        3 <= ring_side(n, k) ==> cells_outside(n, k + 1) + 1 <= n * n,
        3 <= ring_side(n, k) ==> ((cells_outside(n, k + 1) + 1 == n * n) <==> ring_side(n, k)
            == 3),
        cells_outside(n, k + 1) == cells_outside(n, k) + 4 * (ring_side(n, k) - 1),
{
    let m = ring_side(n, k);
    lemma_ring_growth(n, k);
    assert(m * m >= 2 * m && (m * m == 2 * m <==> m == 2)) by (nonlinear_arith)
        requires
            2 <= m,
    ;
    if 3 <= m {
        let inner = m - 2;
        assert(inner * inner >= 1 && (inner * inner == 1 <==> inner == 1)) by (nonlinear_arith)
            requires
                1 <= inner,
        ;
    }
}

/// Writing the next rank into its cell keeps the cells of lower rank as they are.
pub proof fn lemma_fill_next(cells: Seq<usize>, n: int, x: int, y: int, rank: int)
    requires
        2 <= n,
        cells.len() == n * n,
        0 <= x < n,
        0 <= y < n,
        spiral_rank(n, x, y) == rank,
        0 <= rank <= usize::MAX,
        filled_below(cells, n, rank),
    ensures
        filled_below(cells.update(cell_index(n, x, y), rank as usize), n, rank + 1),
{
    let after = cells.update(cell_index(n, x, y), rank as usize);
    lemma_cell_index(n, x, y);
    assert forall|i: int|
        0 <= i < after.len() && spiral_rank(n, i % n, i / n) < rank + 1 implies (#[trigger] after[i])
        == spiral_rank(n, i % n, i / n) by {
        lemma_index_cell(n, i);
        if i != cell_index(n, x, y) {
            assert(after[i] == cells[i]);
            if spiral_rank(n, i % n, i / n) == rank {
                lemma_rank_injective(n, i % n, i / n, x, y);
            }
        }
    }
}

/// Once every rank below `n * n` is written and the last cell is blank, the board
/// is the goal.
pub proof fn lemma_filled_is_goal(cells: Seq<usize>, n: int, zx: int, zy: int)
    requires
        2 <= n,
        n * n <= usize::MAX,
        cells.len() == n * n,
        0 <= zx < n,
        0 <= zy < n,
        spiral_rank(n, zx, zy) == n * n,
        filled_below(cells, n, n * n),
        cells[zy * n + zx] == 0,
    ensures
        cells == goal_cells(n),
{
    let goal = goal_cells(n);
    assert forall|i: int| 0 <= i < cells.len() implies cells[i] == goal[i] by {
        lemma_index_cell(n, i);
        lemma_rank_bounds(n, i % n, i / n);
        if spiral_rank(n, i % n, i / n) == n * n {
            lemma_rank_injective(n, i % n, i / n, zx, zy);
        }
    }
    assert(cells =~= goal);
}

/// The goal is a valid board: it holds each of `0 .. n * n` exactly once.
pub proof fn lemma_goal_is_valid(n: int)
    requires
        2 <= n,
        n * n <= usize::MAX,
    ensures
        is_valid_board(goal_cells(n), n),
{
    let cells = goal_cells(n);
    assert(n * n >= 0) by (nonlinear_arith);
    assert forall|i: int| 0 <= i < cells.len() implies (#[trigger] cells[i]) < cells.len() by {
        lemma_index_cell(n, i);
        lemma_rank_bounds(n, i % n, i / n);
    }
    assert forall|i: int, j: int|
        0 <= i < cells.len() && 0 <= j < cells.len() && i != j implies cells[i] != cells[j] by {
        lemma_index_cell(n, i);
        lemma_index_cell(n, j);
        lemma_rank_bounds(n, i % n, i / n);
        lemma_rank_bounds(n, j % n, j / n);
        if spiral_rank(n, i % n, i / n) == spiral_rank(n, j % n, j / n) {
            lemma_rank_injective(n, i % n, i / n, j % n, j / n);
        }
    }
    assert(is_permutation(cells));
}

} // verus!
