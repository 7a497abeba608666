//! The board read along a snake: the first row from left to right, the second from
//! right to left, and so on.  Cells that follow each other on the snake share an
//! edge, so the blank can travel along the whole snake; and where the snake turns,
//! the blank can jump from one row to the next past the tiles of the turn.

use vstd::prelude::*;
use crate::board::{cell_index, is_board, is_valid_board, lemma_cell_index, lemma_index_cell};
use crate::moves::{is_slide, lemma_reachable_step, neighbours, reachable, swapped};

verus! {

/// The cell that stands at place `p` of the snake; also the place of cell `p`.
pub open spec fn snake(n: int, p: int) -> int {
    let y = p / n;
    let r = p % n;
    y * n + if y % 2 == 0 {
        r
    } else {
        n - 1 - r
    }
}

/// The cells in the order of the snake; applied to cells in that order, the cells
/// in row-major order.
pub open spec fn along_snake(cells: Seq<usize>, n: int) -> Seq<usize> {
    Seq::new(cells.len(), |p: int| cells[snake(n, p)])
}

/// Places `p` and `q` of the snake belong to cells that share an edge: they lie in
/// one row and follow each other, or in two rows that follow each other and as far
/// before the turn as behind it.
pub open spec fn snake_neighbours(n: int, p: int, q: int) -> bool {
    &&& 0 <= p < n * n
    &&& 0 <= q < n * n
    &&& {
        ||| p / n == q / n && (p % n == q % n + 1 || q % n == p % n + 1)
        ||| (p / n == q / n + 1 || q / n == p / n + 1) && p % n + q % n == n - 1
    }
}

/// The snake keeps the row, turns every second row round, and leads back when
/// followed twice.
pub proof fn lemma_snake(n: int, p: int)
    requires
        0 < n,
        0 <= p < n * n,
    ensures
        0 <= snake(n, p) < n * n,
        snake(n, p) / n == p / n,
        snake(n, p) % n == if (p / n) % 2 == 0 {
            p % n
        } else {
            n - 1 - p % n
        },
        snake(n, snake(n, p)) == p,
{
    lemma_index_cell(n, p);
    let y = p / n;
    let r = p % n;
    let turned = if y % 2 == 0 {
        r
    } else {
        n - 1 - r
    };
    lemma_cell_index(n, turned, y);
    assert(snake(n, p) == cell_index(n, turned, y));
}

/// Read twice along the snake, the cells stand as they stood.
pub proof fn lemma_along_twice(cells: Seq<usize>, n: int)
    requires
        0 < n,
        is_board(cells, n),
    ensures
        along_snake(along_snake(cells, n), n) == cells,
{
    let twice = along_snake(along_snake(cells, n), n);
    assert forall|p: int| 0 <= p < cells.len() implies twice[p] == cells[p] by {
        lemma_snake(n, p);
        lemma_snake(n, snake(n, p));
    }
    assert(twice =~= cells);
}

/// A valid board read along the snake is a valid board.
pub proof fn lemma_along_valid(cells: Seq<usize>, n: int)
    requires
        is_valid_board(cells, n),
    ensures
        is_valid_board(along_snake(cells, n), n),
{
    let row = along_snake(cells, n);
    assert forall|p: int| 0 <= p < row.len() implies (#[trigger] row[p]) < row.len() by {
        lemma_snake(n, p);
    }
    assert forall|p: int, q: int|
        0 <= p < row.len() && 0 <= q < row.len() && p != q implies row[p] != row[q] by {
        lemma_snake(n, p);
        lemma_snake(n, q);
    }
}

/// Exchanging two places of the snake exchanges their cells.
pub proof fn lemma_along_swapped(row: Seq<usize>, n: int, p: int, q: int)
    requires
        0 < n,
        is_board(row, n),
        0 <= p < row.len(),
        0 <= q < row.len(),
    ensures
        along_snake(swapped(row, p, q), n) == swapped(
            along_snake(row, n),
            snake(n, p),
            snake(n, q),
        ),
{
    let left = along_snake(swapped(row, p, q), n);
    let right = swapped(along_snake(row, n), snake(n, p), snake(n, q));
    lemma_snake(n, p);
    lemma_snake(n, q);
    assert forall|c: int| 0 <= c < row.len() implies left[c] == right[c] by {
        lemma_snake(n, c);
    }
    assert(left =~= right);
}

/// Places of the snake that are neighbours belong to cells that share an edge.
pub proof fn lemma_snake_neighbours(n: int, p: int, q: int)
    requires
        0 < n,
        snake_neighbours(n, p, q),
    ensures
        neighbours(n, snake(n, p), snake(n, q)),
{
    lemma_snake(n, p);
    lemma_snake(n, q);
}

/// On the snake, the blank may change places with a neighbour: that is a move.
pub proof fn lemma_snake_move(row: Seq<usize>, n: int, p: int, q: int)
    requires
        0 < n,
        is_board(row, n),
        snake_neighbours(n, p, q),
        row[p] == 0,
    ensures
        is_slide(along_snake(row, n), along_snake(swapped(row, p, q), n), n),
        reachable(along_snake(row, n), along_snake(swapped(row, p, q), n), n),
{
    lemma_snake(n, p);
    lemma_snake(n, q);
    lemma_snake_neighbours(n, p, q);
    lemma_along_swapped(row, n, p, q);
    let before = along_snake(row, n);
    assert(before[snake(n, p)] == 0);
    assert(along_snake(swapped(row, p, q), n) == swapped(before, snake(n, p), snake(n, q)));
    lemma_reachable_step(before, along_snake(swapped(row, p, q), n), n);
}

} // verus!
