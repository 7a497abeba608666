//! When a board can be brought into the goal: the parity of its inversions.
//!
//! An inversion is a pair of tiles of which the larger stands first in row-major
//! order; the blank takes part in none.  A board can reach the goal exactly when its
//! inversions have the parity of the goal's, once the distance of the blank's row to
//! the bottom row is added on boards of even side.

use vstd::prelude::*;
use crate::spiral::goal_cells;

verus! {

/// One if the tiles at `i` and `j` form an inversion, else zero.
pub open spec fn inverted(cells: Seq<usize>, i: int, j: int) -> int {
    if cells[i] > cells[j] && cells[j] != 0 {
        1
    } else {
        0
    }
}

/// The number of inversions that the tile at `i` forms with the cells after it and
/// before `upto`.
pub open spec fn inversions_after(cells: Seq<usize>, i: int, upto: int) -> int
    decreases upto - i,
{
    if upto <= i + 1 {
        0
    } else {
        inversions_after(cells, i, upto - 1) + inverted(cells, i, upto - 1)
    }
}

/// The number of inversions whose first tile stands before index `rows`.
pub open spec fn inversions_before(cells: Seq<usize>, rows: int) -> int
    decreases rows,
{
    if rows <= 0 {
        0
    } else {
        inversions_before(cells, rows - 1) + inversions_after(cells, rows - 1, cells.len() as int)
    }
}

/// The number of inversions of the board.
pub open spec fn inversion_count(cells: Seq<usize>) -> int {
    inversions_before(cells, cells.len() as int)
}

/// The index of the last blank among the first `upto` cells; zero if there is none.
pub open spec fn last_blank(cells: Seq<usize>, upto: int) -> int
    decreases upto,
{
    if upto <= 0 {
        0
    } else if cells[upto - 1] == 0 {
        upto - 1
    } else {
        last_blank(cells, upto - 1)
    }
}

/// How many rows the blank stands above the bottom row.
pub open spec fn blank_rows_from_bottom(cells: Seq<usize>, n: int) -> int {
    n - 1 - last_blank(cells, cells.len() as int) / n
}

/// The number whose parity decides: the inversions, and on a board of even side the
/// rows between the blank and the bottom.
pub open spec fn parity_key(cells: Seq<usize>, n: int) -> int {
    if n % 2 == 0 {
        inversion_count(cells) + blank_rows_from_bottom(cells, n)
    } else {
        inversion_count(cells)
    }
}

/// The board has the parity of the goal of its side.
pub open spec fn is_solvable_board(cells: Seq<usize>, n: int) -> bool {
    parity_key(cells, n) % 2 == parity_key(goal_cells(n), n) % 2
}

/// The goal can be brought into itself.
pub proof fn lemma_goal_is_solvable(n: int)
    ensures
        is_solvable_board(goal_cells(n), n),
{
}

/// Counting further never lowers the count.
pub proof fn lemma_inversions_after_grows(cells: Seq<usize>, i: int, a: int, b: int)
    requires
        a <= b,
    ensures
        0 <= inversions_after(cells, i, a) <= inversions_after(cells, i, b),
    decreases b - a, b - i,
{
    if a < b {
        lemma_inversions_after_grows(cells, i, a, b - 1);
        if b <= i + 1 {
            assert(inversions_after(cells, i, b) == 0);
            assert(inversions_after(cells, i, a) == 0);
        }
    } else {
        lemma_inversions_after_nonnegative(cells, i, a);
    }
}

/// A tile has no fewer than no inversions.
proof fn lemma_inversions_after_nonnegative(cells: Seq<usize>, i: int, a: int)
    ensures
        0 <= inversions_after(cells, i, a),
    decreases a - i,
{
    if a > i + 1 {
        lemma_inversions_after_nonnegative(cells, i, a - 1);
    }
}

/// Counting more rows never lowers the count.
pub proof fn lemma_inversions_before_grows(cells: Seq<usize>, a: int, b: int)
    requires
        a <= b,
    ensures
        0 <= inversions_before(cells, a) <= inversions_before(cells, b),
    decreases b - a, b,
{
    if a < b {
        lemma_inversions_before_grows(cells, a, b - 1);
        if b > 0 {
            lemma_inversions_after_nonnegative(cells, b - 1, cells.len() as int);
        } else {
            assert(inversions_before(cells, b) == 0);
            assert(inversions_before(cells, a) == 0);
        }
    } else {
        lemma_inversions_before_nonnegative(cells, a);
    }
}

/// The first tiles have no fewer than no inversions.
proof fn lemma_inversions_before_nonnegative(cells: Seq<usize>, a: int)
    ensures
        0 <= inversions_before(cells, a),
    decreases a,
{
    if a > 0 {
        lemma_inversions_before_nonnegative(cells, a - 1);
        lemma_inversions_after_nonnegative(cells, a - 1, cells.len() as int);
    }
}

/// The last blank lies on the board.
pub proof fn lemma_last_blank_bounds(cells: Seq<usize>, upto: int)
    requires
        0 <= upto <= cells.len(),
    ensures
        0 <= last_blank(cells, upto),
        upto > 0 ==> last_blank(cells, upto) < upto,
    decreases upto,
{
    if upto > 0 && cells[upto - 1] != 0 {
        lemma_last_blank_bounds(cells, upto - 1);
    }
}

} // verus!
