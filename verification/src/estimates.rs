//! What the estimates promise: all of them vanish at the goal, three of them there
//! alone, and none exceeds the number of moves that are left.

use vstd::prelude::*;
use crate::board::{
    cell_index, first_index, grid_distance, is_valid_board, lemma_cell_index,
    lemma_first_index_exists, lemma_index_cell, lemma_permutation_first_index,
    lemma_permutation_has_all,
};
use crate::conflicts::lemma_conflict_step;
use crate::heuristic::{
    charged, column_conflicts, column_line, combined, falls, hamming, hamming_upto, last_home,
    lemma_falls_bounds, linear_conflicts, manhattan, manhattan_upto, misplaced, row_conflicts,
    row_line, tile_distance, Heuristic,
};
use crate::moves::{is_path, is_slide, lemma_slide_valid, neighbours, swapped};

verus! {

/// The count of misplaced tiles is zero exactly when none of the cells counted is
/// misplaced.
pub proof fn lemma_hamming_upto(cells: Seq<usize>, goal: Seq<usize>, upto: int)
    ensures
        0 <= hamming_upto(cells, goal, upto),
        hamming_upto(cells, goal, upto) == 0 <==> forall|i: int|
            0 <= i < upto ==> !misplaced(cells, goal, i),
    decreases upto,
{
    if upto > 0 {
        lemma_hamming_upto(cells, goal, upto - 1);
        if hamming_upto(cells, goal, upto) == 0 {
            assert forall|i: int| 0 <= i < upto implies !misplaced(cells, goal, i) by {}
        } else if forall|i: int| 0 <= i < upto ==> !misplaced(cells, goal, i) {
            assert(!misplaced(cells, goal, upto - 1));
        }
    }
}

/// A valid board on which no tile is misplaced is the goal: the blank has one cell
/// left to stand in.
pub proof fn lemma_nothing_misplaced(cells: Seq<usize>, goal: Seq<usize>, n: int)
    requires
        is_valid_board(cells, n),
        is_valid_board(goal, n),
        forall|i: int| 0 <= i < cells.len() ==> !misplaced(cells, goal, i),
    ensures
        cells == goal,
{
    assert(0 < cells.len()) by (nonlinear_arith)
        requires
            cells.len() == n * n,
            2 <= n,
    ;
    lemma_permutation_has_all(cells, 0);
    let blank = choose|i: int| 0 <= i < cells.len() && cells[i] == 0usize;
    assert forall|i: int| 0 <= i < cells.len() implies cells[i] == goal[i] by {
        assert(!misplaced(cells, goal, i));
        if i == blank && goal[blank] != 0 {
            lemma_permutation_has_all(cells, goal[blank]);
            let other = choose|j: int| 0 <= j < cells.len() && cells[j] == goal[blank];
            assert(!misplaced(cells, goal, other));
            assert(goal[other] == goal[blank]);
        } else if i != blank {
            assert(cells[i] != cells[blank]);
        }
    }
    assert(cells =~= goal);
}

/// The number of misplaced tiles is zero at the goal and nowhere else.
pub proof fn lemma_hamming_zero(cells: Seq<usize>, goal: Seq<usize>, n: int)
    requires
        is_valid_board(cells, n),
        is_valid_board(goal, n),
    ensures
        hamming(cells, goal) == 0 <==> cells == goal,
{
    lemma_hamming_upto(cells, goal, cells.len() as int);
    if hamming(cells, goal) == 0 {
        lemma_nothing_misplaced(cells, goal, n);
    }
}

/// A tile stands at no distance from its place exactly when it is not misplaced.
pub proof fn lemma_tile_in_place(cells: Seq<usize>, goal: Seq<usize>, n: int, i: int)
    requires
        is_valid_board(cells, n),
        is_valid_board(goal, n),
        0 <= i < cells.len(),
    ensures
        0 <= tile_distance(cells, goal, n, i),
        tile_distance(cells, goal, n, i) == 0 <==> !misplaced(cells, goal, i),
{
    lemma_permutation_has_all(goal, cells[i]);
    lemma_first_index_exists(goal, cells[i]);
    let j = first_index(goal, cells[i]);
    lemma_index_cell(n, i);
    lemma_index_cell(n, j);
    lemma_permutation_first_index(goal, i);
}

/// The sum of the distances is zero exactly when every tile counted stands at no
/// distance from its place.
pub proof fn lemma_manhattan_upto(cells: Seq<usize>, goal: Seq<usize>, n: int, upto: int)
    requires
        is_valid_board(cells, n),
        is_valid_board(goal, n),
        0 <= upto <= cells.len(),
    ensures
        0 <= manhattan_upto(cells, goal, n, upto),
        manhattan_upto(cells, goal, n, upto) == 0 <==> forall|i: int|
            0 <= i < upto ==> !misplaced(cells, goal, i),
    decreases upto,
{
    if upto > 0 {
        lemma_manhattan_upto(cells, goal, n, upto - 1);
        lemma_tile_in_place(cells, goal, n, upto - 1);
        if manhattan_upto(cells, goal, n, upto) == 0 {
            assert forall|i: int| 0 <= i < upto implies !misplaced(cells, goal, i) by {}
        } else if forall|i: int| 0 <= i < upto ==> !misplaced(cells, goal, i) {
            assert(!misplaced(cells, goal, upto - 1));
        }
    }
}

/// The sum of the distances is zero at the goal and nowhere else.
pub proof fn lemma_manhattan_zero(cells: Seq<usize>, goal: Seq<usize>, n: int)
    requires
        is_valid_board(cells, n),
        is_valid_board(goal, n),
    ensures
        0 <= manhattan(cells, goal, n),
        manhattan(cells, goal, n) == 0 <==> cells == goal,
{
    lemma_manhattan_upto(cells, goal, n, cells.len() as int);
    if manhattan(cells, goal, n) == 0 {
        lemma_nothing_misplaced(cells, goal, n);
    }
}

/// In a line whose tiles stand where they belong, the last tile before a cell
/// belongs before that cell, and none is charged.
pub proof fn lemma_line_in_order(line: Seq<int>, upto: int)
    requires
        0 <= upto <= line.len(),
        forall|k: int| 0 <= k < line.len() ==> (#[trigger] line[k]) == -1 || line[k] == k,
    ensures
        last_home(line, upto) < upto,
        falls(line, upto) == 0,
    decreases upto,
{
    if upto > 0 {
        lemma_line_in_order(line, upto - 1);
    }
}

/// No board has fewer than no conflicts in its rows.
pub proof fn lemma_row_conflicts_bounds(cells: Seq<usize>, goal: Seq<usize>, n: int, rows: int)
    requires
        0 <= n,
    ensures
        0 <= row_conflicts(cells, goal, n, rows),
    decreases rows,
{
    if rows > 0 {
        lemma_row_conflicts_bounds(cells, goal, n, rows - 1);
        lemma_falls_bounds(row_line(cells, goal, n, rows - 1), n);
    }
}

/// No board has fewer than no conflicts in its columns.
pub proof fn lemma_column_conflicts_bounds(
    cells: Seq<usize>,
    goal: Seq<usize>,
    n: int,
    columns: int,
)
    requires
        0 <= n,
    ensures
        0 <= column_conflicts(cells, goal, n, columns),
    decreases columns,
{
    if columns > 0 {
        lemma_column_conflicts_bounds(cells, goal, n, columns - 1);
        lemma_falls_bounds(column_line(cells, goal, n, columns - 1), n);
    }
}

/// The goal has no conflicts in its first rows and columns.
pub proof fn lemma_goal_lines(goal: Seq<usize>, n: int, upto: int)
    requires
        is_valid_board(goal, n),
        0 <= upto <= n,
    ensures
        row_conflicts(goal, goal, n, upto) == 0,
        column_conflicts(goal, goal, n, upto) == 0,
    decreases upto,
{
    if upto > 0 {
        lemma_goal_lines(goal, n, upto - 1);
        let row = row_line(goal, goal, n, upto - 1);
        let column = column_line(goal, goal, n, upto - 1);
        assert forall|k: int| 0 <= k < n implies (#[trigger] row[k]) == -1 || row[k] == k by {
            lemma_cell_index(n, k, upto - 1);
            lemma_permutation_first_index(goal, cell_index(n, k, upto - 1));
        }
        assert forall|k: int| 0 <= k < n implies (#[trigger] column[k]) == -1 || column[k]
            == k by {
            lemma_cell_index(n, upto - 1, k);
            lemma_permutation_first_index(goal, cell_index(n, upto - 1, k));
        }
        lemma_line_in_order(row, n);
        lemma_line_in_order(column, n);
    }
}

/// At the goal no conflict is charged.  Away from the goal there may be none
/// either, so the conflicts alone do not tell the goal.
pub proof fn lemma_linear_conflicts_at_goal(goal: Seq<usize>, n: int)
    requires
        is_valid_board(goal, n),
    ensures
        linear_conflicts(goal, goal, n) == 0,
{
    lemma_goal_lines(goal, n, n);
}

/// No board has fewer than no conflicts.
pub proof fn lemma_linear_conflicts_bounds(cells: Seq<usize>, goal: Seq<usize>, n: int)
    requires
        0 <= n,
    ensures
        0 <= linear_conflicts(cells, goal, n),
{
    lemma_row_conflicts_bounds(cells, goal, n, n);
    lemma_column_conflicts_bounds(cells, goal, n, n);
}

/// The distances plus twice the conflicts are zero at the goal and nowhere else.
pub proof fn lemma_combined_zero(cells: Seq<usize>, goal: Seq<usize>, n: int)
    requires
        is_valid_board(cells, n),
        is_valid_board(goal, n),
    ensures
        combined(cells, goal, n) == 0 <==> cells == goal,
{
    lemma_manhattan_zero(cells, goal, n);
    lemma_linear_conflicts_bounds(cells, goal, n);
    if cells == goal {
        lemma_linear_conflicts_at_goal(goal, n);
    }
}

/// Each estimate is zero at the goal; the count of misplaced tiles, the sum of the
/// distances and the combined estimate are zero nowhere else.
pub proof fn lemma_estimate_zero(heuristic: Heuristic, cells: Seq<usize>, goal: Seq<usize>, n: int)
    requires
        is_valid_board(cells, n),
        is_valid_board(goal, n),
    ensures
        cells == goal ==> heuristic.value(cells, goal, n) == 0,
        0 <= heuristic.value(cells, goal, n),
        heuristic != Heuristic::LinearConflict ==> (heuristic.value(cells, goal, n) == 0
            <==> cells == goal),
{
    lemma_hamming_zero(cells, goal, n);
    lemma_hamming_upto(cells, goal, cells.len() as int);
    lemma_manhattan_zero(cells, goal, n);
    lemma_combined_zero(cells, goal, n);
    lemma_linear_conflicts_bounds(cells, goal, n);
    if cells == goal {
        lemma_linear_conflicts_at_goal(goal, n);
    }
}

/// Where two boards differ in cells `i` and `j` at most, the sums of their
/// distances differ by what these two cells add.
pub proof fn lemma_manhattan_two_cells(
    a: Seq<usize>,
    b: Seq<usize>,
    goal: Seq<usize>,
    n: int,
    i: int,
    j: int,
    upto: int,
)
    requires
        a.len() == b.len(),
        0 <= upto <= a.len(),
        i != j,
        forall|k: int| 0 <= k < a.len() && k != i && k != j ==> a[k] == b[k],
    ensures
        manhattan_upto(a, goal, n, upto) - manhattan_upto(b, goal, n, upto) == (if 0 <= i < upto {
            tile_distance(a, goal, n, i) - tile_distance(b, goal, n, i)
        } else {
            0
        }) + (if 0 <= j < upto {
            tile_distance(a, goal, n, j) - tile_distance(b, goal, n, j)
        } else {
            0
        }),
    decreases upto,
{
    if upto > 0 {
        lemma_manhattan_two_cells(a, b, goal, n, i, j, upto - 1);
    }
}

/// Where two boards differ in cells `i` and `j` at most, the counts of their
/// misplaced tiles differ by what these two cells add.
pub proof fn lemma_hamming_two_cells(
    a: Seq<usize>,
    b: Seq<usize>,
    goal: Seq<usize>,
    i: int,
    j: int,
    upto: int,
)
    requires
        a.len() == b.len(),
        0 <= upto <= a.len(),
        i != j,
        forall|k: int| 0 <= k < a.len() && k != i && k != j ==> a[k] == b[k],
    ensures
        hamming_upto(a, goal, upto) - hamming_upto(b, goal, upto) == (if 0 <= i < upto {
            (if misplaced(a, goal, i) {
                1int
            } else {
                0int
            }) - (if misplaced(b, goal, i) {
                1int
            } else {
                0int
            })
        } else {
            0
        }) + (if 0 <= j < upto {
            (if misplaced(a, goal, j) {
                1int
            } else {
                0int
            }) - (if misplaced(b, goal, j) {
                1int
            } else {
                0int
            })
        } else {
            0
        }),
    decreases upto,
{
    if upto > 0 {
        lemma_hamming_two_cells(a, b, goal, i, j, upto - 1);
    }
}

/// One move changes the sum of the distances by one at most.
pub proof fn lemma_manhattan_step(before: Seq<usize>, after: Seq<usize>, goal: Seq<usize>, n: int)
    requires
        is_valid_board(before, n),
        is_valid_board(goal, n),
        is_slide(before, after, n),
    ensures
        manhattan(before, goal, n) <= manhattan(after, goal, n) + 1,
        manhattan(after, goal, n) <= manhattan(before, goal, n) + 1,
{
    let (i, j) = choose|i: int, j: int|
        neighbours(n, i, j) && before[i] == 0 && after == #[trigger] swapped(before, i, j);
    lemma_slide_valid(before, after, n);
    assert(i != j);
    assert(before[j] != before[i]);
    lemma_manhattan_two_cells(before, after, goal, n, i, j, before.len() as int);
    lemma_permutation_has_all(goal, before[j]);
    lemma_first_index_exists(goal, before[j]);
    let g = first_index(goal, before[j]);
    lemma_index_cell(n, i);
    lemma_index_cell(n, j);
    lemma_index_cell(n, g);
    assert(tile_distance(before, goal, n, i) == 0);
    assert(tile_distance(after, goal, n, j) == 0);
    assert(tile_distance(after, goal, n, i) == grid_distance(i % n, i / n, g % n, g / n));
    assert(tile_distance(before, goal, n, j) == grid_distance(j % n, j / n, g % n, g / n));
}

/// One move changes the number of misplaced tiles by one at most.
pub proof fn lemma_hamming_step(before: Seq<usize>, after: Seq<usize>, goal: Seq<usize>, n: int)
    requires
        is_valid_board(before, n),
        is_valid_board(goal, n),
        is_slide(before, after, n),
    ensures
        hamming(before, goal) <= hamming(after, goal) + 1,
        hamming(after, goal) <= hamming(before, goal) + 1,
{
    let (i, j) = choose|i: int, j: int|
        neighbours(n, i, j) && before[i] == 0 && after == #[trigger] swapped(before, i, j);
    assert(i != j);
    lemma_hamming_two_cells(before, after, goal, i, j, before.len() as int);
    assert(!misplaced(before, goal, i));
    assert(!misplaced(after, goal, j));
}

/// Every estimate changes by one at most with each move.
pub proof fn lemma_steady_step(
    heuristic: Heuristic,
    before: Seq<usize>,
    after: Seq<usize>,
    goal: Seq<usize>,
    n: int,
)
    requires
        is_valid_board(before, n),
        is_valid_board(goal, n),
        is_slide(before, after, n),
    ensures
        heuristic.value(before, goal, n) <= heuristic.value(after, goal, n) + 1,
{
    lemma_manhattan_step(before, after, goal, n);
    lemma_hamming_step(before, after, goal, n);
    lemma_conflict_step(before, after, goal, n);
}

/// An estimate falls short of the length of any chain of moves by what it says of
/// the chain's end.
pub proof fn lemma_steady_along(
    heuristic: Heuristic,
    path: Seq<Seq<usize>>,
    goal: Seq<usize>,
    n: int,
    k: int,
)
    requires
        is_valid_board(goal, n),
        path.len() > 0,
        is_valid_board(path[0], n),
        forall|j: int| 0 <= j < path.len() - 1 ==> is_slide(#[trigger] path[j], path[j + 1], n),
        0 <= k < path.len(),
    ensures
        is_valid_board(path[k], n),
        heuristic.value(path[0], goal, n) <= k + heuristic.value(path[k], goal, n),
    decreases k,
{
    if k > 0 {
        lemma_steady_along(heuristic, path, goal, n, k - 1);
        assert(is_slide(path[k - 1], path[k], n));
        lemma_slide_valid(path[k - 1], path[k], n);
        lemma_steady_step(heuristic, path[k - 1], path[k], goal, n);
    }
}

/// No estimate exceeds the number of moves of a chain that leads to the goal.
pub proof fn lemma_admissible(
    heuristic: Heuristic,
    path: Seq<Seq<usize>>,
    cells: Seq<usize>,
    goal: Seq<usize>,
    n: int,
)
    requires
        is_valid_board(cells, n),
        is_valid_board(goal, n),
        is_path(path, cells, goal, n),
    ensures
        heuristic.value(cells, goal, n) <= path.len() - 1,
{
    lemma_steady_along(heuristic, path, goal, n, path.len() - 1);
    lemma_estimate_zero(heuristic, goal, goal, n);
}

/// The distances plus twice the linear conflicts never exceed the number of moves
/// of a chain that leads to the goal.
pub proof fn lemma_combined_admissible(
    path: Seq<Seq<usize>>,
    cells: Seq<usize>,
    goal: Seq<usize>,
    n: int,
)
    requires
        is_valid_board(cells, n),
        is_valid_board(goal, n),
        is_path(path, cells, goal, n),
    ensures
        combined(cells, goal, n) <= path.len() - 1,
{
    lemma_admissible(Heuristic::ManhattanLinearConflict, path, cells, goal, n);
}

/// The sum of the distances never exceeds the number of moves of a chain that
/// leads to the goal.
pub proof fn lemma_manhattan_admissible(
    path: Seq<Seq<usize>>,
    cells: Seq<usize>,
    goal: Seq<usize>,
    n: int,
)
    requires
        is_valid_board(cells, n),
        is_valid_board(goal, n),
        is_path(path, cells, goal, n),
    ensures
        manhattan(cells, goal, n) <= path.len() - 1,
{
    lemma_admissible(Heuristic::Manhattan, path, cells, goal, n);
}

} // verus!
