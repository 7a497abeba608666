//! Why the linear conflicts, alone and added twice to the distances, change by one
//! at most with each move.
//!
//! A move along a row leaves the order of the tiles in every row as it was, and
//! takes one tile out of a column or puts one into a column; a move along a column
//! does the same with rows and columns exchanged.  A tile that leaves or enters its
//! goal line changes the charges of that line by one at most, and its distance by
//! one the other way.

use vstd::prelude::*;
use crate::board::{
    cell_index, first_index, grid_distance, is_valid_board, lemma_cell_index,
    lemma_first_index_exists, lemma_index_cell, lemma_permutation_has_all,
};
use crate::estimates::lemma_manhattan_two_cells;
use crate::heuristic::{
    charged, column_conflicts, column_line, combined, falls, goal_column, goal_row,
    last_home, linear_conflicts, row_conflicts, row_line, tile_distance,
};
use crate::moves::{is_slide, lemma_slide_valid, neighbours, swapped};

verus! {

/// Lines that agree in their first cells, as far as these count, agree in what
/// they charge there.
pub proof fn lemma_line_same(a: Seq<int>, b: Seq<int>, upto: int)
    requires
        forall|k: int| 0 <= k < upto ==> a[k] == b[k] || (a[k] < 0 && b[k] < 0),
    ensures
        last_home(a, upto) == last_home(b, upto),
        falls(a, upto) == falls(b, upto),
    decreases upto,
{
    if upto > 0 {
        lemma_line_same(a, b, upto - 1);
    }
}

/// The line in which cells `p` and `p + 1` changed places.
pub open spec fn exchanged(line: Seq<int>, p: int) -> Seq<int> {
    line.update(p, line[p + 1]).update(p + 1, line[p])
}

/// Where a tile changes places with a neighbour that does not count, the line
/// charges what it charged.
pub proof fn lemma_line_exchange(line: Seq<int>, p: int, upto: int)
    requires
        0 <= p,
        p + 1 < line.len(),
        line[p] < 0 || line[p + 1] < 0,
        p + 2 <= upto <= line.len(),
    ensures
        last_home(exchanged(line, p), upto) == last_home(line, upto),
        falls(exchanged(line, p), upto) == falls(line, upto),
    decreases upto,
{
    let other = exchanged(line, p);
    if upto == p + 2 {
        lemma_line_same(line, other, p);
        assert(last_home(line, p + 1) == if line[p] >= 0 {
            line[p]
        } else {
            last_home(line, p)
        });
        assert(last_home(other, p + 1) == if other[p] >= 0 {
            other[p]
        } else {
            last_home(other, p)
        });
        assert(falls(line, p + 1) == falls(line, p) + charged(line, p));
        assert(falls(other, p + 1) == falls(other, p) + charged(other, p));
        assert(falls(line, p + 2) == falls(line, p + 1) + charged(line, p + 1));
        assert(falls(other, p + 2) == falls(other, p + 1) + charged(other, p + 1));
    } else {
        lemma_line_exchange(line, p, upto - 1);
        assert(other[upto - 1] == line[upto - 1]);
    }
}

/// Where a tile of the line stops counting, the line charges what it charged or
/// one less.
pub proof fn lemma_line_remove(line: Seq<int>, p: int, upto: int)
    requires
        0 <= p < upto <= line.len(),
        line[p] >= 0,
    ensures
        falls(line, upto) - 1 <= falls(line.update(p, -1), upto) <= falls(line, upto),
        ({
            ||| last_home(line, upto) == last_home(line.update(p, -1), upto)
            ||| {
                &&& last_home(line, upto) == line[p]
                &&& last_home(line.update(p, -1), upto) == last_home(line, p)
                &&& falls(line.update(p, -1), upto) == falls(line, upto) - charged(line, p)
            }
        }),
    decreases upto,
{
    let other = line.update(p, -1);
    if upto == p + 1 {
        lemma_line_same(line, other, p);
        assert(falls(line, p + 1) == falls(line, p) + charged(line, p));
        assert(falls(other, p + 1) == falls(other, p) + charged(other, p));
    } else {
        lemma_line_remove(line, p, upto - 1);
        assert(other[upto - 1] == line[upto - 1]);
    }
}

/// Where the rows of two boards agree as lines, but for rows `y0` and `y1`, the
/// boards differ in their row charges by what these two rows charge.
pub proof fn lemma_rows_apart(
    a: Seq<usize>,
    b: Seq<usize>,
    goal: Seq<usize>,
    n: int,
    y0: int,
    y1: int,
    rows: int,
)
    requires
        y0 != y1,
        forall|y: int|
            0 <= y < rows && y != y0 && y != y1 ==> #[trigger] row_line(a, goal, n, y) == row_line(
                b,
                goal,
                n,
                y,
            ),
    ensures
        row_conflicts(a, goal, n, rows) - row_conflicts(b, goal, n, rows) == (if 0 <= y0 < rows {
            falls(row_line(a, goal, n, y0), n) - falls(row_line(b, goal, n, y0), n)
        } else {
            0
        }) + (if 0 <= y1 < rows {
            falls(row_line(a, goal, n, y1), n) - falls(row_line(b, goal, n, y1), n)
        } else {
            0
        }),
    decreases rows,
{
    if rows > 0 {
        lemma_rows_apart(a, b, goal, n, y0, y1, rows - 1);
        if rows - 1 != y0 && rows - 1 != y1 {
            assert(row_line(a, goal, n, rows - 1) == row_line(b, goal, n, rows - 1));
        }
    }
}

/// Where the columns of two boards agree as lines, but for columns `x0` and `x1`,
/// the boards differ in their column charges by what these two columns charge.
pub proof fn lemma_columns_apart(
    a: Seq<usize>,
    b: Seq<usize>,
    goal: Seq<usize>,
    n: int,
    x0: int,
    x1: int,
    columns: int,
)
    requires
        x0 != x1,
        forall|x: int|
            0 <= x < columns && x != x0 && x != x1 ==> #[trigger] column_line(a, goal, n, x)
                == column_line(b, goal, n, x),
    ensures
        column_conflicts(a, goal, n, columns) - column_conflicts(b, goal, n, columns) == (if 0
            <= x0 < columns {
            falls(column_line(a, goal, n, x0), n) - falls(column_line(b, goal, n, x0), n)
        } else {
            0
        }) + (if 0 <= x1 < columns {
            falls(column_line(a, goal, n, x1), n) - falls(column_line(b, goal, n, x1), n)
        } else {
            0
        }),
    decreases columns,
{
    if columns > 0 {
        lemma_columns_apart(a, b, goal, n, x0, x1, columns - 1);
        if columns - 1 != x0 && columns - 1 != x1 {
            assert(column_line(a, goal, n, columns - 1) == column_line(b, goal, n, columns - 1));
        }
    }
}

/// What a line charges after a cell of it stopped to count or began to count:
/// what it charged, or one less or one more.
pub proof fn lemma_line_changed(before: Seq<int>, after: Seq<int>, p: int)
    requires
        0 <= p < before.len(),
        after == before.update(p, -1),
    ensures
        falls(before, before.len() as int) - 1 <= falls(after, before.len() as int) <= falls(
            before,
            before.len() as int,
        ),
{
    if before[p] >= 0 {
        lemma_line_remove(before, p, before.len() as int);
    } else {
        lemma_line_same(before, after, before.len() as int);
    }
}

/// What a move along a row does to the charges: those of the rows stay, those of
/// the columns change only where the tile leaves or enters its goal column.
pub proof fn lemma_move_along_row(
    before: Seq<usize>,
    after: Seq<usize>,
    goal: Seq<usize>,
    n: int,
    i: int,
    j: int,
)
    requires
        is_valid_board(before, n),
        is_valid_board(goal, n),
        neighbours(n, i, j),
        i / n == j / n,
        before[i] == 0,
        after == swapped(before, i, j),
    ensures
        row_conflicts(after, goal, n, n) == row_conflicts(before, goal, n, n),
        goal_column(goal, n, before[j]) == j % n ==> 0 <= column_conflicts(before, goal, n, n) - column_conflicts(after, goal, n, n) <= 1,
        goal_column(goal, n, before[j]) == i % n ==> -1 <= column_conflicts(before, goal, n, n) - column_conflicts(after, goal, n, n) <= 0,
        goal_column(goal, n, before[j]) != j % n && goal_column(goal, n, before[j]) != i % n
            ==> column_conflicts(before, goal, n, n) == column_conflicts(after, goal, n, n),
{
    lemma_index_cell(n, i);
    lemma_index_cell(n, j);
    let own = i / n;
    let from = j % n;
    let to = i % n;
    let tile = before[j];
    assert(tile != 0) by {
        assert(before[j] != before[i]);
    }
    // the lines along the move
    assert forall|k: int| 0 <= k < n && k != own implies #[trigger] row_line(before, goal, n, k)
        == row_line(after, goal, n, k) by {
        let left = row_line(before, goal, n, k);
        let right = row_line(after, goal, n, k);
        assert forall|m: int| 0 <= m < n implies left[m] == right[m] by {
            lemma_cell_index(n, m, k);
            assert(after[cell_index(n, m, k)] == before[cell_index(n, m, k)]);
        }
        assert(left =~= right);
    }
    let low = if from < to {
        from
    } else {
        to
    };
    let line = row_line(before, goal, n, own);
    assert(row_line(after, goal, n, own) =~= exchanged(line, low)) by {
        let right = row_line(after, goal, n, own);
        let wanted = exchanged(line, low);
        assert forall|m: int| 0 <= m < n implies right[m] == wanted[m] by {
            lemma_cell_index(n, m, own);
            if m != from && m != to {
                assert(after[cell_index(n, m, own)] == before[cell_index(n, m, own)]);
            }
        }
    }
    lemma_line_exchange(line, low, n);
    lemma_rows_apart(before, after, goal, n, own, -1, n);
    // the lines across the move
    let here = j % n;
    let there = i % n;
    assert forall|k: int| 0 <= k < n && k != here && k != there implies #[trigger] column_line(before, goal, n, k)
        == column_line(after, goal, n, k) by {
        let left = column_line(before, goal, n, k);
        let right = column_line(after, goal, n, k);
        assert forall|m: int| 0 <= m < n implies left[m] == right[m] by {
            lemma_cell_index(n, k, m);
            assert(after[cell_index(n, k, m)] == before[cell_index(n, k, m)]);
        }
        assert(left =~= right);
    }
    let left_here = column_line(before, goal, n, here);
    let right_here = column_line(after, goal, n, here);
    assert(right_here =~= left_here.update(own, -1)) by {
        let wanted = left_here.update(own, -1);
        assert forall|m: int| 0 <= m < n implies right_here[m] == wanted[m] by {
            lemma_cell_index(n, here, m);
            if m != own {
                assert(after[cell_index(n, here, m)] == before[cell_index(n, here, m)]);
            }
        }
    }
    lemma_line_changed(left_here, right_here, own);
    if left_here[own] < 0 {
        lemma_line_same(left_here, right_here, n);
    }
    let left_there = column_line(before, goal, n, there);
    let right_there = column_line(after, goal, n, there);
    assert(left_there =~= right_there.update(own, -1)) by {
        let wanted = right_there.update(own, -1);
        assert forall|m: int| 0 <= m < n implies left_there[m] == wanted[m] by {
            lemma_cell_index(n, there, m);
            if m != own {
                assert(after[cell_index(n, there, m)] == before[cell_index(n, there, m)]);
            }
        }
    }
    lemma_line_changed(right_there, left_there, own);
    if right_there[own] < 0 {
        lemma_line_same(left_there, right_there, n);
    }
    lemma_columns_apart(before, after, goal, n, here, there, n);
}

/// What a move along a column does to the charges: those of the columns stay, those of
/// the rows change only where the tile leaves or enters its goal row.
pub proof fn lemma_move_along_column(
    before: Seq<usize>,
    after: Seq<usize>,
    goal: Seq<usize>,
    n: int,
    i: int,
    j: int,
)
    requires
        is_valid_board(before, n),
        is_valid_board(goal, n),
        neighbours(n, i, j),
        i % n == j % n,
        before[i] == 0,
        after == swapped(before, i, j),
    ensures
        column_conflicts(after, goal, n, n) == column_conflicts(before, goal, n, n),
        goal_row(goal, n, before[j]) == j / n ==> 0 <= row_conflicts(before, goal, n, n) - row_conflicts(after, goal, n, n) <= 1,
        goal_row(goal, n, before[j]) == i / n ==> -1 <= row_conflicts(before, goal, n, n) - row_conflicts(after, goal, n, n) <= 0,
        goal_row(goal, n, before[j]) != j / n && goal_row(goal, n, before[j]) != i / n
            ==> row_conflicts(before, goal, n, n) == row_conflicts(after, goal, n, n),
{
    lemma_index_cell(n, i);
    lemma_index_cell(n, j);
    let own = i % n;
    let from = j / n;
    let to = i / n;
    let tile = before[j];
    assert(tile != 0) by {
        assert(before[j] != before[i]);
    }
    // the lines along the move
    assert forall|k: int| 0 <= k < n && k != own implies #[trigger] column_line(before, goal, n, k)
        == column_line(after, goal, n, k) by {
        let left = column_line(before, goal, n, k);
        let right = column_line(after, goal, n, k);
        assert forall|m: int| 0 <= m < n implies left[m] == right[m] by {
            lemma_cell_index(n, k, m);
            assert(after[cell_index(n, k, m)] == before[cell_index(n, k, m)]);
        }
        assert(left =~= right);
    }
    let low = if from < to {
        from
    } else {
        to
    };
    let line = column_line(before, goal, n, own);
    assert(column_line(after, goal, n, own) =~= exchanged(line, low)) by {
        let right = column_line(after, goal, n, own);
        let wanted = exchanged(line, low);
        assert forall|m: int| 0 <= m < n implies right[m] == wanted[m] by {
            lemma_cell_index(n, own, m);
            if m != from && m != to {
                assert(after[cell_index(n, own, m)] == before[cell_index(n, own, m)]);
            }
        }
    }
    lemma_line_exchange(line, low, n);
    lemma_columns_apart(before, after, goal, n, own, -1, n);
    // the lines across the move
    let here = j / n;
    let there = i / n;
    assert forall|k: int| 0 <= k < n && k != here && k != there implies #[trigger] row_line(before, goal, n, k)
        == row_line(after, goal, n, k) by {
        let left = row_line(before, goal, n, k);
        let right = row_line(after, goal, n, k);
        assert forall|m: int| 0 <= m < n implies left[m] == right[m] by {
            lemma_cell_index(n, m, k);
            assert(after[cell_index(n, m, k)] == before[cell_index(n, m, k)]);
        }
        assert(left =~= right);
    }
    let left_here = row_line(before, goal, n, here);
    let right_here = row_line(after, goal, n, here);
    assert(right_here =~= left_here.update(own, -1)) by {
        let wanted = left_here.update(own, -1);
        assert forall|m: int| 0 <= m < n implies right_here[m] == wanted[m] by {
            lemma_cell_index(n, m, here);
            if m != own {
                assert(after[cell_index(n, m, here)] == before[cell_index(n, m, here)]);
            }
        }
    }
    lemma_line_changed(left_here, right_here, own);
    if left_here[own] < 0 {
        lemma_line_same(left_here, right_here, n);
    }
    let left_there = row_line(before, goal, n, there);
    let right_there = row_line(after, goal, n, there);
    assert(left_there =~= right_there.update(own, -1)) by {
        let wanted = right_there.update(own, -1);
        assert forall|m: int| 0 <= m < n implies left_there[m] == wanted[m] by {
            lemma_cell_index(n, m, there);
            if m != own {
                assert(after[cell_index(n, m, there)] == before[cell_index(n, m, there)]);
            }
        }
    }
    lemma_line_changed(right_there, left_there, own);
    if right_there[own] < 0 {
        lemma_line_same(left_there, right_there, n);
    }
    lemma_rows_apart(before, after, goal, n, here, there, n);
}

/// One move changes the linear conflicts by one at most, and so the distances
/// plus twice the conflicts.
pub proof fn lemma_conflict_step(
    before: Seq<usize>,
    after: Seq<usize>,
    goal: Seq<usize>,
    n: int,
)
    requires
        is_valid_board(before, n),
        is_valid_board(goal, n),
        is_slide(before, after, n),
    ensures
        linear_conflicts(before, goal, n) <= linear_conflicts(after, goal, n) + 1,
        linear_conflicts(after, goal, n) <= linear_conflicts(before, goal, n) + 1,
        combined(before, goal, n) <= combined(after, goal, n) + 1,
        combined(after, goal, n) <= combined(before, goal, n) + 1,
{
    let (i, j) = choose|i: int, j: int|
        neighbours(n, i, j) && before[i] == 0 && after == #[trigger] swapped(before, i, j);
    lemma_slide_valid(before, after, n);
    assert(i != j);
    assert(before[j] != before[i]);
    lemma_manhattan_two_cells(before, after, goal, n, i, j, before.len() as int);
    lemma_permutation_has_all(goal, before[j]);
    lemma_first_index_exists(goal, before[j]);
    let g = first_index(goal, before[j]);
    lemma_index_cell(n, i);
    lemma_index_cell(n, j);
    lemma_index_cell(n, g);
    assert(tile_distance(before, goal, n, i) == 0);
    assert(tile_distance(after, goal, n, j) == 0);
    assert(tile_distance(after, goal, n, i) == grid_distance(i % n, i / n, g % n, g / n));
    assert(tile_distance(before, goal, n, j) == grid_distance(j % n, j / n, g % n, g / n));
    if i / n == j / n {
        lemma_move_along_row(before, after, goal, n, i, j);
    } else {
        lemma_move_along_column(before, after, goal, n, i, j);
    }
}

} // verus!
