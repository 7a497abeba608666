//! Estimates of the number of moves that separate a state from the goal.

use vstd::prelude::*;
use crate::board::{
    cell_index, first_index, grid_distance, has_value, is_valid_board, lemma_cell_index,
    lemma_first_index_exists, lemma_index_cell, lemma_permutation_first_index,
    lemma_permutation_has_all,
};
use crate::puzzle::Puzzle;

verus! {

/// The tile of cell `i` is no blank and differs from the goal's.
pub open spec fn misplaced(cells: Seq<usize>, goal: Seq<usize>, i: int) -> bool {
    cells[i] != goal[i] && cells[i] != 0
}

/// The number of misplaced tiles among the first `upto` cells.
pub open spec fn hamming_upto(cells: Seq<usize>, goal: Seq<usize>, upto: int) -> int
    decreases upto,
{
    if upto <= 0 {
        0
    } else {
        hamming_upto(cells, goal, upto - 1) + if misplaced(cells, goal, upto - 1) {
            1int
        } else {
            0int
        }
    }
}

/// The number of tiles that do not stand where the goal has them.
pub open spec fn hamming(cells: Seq<usize>, goal: Seq<usize>) -> int {
    hamming_upto(cells, goal, cells.len() as int)
}

/// How far the tile of cell `i` stands from the cell where the goal has it; zero
/// for the blank.
pub open spec fn tile_distance(cells: Seq<usize>, goal: Seq<usize>, n: int, i: int) -> int {
    if cells[i] != 0 {
        let j = first_index(goal, cells[i]);
        grid_distance(i % n, i / n, j % n, j / n)
    } else {
        0
    }
}

/// The sum of the tile distances over the first `upto` cells.
pub open spec fn manhattan_upto(cells: Seq<usize>, goal: Seq<usize>, n: int, upto: int) -> int
    decreases upto,
{
    if upto <= 0 {
        0
    } else {
        manhattan_upto(cells, goal, n, upto - 1) + tile_distance(cells, goal, n, upto - 1)
    }
}

/// The sum over all tiles of their distance to the cell where the goal has them.
pub open spec fn manhattan(cells: Seq<usize>, goal: Seq<usize>, n: int) -> int {
    manhattan_upto(cells, goal, n, cells.len() as int)
}

/// The tiles that stand in row `y` between the column of `value` and the column
/// where the goal has it, the goal's column included, walking from the tile.
pub open spec fn row_candidates(
    cells: Seq<usize>,
    goal: Seq<usize>,
    n: int,
    value: usize,
    y: int,
) -> Seq<usize> {
    let final_x = first_index(goal, value) % n;
    let current_x = first_index(cells, value) % n;
    if final_x < current_x {
        Seq::new((current_x - final_x) as nat, |t: int| cells[cell_index(n, current_x - 1 - t, y)])
    } else {
        Seq::new((final_x - current_x) as nat, |t: int| cells[cell_index(n, current_x + 1 + t, y)])
    }
}

/// The tiles that stand in column `x` between the row of `value` and the row where
/// the goal has it, the goal's row included, walking from the tile.
pub open spec fn column_candidates(
    cells: Seq<usize>,
    goal: Seq<usize>,
    n: int,
    value: usize,
    x: int,
) -> Seq<usize> {
    let final_y = first_index(goal, value) / n;
    let current_y = first_index(cells, value) / n;
    if final_y < current_y {
        Seq::new((current_y - final_y) as nat, |t: int| cells[cell_index(n, x, current_y - 1 - t)])
    } else {
        Seq::new((final_y - current_y) as nat, |t: int| cells[cell_index(n, x, current_y + 1 + t)])
    }
}

/// The value stands somewhere in row `y`.
pub open spec fn in_row(cells: Seq<usize>, n: int, value: usize, y: int) -> bool {
    exists|x: int| 0 <= x < n && cells[cell_index(n, x, y)] == value
}

/// The value stands somewhere in column `x`.
pub open spec fn in_column(cells: Seq<usize>, n: int, value: usize, x: int) -> bool {
    exists|y: int| 0 <= y < n && cells[cell_index(n, x, y)] == value
}

/// The column in which the goal has the tile.
pub open spec fn goal_column(goal: Seq<usize>, n: int, tile: usize) -> int {
    first_index(goal, tile) % n
}

/// The row in which the goal has the tile.
pub open spec fn goal_row(goal: Seq<usize>, n: int, tile: usize) -> int {
    first_index(goal, tile) / n
}

/// What cell `(x, y)` means to its row: the goal column of its tile if the tile
/// stands in its goal row, and `-1` for the blank and for a tile of another row.
pub open spec fn row_entry(cells: Seq<usize>, goal: Seq<usize>, n: int, x: int, y: int) -> int {
    let tile = cells[cell_index(n, x, y)];
    if tile != 0 && goal_row(goal, n, tile) == y {
        goal_column(goal, n, tile)
    } else {
        -1
    }
}

/// What cell `(x, y)` means to its column: the goal row of its tile if the tile
/// stands in its goal column, and `-1` for the blank and for a tile of another
/// column.
pub open spec fn column_entry(cells: Seq<usize>, goal: Seq<usize>, n: int, x: int, y: int) -> int {
    let tile = cells[cell_index(n, x, y)];
    if tile != 0 && goal_column(goal, n, tile) == x {
        goal_row(goal, n, tile)
    } else {
        -1
    }
}

/// Row `y` as a line: for each of its cells its entry.
pub open spec fn row_line(cells: Seq<usize>, goal: Seq<usize>, n: int, y: int) -> Seq<int> {
    Seq::new(n as nat, |x: int| row_entry(cells, goal, n, x, y))
}

/// Column `x` as a line: for each of its cells its entry.
pub open spec fn column_line(cells: Seq<usize>, goal: Seq<usize>, n: int, x: int) -> Seq<int> {
    Seq::new(n as nat, |y: int| column_entry(cells, goal, n, x, y))
}

/// The place in the goal of the last tile of the line, among the first `upto`
/// cells, that stands in its goal line; `-1` if there is none.
pub open spec fn last_home(line: Seq<int>, upto: int) -> int
    decreases upto,
{
    if upto <= 0 {
        -1
    } else if line[upto - 1] >= 0 {
        line[upto - 1]
    } else {
        last_home(line, upto - 1)
    }
}

/// One if the tile of cell `k` of the line is charged: it stands in its goal line,
/// and the tile of that line which stands nearest before it belongs behind it.
pub open spec fn charged(line: Seq<int>, k: int) -> int {
    if line[k] >= 0 && last_home(line, k) > line[k] {
        1
    } else {
        0
    }
}

/// The number of charged tiles among the first `upto` cells of the line.
pub open spec fn falls(line: Seq<int>, upto: int) -> int
    decreases upto,
{
    if upto <= 0 {
        0
    } else {
        falls(line, upto - 1) + charged(line, upto - 1)
    }
}

/// Row `y` as a line in which only the tiles of `kept` count.
pub open spec fn kept_row_line(
    cells: Seq<usize>,
    goal: Seq<usize>,
    n: int,
    y: int,
    kept: Seq<usize>,
) -> Seq<int> {
    Seq::new(
        n as nat,
        |x: int|
            if kept.contains(cells[cell_index(n, x, y)]) {
                row_entry(cells, goal, n, x, y)
            } else {
                -1
            },
    )
}

/// Column `x` as a line in which only the tiles of `kept` count.
pub open spec fn kept_column_line(
    cells: Seq<usize>,
    goal: Seq<usize>,
    n: int,
    x: int,
    kept: Seq<usize>,
) -> Seq<int> {
    Seq::new(
        n as nat,
        |y: int|
            if kept.contains(cells[cell_index(n, x, y)]) {
                column_entry(cells, goal, n, x, y)
            } else {
                -1
            },
    )
}

/// One if `value` stands in row `y` and is charged there, the tiles of `kept`
/// counting alone: it stands in its goal row, and the tile of that goal row which
/// stands nearest before it belongs behind it.
pub open spec fn row_conflict(
    cells: Seq<usize>,
    goal: Seq<usize>,
    n: int,
    value: usize,
    y: int,
    kept: Seq<usize>,
) -> int {
    if first_index(cells, value) / n == y {
        charged(kept_row_line(cells, goal, n, y, kept), first_index(cells, value) % n)
    } else {
        0
    }
}

/// One if `value` stands in column `x` and is charged there, the tiles of `kept`
/// counting alone.
pub open spec fn column_conflict(
    cells: Seq<usize>,
    goal: Seq<usize>,
    n: int,
    value: usize,
    x: int,
    kept: Seq<usize>,
) -> int {
    if first_index(cells, value) % n == x {
        charged(kept_column_line(cells, goal, n, x, kept), first_index(cells, value) / n)
    } else {
        0
    }
}

/// The charges of the first `rows` rows.
pub open spec fn row_conflicts(cells: Seq<usize>, goal: Seq<usize>, n: int, rows: int) -> int
    decreases rows,
{
    if rows <= 0 {
        0
    } else {
        row_conflicts(cells, goal, n, rows - 1) + falls(row_line(cells, goal, n, rows - 1), n)
    }
}

/// The charges of the first `columns` columns.
pub open spec fn column_conflicts(
    cells: Seq<usize>,
    goal: Seq<usize>,
    n: int,
    columns: int,
) -> int
    decreases columns,
{
    if columns <= 0 {
        0
    } else {
        column_conflicts(cells, goal, n, columns - 1) + falls(
            column_line(cells, goal, n, columns - 1),
            n,
        )
    }
}

/// The linear conflicts of a board.  Two tiles are in conflict when both stand in
/// their goal row, or both in their goal column, and in the reverse of the order in
/// which the goal has them.  Of such pairs those count in which no third tile of
/// that goal line stands between the two, and the one that stands behind is
/// charged; so a tile is charged once at most in its row and once at most in its
/// column.
pub open spec fn linear_conflicts(cells: Seq<usize>, goal: Seq<usize>, n: int) -> int {
    row_conflicts(cells, goal, n, n) + column_conflicts(cells, goal, n, n)
}

/// The engine's default estimate: the distances plus twice the conflicts.
pub open spec fn combined(cells: Seq<usize>, goal: Seq<usize>, n: int) -> int {
    manhattan(cells, goal, n) + 2 * linear_conflicts(cells, goal, n)
}

/// The third power.
pub open spec fn cube(n: int) -> int {
    n * n * n
}

/// Every estimate of a board of this side fits the machine's numbers.
pub open spec fn scores_fit(size: usize) -> bool {
    4 * cube(size as int) <= usize::MAX
}

/// The estimators that the search can be run with.
#[derive(Debug, Clone, Copy, PartialEq, Eq, Structural)]
pub enum Heuristic {
    /// The number of misplaced tiles.
    Hamming,
    /// The sum of the tiles' distances to their places.
    Manhattan,
    /// The conflicts along rows and columns alone.
    LinearConflict,
    /// The distances plus twice the conflicts.
    ManhattanLinearConflict,
}

impl Heuristic {
    /// What the estimator says of a state.
    pub open spec fn value(self, cells: Seq<usize>, goal: Seq<usize>, n: int) -> int {
        match self {
            Heuristic::Hamming => hamming(cells, goal),
            Heuristic::Manhattan => manhattan(cells, goal, n),
            Heuristic::LinearConflict => linear_conflicts(cells, goal, n),
            Heuristic::ManhattanLinearConflict => combined(cells, goal, n),
        }
    }

    /// Scores the puzzle against the goal.
    pub fn estimate(&self, puzzle: Puzzle, final_puzzle: Puzzle) -> (score: usize)
        requires
            puzzle.valid(),
            final_puzzle.valid(),
            puzzle.size == final_puzzle.size,
            scores_fit(puzzle.size),
        ensures
            score == self.value(puzzle@, final_puzzle@, puzzle.size as int),
    {
        match self {
            Heuristic::Hamming => hamming_distance(puzzle, final_puzzle),
            Heuristic::Manhattan => manhattan_distance(puzzle, final_puzzle),
            Heuristic::LinearConflict => linear_conflict(puzzle, final_puzzle),
            Heuristic::ManhattanLinearConflict => manhattan_linear_conflict_heuristic(
                puzzle,
                final_puzzle,
            ),
        }
    }
}

/// Whether every estimate of a board of this side fits the machine's numbers.
pub fn side_fits(size: usize) -> (fits: bool)
    ensures
        fits == scores_fit(size),
{
    let square = match size.checked_mul(size) {
        Some(square) => square,
        None => {
            proof {
                lemma_cube_grows(size as int);
            }
            return false;
        },
    };
    let third = match square.checked_mul(size) {
        Some(third) => third,
        None => {
            return false;
        },
    };
    match third.checked_mul(4) {
        Some(_) => true,
        None => false,
    }
}

/// The cube of a side is no smaller than its square.
proof fn lemma_cube_grows(n: int)
    requires
        1 <= n,
    ensures
        n * n <= cube(n),
{
    assert(n * n <= n * n * n) by (nonlinear_arith)
        requires
            1 <= n,
    ;
}

/// The first index of the next row.
proof fn lemma_next_row(n: int, y: int)
    ensures
        (y + 1) * n == y * n + n,
{
    assert((y + 1) * n == y * n + n) by (nonlinear_arith);
}

/// Twice the side for each cell stays within twice the cube of the side.
proof fn lemma_scaled_step(n: int, i: int)
    requires
        0 < n,
        0 <= i < n * n,
    ensures
        2 * n * (i + 1) == 2 * n * i + 2 * n,
        0 <= 2 * n * i,
        2 * n * (i + 1) <= 2 * cube(n),
{
    assert(2 * n * (i + 1) == 2 * n * i + 2 * n) by (nonlinear_arith);
    assert(0 <= 2 * n * i) by (nonlinear_arith)
        requires
            0 < n,
            0 <= i,
    ;
    assert(2 * n * (i + 1) <= 2 * (n * n * n)) by (nonlinear_arith)
        requires
            0 < n,
            0 <= i + 1 <= n * n,
    ;
}

/// The distances and twice the conflicts stay within four times the cube of the side.
proof fn lemma_scores_fit(n: int)
    requires
        2 <= n,
    ensures
        2 * cube(n) + 2 * (2 * n * n) <= 4 * cube(n),
        2 * (n * n) <= 4 * cube(n),
{
    assert(2 * (n * n) <= 4 * (n * n * n)) by (nonlinear_arith)
        requires
            2 <= n,
    ;
    assert(2 * (2 * n * n) <= 2 * (n * n * n)) by (nonlinear_arith)
        requires
            2 <= n,
    ;
}

/// A tile stands less than two sides away from its place in a valid goal.
pub proof fn lemma_tile_distance_bound(cells: Seq<usize>, goal: Seq<usize>, n: int, i: int)
    requires
        is_valid_board(cells, n),
        is_valid_board(goal, n),
        0 <= i < cells.len(),
    ensures
        0 <= tile_distance(cells, goal, n, i) < 2 * n,
        has_value(goal, cells[i]),
        0 <= first_index(goal, cells[i]) < n * n,
{
    lemma_permutation_has_all(goal, cells[i]);
    lemma_first_index_exists(goal, cells[i]);
    lemma_index_cell(n, i);
    lemma_index_cell(n, first_index(goal, cells[i]));
}

/// The steps between two cells: across plus down.
fn get_distance(x1: usize, y1: usize, x2: usize, y2: usize) -> (distance: usize)
    requires
        grid_distance(x1 as int, y1 as int, x2 as int, y2 as int) <= usize::MAX,
    ensures
        distance == grid_distance(x1 as int, y1 as int, x2 as int, y2 as int),
{
    let x: usize = if x1 <= x2 {
        x2 - x1
    } else {
        x1 - x2
    };
    let y: usize = if y1 <= y2 {
        y2 - y1
    } else {
        y1 - y2
    };
    x + y
}

/// What `get_possible_values_in_row` and its twin ask of their arguments.
pub open spec fn can_walk(puzzle: Puzzle, final_puzzle: Puzzle, value: usize, line: usize) -> bool {
    &&& puzzle.shaped()
    &&& final_puzzle.shaped()
    &&& puzzle.size == final_puzzle.size
    &&& line < puzzle.size
    &&& has_value(puzzle@, value)
    &&& has_value(final_puzzle@, value)
}

/// The columns and rows of a value that both boards hold lie on the board.
proof fn lemma_walk_columns(puzzle: Puzzle, final_puzzle: Puzzle, value: usize, line: usize)
    requires
        can_walk(puzzle, final_puzzle, value, line),
    ensures
        0 <= first_index(puzzle@, value) % (puzzle.size as int) < puzzle.size,
        0 <= first_index(final_puzzle@, value) % (puzzle.size as int) < puzzle.size,
        0 <= first_index(puzzle@, value) / (puzzle.size as int) < puzzle.size,
        0 <= first_index(final_puzzle@, value) / (puzzle.size as int) < puzzle.size,
{
    lemma_first_index_exists(puzzle@, value);
    lemma_first_index_exists(final_puzzle@, value);
    lemma_index_cell(puzzle.size as int, first_index(puzzle@, value));
    lemma_index_cell(puzzle.size as int, first_index(final_puzzle@, value));
}

/// The tiles of row `y` from the column of `value` to the column where the goal has
/// it.
pub fn get_possible_values_in_row(
    puzzle: Puzzle,
    final_puzzle: Puzzle,
    value: usize,
    y: usize,
) -> (values: Vec<usize>)
    requires
        can_walk(puzzle, final_puzzle, value, y),
    ensures
        values@ == row_candidates(puzzle@, final_puzzle@, puzzle.size as int, value, y as int),
{
    let mut values: Vec<usize> = Vec::new();
    let ghost n: int = puzzle.size as int;
    let ghost wanted = row_candidates(puzzle@, final_puzzle@, n, value, y as int);
    proof {
        lemma_walk_columns(puzzle, final_puzzle, value, y);
    }
    let (final_x, _) = final_puzzle.get_position(value).unwrap();
    let (current_x, _) = puzzle.get_position(value).unwrap();
    if final_x < current_x {
        let mut x: usize = current_x;
        while x > final_x
            invariant
                can_walk(puzzle, final_puzzle, value, y),
                n == puzzle.size,
                final_x < current_x < n,
                final_x <= x <= current_x,
                wanted.len() == current_x - final_x,
                values@.len() == current_x - x,
                forall|t: int|
                    0 <= t < values@.len() ==> values@[t] == puzzle@[cell_index(
                        n,
                        current_x - 1 - t,
                        y as int,
                    )],
            decreases x - final_x,
        {
            x -= 1;
            proof {
                lemma_cell_index(n, x as int, y as int);
            }
            values.push(puzzle.get_value(x, y));
        }
    } else {
        let mut x: usize = current_x + 1;
        while x <= final_x
            invariant
                can_walk(puzzle, final_puzzle, value, y),
                n == puzzle.size,
                current_x <= final_x < n,
                current_x + 1 <= x <= final_x + 1,
                wanted.len() == final_x - current_x,
                values@.len() == x - (current_x + 1),
                forall|t: int|
                    0 <= t < values@.len() ==> values@[t] == puzzle@[cell_index(
                        n,
                        current_x + 1 + t,
                        y as int,
                    )],
            decreases final_x + 1 - x,
        {
            proof {
                lemma_cell_index(n, x as int, y as int);
            }
            values.push(puzzle.get_value(x, y));
            x += 1;
        }
    }
    assert(values@ =~= wanted);
    values
}

/// The tiles of column `x` from the row of `value` to the row where the goal has
/// it.
pub fn get_possible_values_in_column(
    puzzle: Puzzle,
    final_puzzle: Puzzle,
    value: usize,
    x: usize,
) -> (values: Vec<usize>)
    requires
        can_walk(puzzle, final_puzzle, value, x),
    ensures
        values@ == column_candidates(
            puzzle@,
            final_puzzle@,
            puzzle.size as int,
            value,
            x as int,
        ),
{
    let mut values: Vec<usize> = Vec::new();
    let ghost n: int = puzzle.size as int;
    let ghost wanted = column_candidates(puzzle@, final_puzzle@, n, value, x as int);
    proof {
        lemma_walk_columns(puzzle, final_puzzle, value, x);
    }
    let (_, final_y) = final_puzzle.get_position(value).unwrap();
    let (_, current_y) = puzzle.get_position(value).unwrap();
    if final_y < current_y {
        let mut y: usize = current_y;
        while y > final_y
            invariant
                can_walk(puzzle, final_puzzle, value, x),
                n == puzzle.size,
                final_y < current_y < n,
                final_y <= y <= current_y,
                wanted.len() == current_y - final_y,
                values@.len() == current_y - y,
                forall|t: int|
                    0 <= t < values@.len() ==> values@[t] == puzzle@[cell_index(
                        n,
                        x as int,
                        current_y - 1 - t,
                    )],
            decreases y - final_y,
        {
            y -= 1;
            proof {
                lemma_cell_index(n, x as int, y as int);
            }
            values.push(puzzle.get_value(x, y));
        }
    } else {
        let mut y: usize = current_y + 1;
        while y <= final_y
            invariant
                can_walk(puzzle, final_puzzle, value, x),
                n == puzzle.size,
                current_y <= final_y < n,
                current_y + 1 <= y <= final_y + 1,
                wanted.len() == final_y - current_y,
                values@.len() == y - (current_y + 1),
                forall|t: int|
                    0 <= t < values@.len() ==> values@[t] == puzzle@[cell_index(
                        n,
                        x as int,
                        current_y + 1 + t,
                    )],
            decreases final_y + 1 - y,
        {
            proof {
                lemma_cell_index(n, x as int, y as int);
            }
            values.push(puzzle.get_value(x, y));
            y += 1;
        }
    }
    assert(values@ =~= wanted);
    values
}

/// Whether `value` stands in column `x` of the puzzle.
pub fn check_in_correct_column(puzzle: Puzzle, value: usize, x: usize) -> (found: bool)
    requires
        puzzle.shaped(),
        x < puzzle.size,
    ensures
        found == in_column(puzzle@, puzzle.size as int, value, x as int),
{
    let mut y: usize = 0;
    while y < puzzle.size
        invariant
            puzzle.shaped(),
            x < puzzle.size,
            y <= puzzle.size,
            forall|k: int|
                0 <= k < y ==> puzzle@[cell_index(puzzle.size as int, x as int, k)] != value,
        decreases puzzle.size - y,
    {
        proof {
            lemma_cell_index(puzzle.size as int, x as int, y as int);
        }
        if puzzle.get_value(x, y) == value {
            return true;
        }
        y += 1;
    }
    false
}

/// Whether `value` stands in row `y` of the puzzle.
pub fn check_in_correct_row(puzzle: Puzzle, value: usize, y: usize) -> (found: bool)
    requires
        puzzle.shaped(),
        y < puzzle.size,
    ensures
        found == in_row(puzzle@, puzzle.size as int, value, y as int),
{
    let mut x: usize = 0;
    while x < puzzle.size
        invariant
            puzzle.shaped(),
            y < puzzle.size,
            x <= puzzle.size,
            forall|k: int|
                0 <= k < x ==> puzzle@[cell_index(puzzle.size as int, k, y as int)] != value,
        decreases puzzle.size - x,
    {
        proof {
            lemma_cell_index(puzzle.size as int, x as int, y as int);
        }
        if puzzle.get_value(x, y) == value {
            return true;
        }
        x += 1;
    }
    false
}

/// Whether the list holds the value.
fn list_contains(list: &[usize], value: usize) -> (found: bool)
    ensures
        found == list@.contains(value),
{
    let mut i: usize = 0;
    while i < list.len()
        invariant
            i <= list@.len(),
            forall|k: int| 0 <= k < i ==> list@[k] != value,
        decreases list@.len() - i,
    {
        if list[i] == value {
            return true;
        }
        i += 1;
    }
    false
}

/// One if `value` stands in column `x` and is charged there: it stands in its goal
/// column, and of the tiles of that goal column which `number_list` holds the one that
/// stands nearest before it belongs behind it.
pub fn check_column_conflict(
    current_puzzle: Puzzle,
    final_puzzle: Puzzle,
    value: usize,
    x: usize,
    number_list: &[usize],
) -> (conflict: usize)
    requires
        current_puzzle.valid(),
        final_puzzle.valid(),
        current_puzzle.size == final_puzzle.size,
        x < current_puzzle.size,
        has_value(current_puzzle@, value),
    ensures
        conflict == column_conflict(
            current_puzzle@,
            final_puzzle@,
            current_puzzle.size as int,
            value,
            x as int,
            number_list@,
        ),
{
    let ghost n: int = current_puzzle.size as int;
    let ghost cells = current_puzzle@;
    let ghost goal = final_puzzle@;
    let ghost line = kept_column_line(cells, goal, n, x as int, number_list@);
    proof {
        lemma_first_index_exists(cells, value);
        lemma_index_cell(n, first_index(cells, value));
        lemma_permutation_has_all(goal, value);
        lemma_first_index_exists(goal, value);
        lemma_index_cell(n, first_index(goal, value));
    }
    let (cx, cy) = current_puzzle.get_position(value).unwrap();
    if cx != x {
        return 0;
    }
    let (goal_x, goal_y) = final_puzzle.get_position(value).unwrap();
    if value == 0 || goal_x != x || !list_contains(number_list, value) {
        return 0;
    }
    let mut at: usize = cy;
    while at > 0
        invariant
            current_puzzle.valid(),
            final_puzzle.valid(),
            current_puzzle.size == final_puzzle.size,
            n == current_puzzle.size,
            cells == current_puzzle@,
            goal == final_puzzle@,
            x < n,
            at <= cy < n,
            line == kept_column_line(cells, goal, n, x as int, number_list@),
            cx == first_index(cells, value) % n,
            cy == first_index(cells, value) / n,
            cx == x,
            line[cy as int] == goal_y,
            last_home(line, cy as int) == last_home(line, at as int),
        decreases at,
    {
        at -= 1;
        proof {
            lemma_cell_index(n, x as int, at as int);
        }
        let other = current_puzzle.get_value(x, at);
        if other != 0 && list_contains(number_list, other) {
            proof {
                lemma_permutation_has_all(goal, other);
                lemma_first_index_exists(goal, other);
                lemma_index_cell(n, first_index(goal, other));
            }
            let (wx, wy) = final_puzzle.get_position(other).unwrap();
            if wx == x {
                assert(line[at as int] == wy);
                assert(last_home(line, at + 1) == line[at as int]);
                return if wy > goal_y {
                    1
                } else {
                    0
                };
            }
        }
        assert(line[at as int] < 0);
    }
    0
}

/// One if `value` stands in row `y` and is charged there: it stands in its goal
/// row, and of the tiles of that goal row which `number_list` holds the one that
/// stands nearest before it belongs behind it.
pub fn check_row_conflict(
    current_puzzle: Puzzle,
    final_puzzle: Puzzle,
    value: usize,
    y: usize,
    number_list: &[usize],
) -> (conflict: usize)
    requires
        current_puzzle.valid(),
        final_puzzle.valid(),
        current_puzzle.size == final_puzzle.size,
        y < current_puzzle.size,
        has_value(current_puzzle@, value),
    ensures
        conflict == row_conflict(
            current_puzzle@,
            final_puzzle@,
            current_puzzle.size as int,
            value,
            y as int,
            number_list@,
        ),
{
    let ghost n: int = current_puzzle.size as int;
    let ghost cells = current_puzzle@;
    let ghost goal = final_puzzle@;
    let ghost line = kept_row_line(cells, goal, n, y as int, number_list@);
    proof {
        lemma_first_index_exists(cells, value);
        lemma_index_cell(n, first_index(cells, value));
        lemma_permutation_has_all(goal, value);
        lemma_first_index_exists(goal, value);
        lemma_index_cell(n, first_index(goal, value));
    }
    let (cx, cy) = current_puzzle.get_position(value).unwrap();
    if cy != y {
        return 0;
    }
    let (goal_x, goal_y) = final_puzzle.get_position(value).unwrap();
    if value == 0 || goal_y != y || !list_contains(number_list, value) {
        return 0;
    }
    let mut at: usize = cx;
    while at > 0
        invariant
            current_puzzle.valid(),
            final_puzzle.valid(),
            current_puzzle.size == final_puzzle.size,
            n == current_puzzle.size,
            cells == current_puzzle@,
            goal == final_puzzle@,
            y < n,
            at <= cx < n,
            line == kept_row_line(cells, goal, n, y as int, number_list@),
            cx == first_index(cells, value) % n,
            cy == first_index(cells, value) / n,
            cy == y,
            line[cx as int] == goal_x,
            last_home(line, cx as int) == last_home(line, at as int),
        decreases at,
    {
        at -= 1;
        proof {
            lemma_cell_index(n, at as int, y as int);
        }
        let other = current_puzzle.get_value(at, y);
        if other != 0 && list_contains(number_list, other) {
            proof {
                lemma_permutation_has_all(goal, other);
                lemma_first_index_exists(goal, other);
                lemma_index_cell(n, first_index(goal, other));
            }
            let (wx, wy) = final_puzzle.get_position(other).unwrap();
            if wy == y {
                assert(line[at as int] == wx);
                assert(last_home(line, at + 1) == line[at as int]);
                return if wx > goal_x {
                    1
                } else {
                    0
                };
            }
        }
        assert(line[at as int] < 0);
    }
    0
}

/// One for each tile that does not stand where the goal has it.
pub fn hamming_distance(puzzle: Puzzle, final_puzzle: Puzzle) -> (heuristic: usize)
    requires
        puzzle.shaped(),
        final_puzzle.shaped(),
        puzzle.size == final_puzzle.size,
    ensures
        heuristic == hamming(puzzle@, final_puzzle@),
{
    let size = puzzle.size;
    let mut heuristic: usize = 0;
    let mut y: usize = 0;
    while y < size
        invariant
            size == puzzle.size,
            size == final_puzzle.size,
            puzzle.shaped(),
            final_puzzle.shaped(),
            y <= size,
            heuristic == hamming_upto(puzzle@, final_puzzle@, y * size),
            heuristic <= y * size,
        decreases size - y,
    {
        let mut x: usize = 0;
        while x < size
            invariant
                size == puzzle.size,
                size == final_puzzle.size,
                puzzle.shaped(),
                final_puzzle.shaped(),
                y < size,
                x <= size,
                heuristic == hamming_upto(puzzle@, final_puzzle@, y * size + x),
                heuristic <= y * size + x,
            decreases size - x,
        {
            proof {
                lemma_cell_index(size as int, x as int, y as int);
            }
            if final_puzzle.get_value(x, y) != puzzle.get_value(x, y) && puzzle.get_value(x, y)
                != 0 {
                heuristic += 1;
            }
            x += 1;
        }
        proof {
            lemma_next_row(size as int, y as int);
        }
        y += 1;
    }
    heuristic
}

/// No line has more charged tiles than cells.
pub proof fn lemma_falls_bounds(line: Seq<int>, upto: int)
    requires
        0 <= upto,
    ensures
        0 <= falls(line, upto) <= upto,
    decreases upto,
{
    if upto > 0 {
        lemma_falls_bounds(line, upto - 1);
    }
}

/// The charged tiles of row `y`.
fn row_falls(puzzle: &Puzzle, final_puzzle: &Puzzle, y: usize) -> (count: usize)
    requires
        puzzle.valid(),
        final_puzzle.valid(),
        puzzle.size == final_puzzle.size,
        y < puzzle.size,
    ensures
        count == falls(row_line(puzzle@, final_puzzle@, puzzle.size as int, y as int), puzzle.size as int),
        count <= puzzle.size,
{
    let size = puzzle.size;
    let ghost n: int = size as int;
    let ghost line = row_line(puzzle@, final_puzzle@, n, y as int);
    let mut count: usize = 0;
    let mut last: usize = 0;
    let mut seen = false;
    let mut x: usize = 0;
    while x < size
        invariant
            size == puzzle.size,
            size == final_puzzle.size,
            n == size,
            puzzle.valid(),
            final_puzzle.valid(),
            y < size,
            x <= size,
            line == row_line(puzzle@, final_puzzle@, n, y as int),
            count == falls(line, x as int),
            count <= x,
            seen ==> last == last_home(line, x as int),
            !seen ==> last_home(line, x as int) == -1,
        decreases size - x,
    {
        proof {
            lemma_cell_index(n, x as int, y as int);
        }
        let value = puzzle.get_value(x, y);
        if value != 0 {
            proof {
                lemma_permutation_has_all(final_puzzle@, value);
                lemma_first_index_exists(final_puzzle@, value);
                lemma_index_cell(n, first_index(final_puzzle@, value));
            }
            let (goal_x, goal_y) = final_puzzle.get_position(value).unwrap();
            if goal_y == y {
                if seen && last > goal_x {
                    count += 1;
                }
                last = goal_x;
                seen = true;
            }
        }
        x += 1;
    }
    count
}

/// The charged tiles of column `x`.
fn column_falls(puzzle: &Puzzle, final_puzzle: &Puzzle, x: usize) -> (count: usize)
    requires
        puzzle.valid(),
        final_puzzle.valid(),
        puzzle.size == final_puzzle.size,
        x < puzzle.size,
    ensures
        count == falls(
            column_line(puzzle@, final_puzzle@, puzzle.size as int, x as int),
            puzzle.size as int,
        ),
        count <= puzzle.size,
{
    let size = puzzle.size;
    let ghost n: int = size as int;
    let ghost line = column_line(puzzle@, final_puzzle@, n, x as int);
    let mut count: usize = 0;
    let mut last: usize = 0;
    let mut seen = false;
    let mut y: usize = 0;
    while y < size
        invariant
            size == puzzle.size,
            size == final_puzzle.size,
            n == size,
            puzzle.valid(),
            final_puzzle.valid(),
            x < size,
            y <= size,
            line == column_line(puzzle@, final_puzzle@, n, x as int),
            count == falls(line, y as int),
            count <= y,
            seen ==> last == last_home(line, y as int),
            !seen ==> last_home(line, y as int) == -1,
        decreases size - y,
    {
        proof {
            lemma_cell_index(n, x as int, y as int);
        }
        let value = puzzle.get_value(x, y);
        if value != 0 {
            proof {
                lemma_permutation_has_all(final_puzzle@, value);
                lemma_first_index_exists(final_puzzle@, value);
                lemma_index_cell(n, first_index(final_puzzle@, value));
            }
            let (goal_x, goal_y) = final_puzzle.get_position(value).unwrap();
            if goal_x == x {
                if seen && last > goal_y {
                    count += 1;
                }
                last = goal_y;
                seen = true;
            }
        }
        y += 1;
    }
    count
}

/// The linear conflicts: in each row and in each column, one for every tile of
/// that goal line before which, nearest among the tiles of that goal line, stands
/// one that belongs behind it.
pub fn linear_conflict(puzzle: Puzzle, final_puzzle: Puzzle) -> (heuristic: usize)
    requires
        puzzle.valid(),
        final_puzzle.valid(),
        puzzle.size == final_puzzle.size,
        scores_fit(puzzle.size),
    ensures
        heuristic == linear_conflicts(puzzle@, final_puzzle@, puzzle.size as int),
        heuristic <= 2 * (puzzle.size * puzzle.size),
{
    let mut heuristic: usize = 0;
    let size = puzzle.size;
    let ghost n: int = size as int;
    proof {
        lemma_scores_fit(n);
    }
    let mut y: usize = 0;
    while y < size
        invariant
            size == puzzle.size,
            size == final_puzzle.size,
            n == size,
            2 * (n * n) <= usize::MAX,
            puzzle.valid(),
            final_puzzle.valid(),
            y <= size,
            heuristic == row_conflicts(puzzle@, final_puzzle@, n, y as int),
            heuristic <= y * size,
        decreases size - y,
    {
        proof {
            lemma_next_row(n, y as int);
            assert(y * n + n <= n * n) by (nonlinear_arith)
                requires
                    0 <= y < n,
            ;
        }
        heuristic += row_falls(&puzzle, &final_puzzle, y);
        y += 1;
    }
    let ghost rows = heuristic;
    let mut x: usize = 0;
    while x < size
        invariant
            size == puzzle.size,
            size == final_puzzle.size,
            n == size,
            2 * (n * n) <= usize::MAX,
            puzzle.valid(),
            final_puzzle.valid(),
            x <= size,
            rows == row_conflicts(puzzle@, final_puzzle@, n, n),
            rows <= n * n,
            heuristic == rows + column_conflicts(puzzle@, final_puzzle@, n, x as int),
            heuristic <= rows + x * size,
        decreases size - x,
    {
        proof {
            lemma_next_row(n, x as int);
            assert(x * n + n <= n * n) by (nonlinear_arith)
                requires
                    0 <= x < n,
            ;
        }
        heuristic += column_falls(&puzzle, &final_puzzle, x);
        x += 1;
    }
    heuristic
}

/// The distances plus twice the conflicts: the estimate that the search uses
/// unless told otherwise.
pub fn manhattan_linear_conflict_heuristic(puzzle: Puzzle, final_puzzle: Puzzle) -> (heuristic:
    usize)
    requires
        puzzle.valid(),
        final_puzzle.valid(),
        puzzle.size == final_puzzle.size,
        scores_fit(puzzle.size),
    ensures
        heuristic == combined(puzzle@, final_puzzle@, puzzle.size as int),
{
    let distances = manhattan_distance(puzzle.clone(), final_puzzle.clone());
    let conflicts = linear_conflict(puzzle, final_puzzle);
    proof {
        lemma_scores_fit(puzzle.size as int);
        let n = puzzle.size as int;
        assert(2 * (n * n) == 2 * n * n) by (nonlinear_arith);
    }
    distances + 2 * conflicts
}

/// For each tile the steps to the cell where the goal has it, summed.
pub fn manhattan_distance(puzzle: Puzzle, final_puzzle: Puzzle) -> (heuristic: usize)
    requires
        puzzle.valid(),
        final_puzzle.valid(),
        puzzle.size == final_puzzle.size,
        scores_fit(puzzle.size),
    ensures
        heuristic == manhattan(puzzle@, final_puzzle@, puzzle.size as int),
        heuristic <= 2 * cube(puzzle.size as int),
{
    let size = puzzle.size;
    let mut heuristic: usize = 0;
    let mut y: usize = 0;
    while y < size
        invariant
            size == puzzle.size,
            size == final_puzzle.size,
            puzzle.valid(),
            final_puzzle.valid(),
            scores_fit(size),
            y <= size,
            heuristic == manhattan_upto(puzzle@, final_puzzle@, size as int, y * size),
            heuristic <= 2 * size * (y * size),
        decreases size - y,
    {
        let mut x: usize = 0;
        while x < size
            invariant
                size == puzzle.size,
                size == final_puzzle.size,
                puzzle.valid(),
                final_puzzle.valid(),
                scores_fit(size),
                y < size,
                x <= size,
                heuristic == manhattan_upto(puzzle@, final_puzzle@, size as int, y * size + x),
                heuristic <= 2 * size * (y * size + x),
            decreases size - x,
        {
            let ghost i: int = y * size + x;
            proof {
                lemma_cell_index(size as int, x as int, y as int);
                lemma_scaled_step(size as int, i);
                lemma_tile_distance_bound(puzzle@, final_puzzle@, size as int, i);
                if final_puzzle@[i] == puzzle@[i] {
                    lemma_permutation_first_index(final_puzzle@, i);
                }
            }
            if final_puzzle.get_value(x, y) != puzzle.get_value(x, y) && puzzle.get_value(x, y)
                != 0 {
                let value = puzzle.get_value(x, y);
                let (x2, y2) = final_puzzle.get_position(value).unwrap();
                heuristic += get_distance(x, y, x2, y2);
            }
            x += 1;
        }
        proof {
            lemma_next_row(size as int, y as int);
        }
        y += 1;
    }
    proof {
        let n = size as int;
        assert(2 * n * (n * n) == 2 * (n * n * n)) by (nonlinear_arith);
    }
    heuristic
}

} // verus!
