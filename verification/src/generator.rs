//! A parity test on a grid given row by row, every value taken as a tile.

use vstd::prelude::*;

verus! {

/// The first `upto` rows, one after the other.
pub open spec fn joined(rows: Seq<Vec<usize>>, upto: int) -> Seq<usize>
    decreases upto,
{
    if upto <= 0 {
        Seq::empty()
    } else {
        joined(rows, upto - 1) + rows[upto - 1]@
    }
}

/// One if the values at `i` and `j` stand out of order, else zero.
pub open spec fn out_of_order(cells: Seq<usize>, i: int, j: int) -> int {
    if cells[i] > cells[j] {
        1
    } else {
        0
    }
}

/// The number of values behind `i` and before `upto` that are smaller than the one
/// at `i`.
pub open spec fn exchanges_after(cells: Seq<usize>, i: int, upto: int) -> int
    decreases upto - i,
{
    if upto <= i + 1 {
        0
    } else {
        exchanges_after(cells, i, upto - 1) + out_of_order(cells, i, upto - 1)
    }
}

/// The number of pairs out of order whose first value stands before `rows`.
pub open spec fn exchanges_before(cells: Seq<usize>, rows: int) -> int
    decreases rows,
{
    if rows <= 0 {
        0
    } else {
        exchanges_before(cells, rows - 1) + exchanges_after(cells, rows - 1, cells.len() as int)
    }
}

/// The number of pairs out of order: as many exchanges of neighbours bring the
/// values into rising order.
pub open spec fn exchanges(cells: Seq<usize>) -> int {
    exchanges_before(cells, cells.len() as int)
}

/// The rows of the grid, one after the other.
fn flatten(puzzle: &Vec<Vec<usize>>) -> (data: Vec<usize>)
    ensures
        data@ == joined(puzzle@, puzzle@.len() as int),
{
    let mut data: Vec<usize> = Vec::new();
    let mut row: usize = 0;
    while row < puzzle.len()
        invariant
            row <= puzzle@.len(),
            data@ == joined(puzzle@, row as int),
        decreases puzzle@.len() - row,
    {
        let line = &puzzle[row];
        let ghost before = data@;
        let mut column: usize = 0;
        while column < line.len()
            invariant
                column <= line@.len(),
                data@ == before + line@.take(column as int),
            decreases line@.len() - column,
        {
            data.push(line[column]);
            assert(line@.take(column + 1) =~= line@.take(column as int).push(line@[column as int]));
            column += 1;
        }
        assert(line@.take(line@.len() as int) =~= line@);
        row += 1;
    }
    data
}

/// Whether the values of the grid, read row by row, can be brought into rising order
/// by an even number of exchanges of neighbours.
pub fn is_solvable(puzzle: &Vec<Vec<usize>>) -> (solvable: bool)
    ensures
        solvable == (exchanges(joined(puzzle@, puzzle@.len() as int)) % 2 == 0),
{
    let data = flatten(puzzle);
    let mut even = true;
    let mut i: usize = 0;
    while i < data.len()
        invariant
            i <= data@.len(),
            even == (exchanges_before(data@, i as int) % 2 == 0),
        decreases data@.len() - i,
    {
        let mut j: usize = i + 1;
        let ghost start = exchanges_before(data@, i as int);
        while j < data.len()
            invariant
                i < data@.len(),
                i + 1 <= j <= data@.len(),
                start == exchanges_before(data@, i as int),
                even == ((start + exchanges_after(data@, i as int, j as int)) % 2 == 0),
            decreases data@.len() - j,
        {
            if data[i] > data[j] {
                even = !even;
            }
            j += 1;
        }
        i += 1;
    }
    even
}

} // verus!
