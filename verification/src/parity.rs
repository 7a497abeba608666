//! Why a move leaves the parity test as it was: the number of inversions changes by
//! an even number when the blank travels along a row, and by as many tiles as the
//! moved tile passes, one less than the side, when it travels along a column.

use vstd::prelude::*;
use crate::board::{is_permutation, is_valid_board, lemma_index_cell};
use crate::moves::{is_path, is_slide, lemma_slide_valid, neighbours, reachable, swapped};
use crate::solvable::{
    inversion_count, inversions_after, inversions_before, inverted, is_solvable_board, last_blank,
    parity_key,
};
use crate::spiral::goal_cells;

verus! {

/// One if the tile of cell `j` is smaller than `value`, else zero; the blank is no
/// tile.
pub open spec fn is_smaller(cells: Seq<usize>, value: usize, j: int) -> int {
    if value > cells[j] && cells[j] != 0 {
        1
    } else {
        0
    }
}

/// The number of tiles smaller than `value` in the cells from `from` up to `upto`.
pub open spec fn smaller_in(cells: Seq<usize>, value: usize, from: int, upto: int) -> int
    decreases upto - from,
{
    if upto <= from {
        0
    } else {
        smaller_in(cells, value, from, upto - 1) + is_smaller(cells, value, upto - 1)
    }
}

/// The inversions of a tile are the smaller tiles behind it.
pub proof fn lemma_after_is_smaller(cells: Seq<usize>, i: int, upto: int)
    ensures
        inversions_after(cells, i, upto) == smaller_in(cells, cells[i], i + 1, upto),
    decreases upto - i,
{
    if upto > i + 1 {
        lemma_after_is_smaller(cells, i, upto - 1);
    }
}

/// The count looks at the cells of its range only.
pub proof fn lemma_smaller_same(a: Seq<usize>, b: Seq<usize>, value: usize, from: int, upto: int)
    requires
        forall|j: int| from <= j < upto ==> a[j] == b[j],
    ensures
        smaller_in(a, value, from, upto) == smaller_in(b, value, from, upto),
    decreases upto - from,
{
    if upto > from {
        lemma_smaller_same(a, b, value, from, upto - 1);
    }
}

/// The count of a range is the count of its first cell and of the rest.
pub proof fn lemma_smaller_front(cells: Seq<usize>, value: usize, from: int, upto: int)
    requires
        from < upto,
    ensures
        smaller_in(cells, value, from, upto) == is_smaller(cells, value, from) + smaller_in(
            cells,
            value,
            from + 1,
            upto,
        ),
    decreases upto - from,
{
    if upto > from + 1 {
        lemma_smaller_front(cells, value, from, upto - 1);
    } else {
        assert(smaller_in(cells, value, from, from) == 0);
        assert(smaller_in(cells, value, from + 1, from + 1) == 0);
    }
}

/// Two neighbours within the range may change places: the count stays.
pub proof fn lemma_smaller_swap(cells: Seq<usize>, value: usize, from: int, upto: int, i: int)
    requires
        0 <= from <= i,
        i + 1 < upto <= cells.len(),
    ensures
        smaller_in(swapped(cells, i, i + 1), value, from, upto) == smaller_in(
            cells,
            value,
            from,
            upto,
        ),
    decreases upto,
{
    let after = swapped(cells, i, i + 1);
    if upto == i + 2 {
        lemma_smaller_same(after, cells, value, from, i);
        assert(smaller_in(after, value, from, i + 1) == smaller_in(after, value, from, i)
            + is_smaller(after, value, i));
        assert(smaller_in(cells, value, from, i + 1) == smaller_in(cells, value, from, i)
            + is_smaller(cells, value, i));
        assert(smaller_in(after, value, from, i + 2) == smaller_in(after, value, from, i)
            + is_smaller(after, value, i) + is_smaller(after, value, i + 1));
        assert(smaller_in(cells, value, from, i + 2) == smaller_in(cells, value, from, i)
            + is_smaller(cells, value, i) + is_smaller(cells, value, i + 1));
    } else {
        lemma_smaller_swap(cells, value, from, upto - 1, i);
    }
}

/// What the exchange of two neighbours does to the inversions of the first `rows`
/// tiles.
pub proof fn lemma_before_swap(cells: Seq<usize>, i: int, rows: int)
    requires
        0 <= i,
        i + 1 < cells.len(),
        0 <= rows <= cells.len(),
    ensures
        inversions_before(swapped(cells, i, i + 1), rows) - inversions_before(cells, rows) == if rows
            <= i {
            0
        } else if rows == i + 1 {
            inverted(swapped(cells, i, i + 1), i, i + 1) + inversions_after(
                cells,
                i + 1,
                cells.len() as int,
            ) - inversions_after(cells, i, cells.len() as int)
        } else {
            inverted(swapped(cells, i, i + 1), i, i + 1) - inverted(cells, i, i + 1)
        },
    decreases rows,
{
    let after = swapped(cells, i, i + 1);
    let len = cells.len() as int;
    if rows > 0 {
        lemma_before_swap(cells, i, rows - 1);
        let a = rows - 1;
        lemma_after_is_smaller(after, a, len);
        lemma_after_is_smaller(cells, a, len);
        if a < i {
            lemma_smaller_swap(cells, cells[a], a + 1, len, i);
        } else if a == i {
            lemma_smaller_front(after, cells[i + 1], i + 1, len);
            lemma_smaller_same(after, cells, cells[i + 1], i + 2, len);
            lemma_after_is_smaller(cells, i + 1, len);
        } else if a == i + 1 {
            lemma_smaller_same(after, cells, cells[i], i + 2, len);
            lemma_after_is_smaller(cells, i, len);
            lemma_smaller_front(cells, cells[i], i + 1, len);
        } else {
            lemma_smaller_same(after, cells, cells[a], a + 1, len);
        }
    }
}

/// The exchange of two neighbours changes the number of inversions by what the two
/// add to it.
pub proof fn lemma_adjacent_swap(cells: Seq<usize>, i: int)
    requires
        0 <= i,
        i + 1 < cells.len(),
    ensures
        inversion_count(swapped(cells, i, i + 1)) == inversion_count(cells) + inverted(
            swapped(cells, i, i + 1),
            i,
            i + 1,
        ) - inverted(cells, i, i + 1),
{
    lemma_before_swap(cells, i, cells.len() as int);
}

/// The cells after the entry at `from` was carried to `to`, further back, by
/// exchanges of neighbours: the entries between moved one cell forward.
pub open spec fn carried_back(cells: Seq<usize>, from: int, to: int) -> Seq<usize>
    decreases to - from,
{
    if to <= from {
        cells
    } else {
        swapped(carried_back(cells, from, to - 1), to - 1, to)
    }
}

/// The cells after the entry at `from` was carried to `to`, further to the front, by
/// exchanges of neighbours: the entries between moved one cell back.
pub open spec fn carried_forth(cells: Seq<usize>, from: int, to: int) -> Seq<usize>
    decreases from - to,
{
    if from <= to {
        cells
    } else {
        swapped(carried_forth(cells, from, to + 1), to, to + 1)
    }
}

/// Where the entries stand after one was carried back.
pub proof fn lemma_carried_back(cells: Seq<usize>, from: int, to: int)
    requires
        0 <= from <= to < cells.len(),
    ensures
        carried_back(cells, from, to).len() == cells.len(),
        forall|k: int|
            0 <= k < cells.len() ==> #[trigger] carried_back(cells, from, to)[k] == if k < from
                || k > to {
                cells[k]
            } else if k < to {
                cells[k + 1]
            } else {
                cells[from]
            },
    decreases to - from,
{
    if to > from {
        lemma_carried_back(cells, from, to - 1);
    }
}

/// Where the entries stand after one was carried forth.
pub proof fn lemma_carried_forth(cells: Seq<usize>, from: int, to: int)
    requires
        0 <= to <= from < cells.len(),
    ensures
        carried_forth(cells, from, to).len() == cells.len(),
        forall|k: int|
            0 <= k < cells.len() ==> #[trigger] carried_forth(cells, from, to)[k] == if k < to
                || k > from {
                cells[k]
            } else if k > to {
                cells[k - 1]
            } else {
                cells[from]
            },
    decreases from - to,
{
    if from > to {
        lemma_carried_forth(cells, from, to + 1);
    }
}

/// Carrying the blank back leaves the number of inversions as it was.
pub proof fn lemma_blank_carried_back(cells: Seq<usize>, from: int, to: int)
    requires
        0 <= from <= to < cells.len(),
        cells[from] == 0,
    ensures
        inversion_count(carried_back(cells, from, to)) == inversion_count(cells),
    decreases to - from,
{
    if to > from {
        lemma_blank_carried_back(cells, from, to - 1);
        lemma_carried_back(cells, from, to - 1);
        let before = carried_back(cells, from, to - 1);
        assert(before[to - 1] == 0);
        lemma_adjacent_swap(before, to - 1);
    }
}

/// Carrying the blank forth leaves the number of inversions as it was.
pub proof fn lemma_blank_carried_forth(cells: Seq<usize>, from: int, to: int)
    requires
        0 <= to <= from < cells.len(),
        cells[from] == 0,
    ensures
        inversion_count(carried_forth(cells, from, to)) == inversion_count(cells),
    decreases from - to,
{
    if from > to {
        lemma_blank_carried_forth(cells, from, to + 1);
        lemma_carried_forth(cells, from, to + 1);
        let before = carried_forth(cells, from, to + 1);
        assert(before[to + 1] == 0);
        lemma_adjacent_swap(before, to);
    }
}

/// Carrying a tile back past tiles changes the parity of the inversions once for
/// each tile that it passes.
pub proof fn lemma_tile_carried_back(cells: Seq<usize>, from: int, to: int)
    requires
        0 <= from <= to < cells.len(),
        forall|k: int| from <= k <= to ==> cells[k] != 0,
        forall|k: int| from < k <= to ==> cells[k] != cells[from],
    ensures
        (inversion_count(carried_back(cells, from, to)) - inversion_count(cells) - (to - from)) % 2
            == 0,
    decreases to - from,
{
    if to > from {
        lemma_tile_carried_back(cells, from, to - 1);
        lemma_carried_back(cells, from, to - 1);
        let before = carried_back(cells, from, to - 1);
        assert(before[to - 1] == cells[from]);
        assert(before[to] == cells[to]);
        lemma_adjacent_swap(before, to - 1);
    }
}

/// Carrying a tile forth past tiles changes the parity of the inversions once for
/// each tile that it passes.
pub proof fn lemma_tile_carried_forth(cells: Seq<usize>, from: int, to: int)
    requires
        0 <= to <= from < cells.len(),
        forall|k: int| to <= k <= from ==> cells[k] != 0,
        forall|k: int| to <= k < from ==> cells[k] != cells[from],
    ensures
        (inversion_count(carried_forth(cells, from, to)) - inversion_count(cells) - (from - to)) % 2
            == 0,
    decreases from - to,
{
    if from > to {
        lemma_tile_carried_forth(cells, from, to + 1);
        lemma_carried_forth(cells, from, to + 1);
        let before = carried_forth(cells, from, to + 1);
        assert(before[to + 1] == cells[from]);
        assert(before[to] == cells[to]);
        lemma_adjacent_swap(before, to);
    }
}

/// Exchanging the blank with a tile that stands `gap` cells behind it changes the
/// parity of the inversions as often as there are cells between the two.
pub proof fn lemma_blank_jumps_back(cells: Seq<usize>, blank: int, gap: int)
    requires
        is_permutation(cells),
        0 <= blank,
        1 <= gap,
        blank + gap < cells.len(),
        cells[blank] == 0,
    ensures
        (inversion_count(swapped(cells, blank, blank + gap)) - inversion_count(cells) - (gap - 1))
            % 2 == 0,
{
    let tile = blank + gap;
    let first = carried_back(cells, blank, tile);
    lemma_carried_back(cells, blank, tile);
    lemma_blank_carried_back(cells, blank, tile);
    let second = carried_forth(first, tile - 1, blank);
    lemma_carried_forth(first, tile - 1, blank);
    assert forall|k: int| blank <= k <= tile - 1 implies (#[trigger] first[k]) != 0 by {
        assert(first[k] == cells[k + 1]);
        assert(cells[k + 1] != cells[blank]);
    }
    assert forall|k: int| blank <= k < tile - 1 implies (#[trigger] first[k]) != first[tile - 1] by {
        assert(first[k] == cells[k + 1]);
        assert(first[tile - 1] == cells[tile]);
    }
    lemma_tile_carried_forth(first, tile - 1, blank);
    assert(second =~= swapped(cells, blank, tile));
}

/// Exchanging the blank with a tile that stands `gap` cells before it changes the
/// parity of the inversions as often as there are cells between the two.
pub proof fn lemma_blank_jumps_forth(cells: Seq<usize>, blank: int, gap: int)
    requires
        is_permutation(cells),
        1 <= gap <= blank,
        blank < cells.len(),
        cells[blank] == 0,
    ensures
        (inversion_count(swapped(cells, blank, blank - gap)) - inversion_count(cells) - (gap - 1))
            % 2 == 0,
{
    let tile = blank - gap;
    let first = carried_forth(cells, blank, tile);
    lemma_carried_forth(cells, blank, tile);
    lemma_blank_carried_forth(cells, blank, tile);
    let second = carried_back(first, tile + 1, blank);
    lemma_carried_back(first, tile + 1, blank);
    assert forall|k: int| tile + 1 <= k <= blank implies (#[trigger] first[k]) != 0 by {
        assert(first[k] == cells[k - 1]);
        assert(cells[k - 1] != cells[blank]);
    }
    assert forall|k: int| tile + 1 < k <= blank implies (#[trigger] first[k]) != first[tile + 1] by {
        assert(first[k] == cells[k - 1]);
        assert(first[tile + 1] == cells[tile]);
    }
    lemma_tile_carried_back(first, tile + 1, blank);
    assert(second =~= swapped(cells, blank, tile));
}

/// On a board with one blank, the blank is the last blank.
pub proof fn lemma_last_blank(cells: Seq<usize>, blank: int, upto: int)
    requires
        is_permutation(cells),
        0 <= blank < upto <= cells.len(),
        cells[blank] == 0,
    ensures
        last_blank(cells, upto) == blank,
    decreases upto,
{
    if upto - 1 > blank {
        assert(cells[upto - 1] != cells[blank]);
        lemma_last_blank(cells, blank, upto - 1);
    }
}

/// A move leaves the parity of the key as it was.
pub proof fn lemma_slide_keeps_key(before: Seq<usize>, after: Seq<usize>, n: int)
    requires
        is_valid_board(before, n),
        is_slide(before, after, n),
    ensures
        parity_key(before, n) % 2 == parity_key(after, n) % 2,
{
    let (i, j) = choose|i: int, j: int|
        neighbours(n, i, j) && before[i] == 0 && after == #[trigger] swapped(before, i, j);
    let len = before.len() as int;
    lemma_slide_valid(before, after, n);
    lemma_index_cell(n, i);
    lemma_index_cell(n, j);
    assert(after[j] == 0);
    lemma_last_blank(before, i, len);
    lemma_last_blank(after, j, len);
    assert((i / n + 1) * n == (i / n) * n + n) by (nonlinear_arith);
    assert((j / n + 1) * n == (j / n) * n + n) by (nonlinear_arith);
    if i / n == j / n {
        if j == i + 1 {
            lemma_blank_jumps_back(before, i, 1);
        } else {
            assert(j == i - 1);
            lemma_blank_jumps_forth(before, i, 1);
        }
    } else if j / n == i / n + 1 {
        assert(j == i + n);
        lemma_blank_jumps_back(before, i, n);
    } else {
        assert(j == i - n);
        lemma_blank_jumps_forth(before, i, n);
    }
}

/// Along a chain of moves the parity of the key stays.
pub proof fn lemma_chain_keeps_key(path: Seq<Seq<usize>>, n: int, k: int)
    requires
        0 <= k < path.len(),
        is_valid_board(path[0], n),
        forall|j: int| 0 <= j < path.len() - 1 ==> is_slide(#[trigger] path[j], path[j + 1], n),
    ensures
        is_valid_board(path[k], n),
        parity_key(path[0], n) % 2 == parity_key(path[k], n) % 2,
    decreases k,
{
    if k > 0 {
        lemma_chain_keeps_key(path, n, k - 1);
        assert(is_slide(path[k - 1], path[k], n));
        lemma_slide_valid(path[k - 1], path[k], n);
        lemma_slide_keeps_key(path[k - 1], path[k], n);
    }
}

/// Two boards that a chain of moves joins have keys of one parity.
pub proof fn lemma_moves_keep_key(from: Seq<usize>, to: Seq<usize>, n: int)
    requires
        is_valid_board(from, n),
        reachable(from, to, n),
    ensures
        parity_key(from, n) % 2 == parity_key(to, n) % 2,
{
    let path = choose|path: Seq<Seq<usize>>| is_path(path, from, to, n);
    lemma_chain_keeps_key(path, n, path.len() - 1);
}

/// Two boards that a chain of moves joins pass the parity test together or fail it
/// together.
pub proof fn lemma_moves_keep_solvable(from: Seq<usize>, to: Seq<usize>, n: int)
    requires
        is_valid_board(from, n),
        reachable(from, to, n),
    ensures
        is_solvable_board(from, n) == is_solvable_board(to, n),
{
    lemma_moves_keep_key(from, to, n);
}

/// A board from which a chain of moves leads to the goal passes the parity test.
pub proof fn lemma_reachable_is_solvable(cells: Seq<usize>, n: int)
    requires
        is_valid_board(cells, n),
        reachable(cells, goal_cells(n), n),
    ensures
        is_solvable_board(cells, n),
{
    lemma_moves_keep_solvable(cells, goal_cells(n), n);
}

} // verus!
