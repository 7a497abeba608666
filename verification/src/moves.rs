//! The moves of the puzzle: the blank changes places with a tile beside it.

use vstd::prelude::*;
use crate::board::{
    cell_index, first_index, has_value, is_board, is_first_index, is_valid_board,
    lemma_cell_index, lemma_first_index_exists, lemma_index_cell, lemma_permutation_first_index,
    lemma_permutation_has_all,
};

verus! {

/// The cells with the entries at `i` and `j` exchanged.
pub open spec fn swapped(cells: Seq<usize>, i: int, j: int) -> Seq<usize> {
    cells.update(i, cells[j]).update(j, cells[i])
}

/// Cells `i` and `j` of a board of side `n` share an edge.
pub open spec fn neighbours(n: int, i: int, j: int) -> bool {
    &&& 0 <= i < n * n
    &&& 0 <= j < n * n
    &&& {
        ||| i / n == j / n && (i % n == j % n + 1 || j % n == i % n + 1)
        ||| i % n == j % n && (i / n == j / n + 1 || j / n == i / n + 1)
    }
}

/// `after` comes from `before` by one move: the blank of some cell changes places
/// with the tile of a cell beside it.
pub open spec fn is_slide(before: Seq<usize>, after: Seq<usize>, n: int) -> bool {
    exists|i: int, j: int|
        neighbours(n, i, j) && before[i] == 0 && after == #[trigger] swapped(before, i, j)
}

/// The states that one move leads to, in the order up, down, left, right of the
/// blank's travel; a direction that leaves the board is left out.
pub open spec fn successors(cells: Seq<usize>, n: int) -> Seq<Seq<usize>> {
    let blank = first_index(cells, 0);
    let x = blank % n;
    let y = blank / n;
    let up = if y != 0 {
        seq![swapped(cells, cell_index(n, x, y), cell_index(n, x, y - 1))]
    } else {
        Seq::empty()
    };
    let down = if y != n - 1 {
        seq![swapped(cells, cell_index(n, x, y), cell_index(n, x, y + 1))]
    } else {
        Seq::empty()
    };
    let left = if x != 0 {
        seq![swapped(cells, cell_index(n, x, y), cell_index(n, x - 1, y))]
    } else {
        Seq::empty()
    };
    let right = if x != n - 1 {
        seq![swapped(cells, cell_index(n, x, y), cell_index(n, x + 1, y))]
    } else {
        Seq::empty()
    };
    up + down + left + right
}

/// `path` is a chain of moves that leads from `from` to `to`.
pub open spec fn is_path(path: Seq<Seq<usize>>, from: Seq<usize>, to: Seq<usize>, n: int) -> bool {
    &&& path.len() > 0
    &&& path[0] == from
    &&& path[path.len() - 1] == to
    &&& forall|k: int| 0 <= k < path.len() - 1 ==> is_slide(#[trigger] path[k], path[k + 1], n)
}

/// Some chain of moves leads from `from` to `to`.
pub open spec fn reachable(from: Seq<usize>, to: Seq<usize>, n: int) -> bool {
    exists|path: Seq<Seq<usize>>| is_path(path, from, to, n)
}

/// Exchanging two cells of a valid board leaves a valid board.
pub proof fn lemma_swapped_valid(cells: Seq<usize>, n: int, i: int, j: int)
    requires
        is_valid_board(cells, n),
        0 <= i < cells.len(),
        0 <= j < cells.len(),
    ensures
        is_valid_board(swapped(cells, i, j), n),
{
    let after = swapped(cells, i, j);
    let from = |t: int|
        if t == i {
            j
        } else if t == j {
            i
        } else {
            t
        };
    assert forall|t: int| 0 <= t < after.len() implies after[t] == cells[#[trigger] from(t)] by {}
    assert forall|t: int| 0 <= t < after.len() implies (#[trigger] after[t]) < after.len() by {
        assert(after[t] == cells[from(t)]);
    }
    assert forall|s: int, t: int|
        0 <= s < after.len() && 0 <= t < after.len() && s != t implies after[s] != after[t] by {
        assert(after[s] == cells[from(s)]);
        assert(after[t] == cells[from(t)]);
    }
}

/// A move can be taken back.
pub proof fn lemma_slide_back(before: Seq<usize>, after: Seq<usize>, n: int)
    requires
        is_slide(before, after, n),
        is_board(before, n),
    ensures
        is_slide(after, before, n),
{
    let (i, j) = choose|i: int, j: int|
        neighbours(n, i, j) && before[i] == 0 && after == #[trigger] swapped(before, i, j);
    assert(before =~= swapped(after, j, i));
    assert(neighbours(n, j, i));
    assert(after[j] == 0);
}

/// A move keeps a valid board valid.
pub proof fn lemma_slide_valid(before: Seq<usize>, after: Seq<usize>, n: int)
    requires
        is_slide(before, after, n),
        is_valid_board(before, n),
    ensures
        is_valid_board(after, n),
{
    let (i, j) = choose|i: int, j: int|
        neighbours(n, i, j) && before[i] == 0 && after == #[trigger] swapped(before, i, j);
    lemma_swapped_valid(before, n, i, j);
}

/// Where the blank of a valid board stands.
pub proof fn lemma_blank_cell(cells: Seq<usize>, n: int)
    requires
        is_valid_board(cells, n),
    ensures
        has_value(cells, 0),
        is_first_index(cells, 0, first_index(cells, 0)),
        0 <= first_index(cells, 0) % n < n,
        0 <= first_index(cells, 0) / n < n,
        cell_index(n, first_index(cells, 0) % n, first_index(cells, 0) / n) == first_index(
            cells,
            0,
        ),
{
    assert(0 < cells.len()) by (nonlinear_arith)
        requires
            cells.len() == n * n,
            2 <= n,
    ;
    lemma_permutation_has_all(cells, 0);
    lemma_first_index_exists(cells, 0);
    lemma_index_cell(n, first_index(cells, 0));
}

/// Each successor comes from the state by one move.
pub proof fn lemma_successor_is_slide(cells: Seq<usize>, n: int, k: int)
    requires
        is_valid_board(cells, n),
        0 <= k < successors(cells, n).len(),
    ensures
        is_slide(cells, successors(cells, n)[k], n),
        is_valid_board(successors(cells, n)[k], n),
{
    lemma_blank_cell(cells, n);
    let blank = first_index(cells, 0);
    let x = blank % n;
    let y = blank / n;
    let next = successors(cells, n)[k];
    if y != 0 {
        lemma_cell_index(n, x, y - 1);
    }
    if y != n - 1 {
        lemma_cell_index(n, x, y + 1);
    }
    if x != 0 {
        lemma_cell_index(n, x - 1, y);
    }
    if x != n - 1 {
        lemma_cell_index(n, x + 1, y);
    }
    let j = choose|j: int| neighbours(n, blank, j) && next == swapped(cells, blank, j);
    assert(next == swapped(cells, blank, j));
    lemma_slide_valid(cells, next, n);
}

/// Every move from a valid state leads to one of its successors.
pub proof fn lemma_slide_is_successor(cells: Seq<usize>, after: Seq<usize>, n: int)
    requires
        is_valid_board(cells, n),
        is_slide(cells, after, n),
    ensures
        successors(cells, n).contains(after),
{
    lemma_blank_cell(cells, n);
    let (i, j) = choose|i: int, j: int|
        neighbours(n, i, j) && cells[i] == 0 && after == #[trigger] swapped(cells, i, j);
    lemma_permutation_first_index(cells, i);
    let blank = first_index(cells, 0);
    assert(blank == i);
    let x = blank % n;
    let y = blank / n;
    lemma_index_cell(n, j);
    let list = successors(cells, n);
    if j / n == y - 1 {
        assert(list[0] == after);
    } else if j / n == y + 1 {
        assert(list[if y != 0 { 1int } else { 0int }] == after);
    } else if j % n == x - 1 {
        assert(list[(if y != 0 { 1int } else { 0int }) + (if y != n - 1 { 1int } else { 0int })]
            == after);
    } else {
        assert(list[(if y != 0 { 1int } else { 0int }) + (if y != n - 1 { 1int } else { 0int })
            + (if x != 0 { 1int } else { 0int })] == after);
    }
}

/// A state has two successors when the blank stands in a corner, three when it
/// stands elsewhere on the border, four when it stands inside.
pub proof fn lemma_successor_count(cells: Seq<usize>, n: int)
    requires
        is_valid_board(cells, n),
    ensures
        ({
            let x = first_index(cells, 0) % n;
            let y = first_index(cells, 0) / n;
            let on_side = x == 0 || x == n - 1;
            let on_top_or_bottom = y == 0 || y == n - 1;
            successors(cells, n).len() == if on_side && on_top_or_bottom {
                2int
            } else if on_side || on_top_or_bottom {
                3int
            } else {
                4int
            }
        }),
{
    lemma_blank_cell(cells, n);
}

/// A successor differs from the state in exactly two cells: the one that held the
/// blank and the one that holds it now.
pub proof fn lemma_successor_differs(cells: Seq<usize>, n: int, k: int)
    requires
        is_valid_board(cells, n),
        0 <= k < successors(cells, n).len(),
    ensures
        exists|i: int, j: int|
            {
                &&& 0 <= i < cells.len()
                &&& 0 <= j < cells.len()
                &&& i != j
                &&& cells[i] == 0
                &&& #[trigger] successors(cells, n)[k][j] == 0
                &&& #[trigger] successors(cells, n)[k][i] != cells[i]
                &&& successors(cells, n)[k][j] != cells[j]
                &&& forall|t: int|
                    0 <= t < cells.len() && t != i && t != j ==> successors(cells, n)[k][t]
                        == cells[t]
            },
{
    lemma_successor_is_slide(cells, n, k);
    let next = successors(cells, n)[k];
    let (i, j) = choose|i: int, j: int|
        neighbours(n, i, j) && cells[i] == 0 && next == #[trigger] swapped(cells, i, j);
    assert(i != j);
    assert(next[j] == 0);
    assert(next[i] == cells[j]);
}

/// A state is reached from itself.
pub proof fn lemma_reachable_self(cells: Seq<usize>, n: int)
    ensures
        reachable(cells, cells, n),
{
    let path = seq![cells];
    assert(path[0] == cells);
    assert(is_path(path, cells, cells, n));
}

/// One move reaches.
pub proof fn lemma_reachable_step(before: Seq<usize>, after: Seq<usize>, n: int)
    requires
        is_slide(before, after, n),
    ensures
        reachable(before, after, n),
{
    let path = seq![before, after];
    assert(path[0] == before);
    assert(path[1] == after);
    assert(is_path(path, before, after, n));
}

/// What is reached from a state that is reached, is reached.
pub proof fn lemma_reachable_twice(first: Seq<usize>, second: Seq<usize>, third: Seq<usize>, n: int)
    requires
        reachable(first, second, n),
        reachable(second, third, n),
    ensures
        reachable(first, third, n),
{
    let left = choose|path: Seq<Seq<usize>>| is_path(path, first, second, n);
    let right = choose|path: Seq<Seq<usize>>| is_path(path, second, third, n);
    let path = left + right.drop_first();
    assert forall|k: int| 0 <= k < path.len() - 1 implies is_slide(
        #[trigger] path[k],
        path[k + 1],
        n,
    ) by {
        if k < left.len() - 1 {
            assert(path[k] == left[k]);
            assert(path[k + 1] == left[k + 1]);
        } else if k == left.len() - 1 {
            assert(path[k] == left[k]);
            assert(path[k + 1] == right[1]);
            assert(is_slide(right[0], right[1], n));
        } else {
            let r = k - left.len() + 1;
            assert(path[k] == right[r]);
            assert(path[k + 1] == right[r + 1]);
            assert(is_slide(right[r], right[r + 1], n));
        }
    }
    assert(path[0] == left[0]);
    if right.len() == 1 {
        assert(path =~= left);
    } else {
        assert(path[path.len() - 1] == right[right.len() - 1]);
    }
    assert(is_path(path, first, third, n));
}

/// The states of a chain from a valid board are valid boards.
pub proof fn lemma_path_valid(path: Seq<Seq<usize>>, n: int, k: int)
    requires
        0 <= k < path.len(),
        is_valid_board(path[0], n),
        forall|j: int| 0 <= j < path.len() - 1 ==> is_slide(#[trigger] path[j], path[j + 1], n),
    ensures
        is_valid_board(path[k], n),
    decreases k,
{
    if k > 0 {
        lemma_path_valid(path, n, k - 1);
        assert(is_slide(path[k - 1], path[k], n));
        lemma_slide_valid(path[k - 1], path[k], n);
    }
}

/// A chain of moves can be walked back.
pub proof fn lemma_reachable_back(from: Seq<usize>, to: Seq<usize>, n: int)
    requires
        is_valid_board(from, n),
        reachable(from, to, n),
    ensures
        reachable(to, from, n),
        is_valid_board(to, n),
{
    let path = choose|path: Seq<Seq<usize>>| is_path(path, from, to, n);
    let back = Seq::new(path.len(), |k: int| path[path.len() - 1 - k]);
    assert forall|k: int| 0 <= k < back.len() - 1 implies is_slide(
        #[trigger] back[k],
        back[k + 1],
        n,
    ) by {
        let j = path.len() - 2 - k;
        assert(is_slide(path[j], path[j + 1], n));
        lemma_path_valid(path, n, j);
        lemma_slide_back(path[j], path[j + 1], n);
    }
    assert(back[0] == to);
    assert(back[back.len() - 1] == from);
    assert(is_path(back, to, from, n));
    lemma_path_valid(path, n, path.len() - 1);
}

} // verus!
