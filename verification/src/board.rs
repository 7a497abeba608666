//! The mathematical model of a board: a sequence of cells in row-major order.
//!
//! Cell `(x, y)` of a board of side `n` is entry `y * n + x` of the sequence; the
//! blank is the value zero.

use vstd::prelude::*;

verus! {

/// The index of cell `(x, y)` on a board of side `n`.
pub open spec fn cell_index(n: int, x: int, y: int) -> int {
    y * n + x
}

/// Distance between two grid cells when only horizontal and vertical steps count.
pub open spec fn grid_distance(x1: int, y1: int, x2: int, y2: int) -> int {
    (if x1 <= x2 {
        x2 - x1
    } else {
        x1 - x2
    }) + (if y1 <= y2 {
        y2 - y1
    } else {
        y1 - y2
    })
}

/// The sequence has one entry for each cell of a board of side `n`.
pub open spec fn is_board(cells: Seq<usize>, n: int) -> bool {
    cells.len() == n * n
}

/// Every entry is below the length and no value occurs twice.
pub open spec fn is_permutation(cells: Seq<usize>) -> bool {
    &&& forall|i: int| 0 <= i < cells.len() ==> (#[trigger] cells[i]) < cells.len()
    &&& forall|i: int, j: int|
        0 <= i < cells.len() && 0 <= j < cells.len() && i != j ==> cells[i] != cells[j]
}

/// A board of side at least two that holds each of `0 .. n * n` exactly once.
pub open spec fn is_valid_board(cells: Seq<usize>, n: int) -> bool {
    &&& 2 <= n
    &&& is_board(cells, n)
    &&& is_permutation(cells)
}

/// The value occurs among the cells.
pub open spec fn has_value(cells: Seq<usize>, value: usize) -> bool {
    exists|i: int| 0 <= i < cells.len() && cells[i] == value
}

/// `i` is the first index at which `value` stands.
pub open spec fn is_first_index(cells: Seq<usize>, value: usize, i: int) -> bool {
    &&& 0 <= i < cells.len()
    &&& cells[i] == value
    &&& forall|j: int| 0 <= j < i ==> cells[j] != value
}

/// The first index at which `value` stands; meaningful when the value occurs.
pub open spec fn first_index(cells: Seq<usize>, value: usize) -> int {
    choose|i: int| is_first_index(cells, value, i)
}

/// Two first indices of one value coincide, so `first_index` names the one there is.
pub proof fn lemma_first_index_unique(cells: Seq<usize>, value: usize, i: int)
    requires
        is_first_index(cells, value, i),
    ensures
        first_index(cells, value) == i,
{
    let k = first_index(cells, value);
    assert(is_first_index(cells, value, k));
    if k < i {
        assert(cells[k] != value);
    } else if i < k {
        assert(cells[i] != value);
    }
}

/// A value that occurs has a first index.
pub proof fn lemma_first_index_exists(cells: Seq<usize>, value: usize)
    requires
        has_value(cells, value),
    ensures
        is_first_index(cells, value, first_index(cells, value)),
{
    let w = choose|i: int| 0 <= i < cells.len() && cells[i] == value;
    lemma_first_index_upto(cells, value, w);
}

/// A value that stands at `w` has a first index at `w` or before it.
proof fn lemma_first_index_upto(cells: Seq<usize>, value: usize, w: int)
    requires
        0 <= w < cells.len(),
        cells[w] == value,
    ensures
        is_first_index(cells, value, first_index(cells, value)),
    decreases w,
{
    if forall|j: int| 0 <= j < w ==> cells[j] != value {
        assert(is_first_index(cells, value, w));
    } else {
        let j = choose|j: int| 0 <= j < w && cells[j] == value;
        lemma_first_index_upto(cells, value, j);
    }
}

/// A permutation misses none of the values below its length.
pub proof fn lemma_permutation_has_all(cells: Seq<usize>, value: usize)
    requires
        is_permutation(cells),
        value < cells.len(),
    ensures
        has_value(cells, value),
{
    let wide = Seq::new(cells.len(), |i: int| cells[i] as int);
    assert(wide.no_duplicates());
    wide.unique_seq_to_set();
    vstd::seq_lib::seq_to_set_is_finite(wide);
    let range = vstd::set_lib::set_int_range(0, cells.len() as int);
    vstd::set_lib::lemma_int_range(0, cells.len() as int);
    assert(wide.to_set().subset_of(range)) by {
        assert forall|v: int| wide.to_set().contains(v) implies range.contains(v) by {
            let i = choose|i: int| 0 <= i < wide.len() && wide[i] == v;
            assert(cells[i] < cells.len());
        }
    }
    vstd::set_lib::lemma_subset_equality(wide.to_set(), range);
    assert(range.contains(value as int));
    assert(wide.to_set().contains(value as int));
    let i = choose|i: int| 0 <= i < wide.len() && wide[i] == value as int;
    assert(cells[i] == value);
}

/// In a permutation a value stands at one index only, which is its first.
pub proof fn lemma_permutation_first_index(cells: Seq<usize>, i: int)
    requires
        is_permutation(cells),
        0 <= i < cells.len(),
    ensures
        first_index(cells, cells[i]) == i,
        has_value(cells, cells[i]),
{
    assert(is_first_index(cells, cells[i], i));
    lemma_first_index_unique(cells, cells[i], i);
}

/// Row-major indices determine their coordinates.
pub proof fn lemma_cell_index(n: int, x: int, y: int)
    requires
        0 <= x < n,
        0 <= y,
    ensures
        cell_index(n, x, y) % n == x,
        cell_index(n, x, y) / n == y,
        0 <= cell_index(n, x, y),
        y < n ==> cell_index(n, x, y) < n * n,
{
    vstd::arithmetic::div_mod::lemma_fundamental_div_mod_converse(y * n + x, n, y, x);
    assert(0 <= y * n) by (nonlinear_arith)
        requires
            0 <= y,
            0 < n,
    ;
    if y < n {
        assert(y * n + x < n * n) by (nonlinear_arith)
            requires
                0 <= x < n,
                0 <= y < n,
        ;
    }
}

/// Every index of a board is the index of the cell in its column and row.
pub proof fn lemma_index_cell(n: int, i: int)
    requires
        0 < n,
        0 <= i < n * n,
    ensures
        0 <= i % n < n,
        0 <= i / n < n,
        cell_index(n, i % n, i / n) == i,
{
    vstd::arithmetic::div_mod::lemma_fundamental_div_mod(i, n);
    vstd::arithmetic::div_mod::lemma_mod_bound(i, n);
    assert(n * (i / n) == (i / n) * n) by (nonlinear_arith);
    assert(0 <= i / n < n) by (nonlinear_arith)
        requires
            0 < n,
            0 <= i < n * n,
            i == (i / n) * n + i % n,
            0 <= i % n < n,
    ;
}

} // verus!
