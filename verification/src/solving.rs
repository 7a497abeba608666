//! Why every board that passes the parity test can be brought into the goal.
//!
//! Along the snake the tiles form a row in which the blank stands somewhere.  The
//! blank can travel to any place of the row without changing the order of the
//! tiles, and at every turn of the snake a jump of the blank carries one tile past
//! an even number of others.  Such jumps turn any three tiles that follow each other
//! round, and turning threes round sorts the row but for its last two tiles.

use vstd::prelude::*;
use crate::board::{
    is_valid_board, lemma_cell_index, lemma_index_cell, lemma_permutation_has_all,
};
use crate::moves::{
    lemma_reachable_back, lemma_reachable_self, lemma_reachable_twice, reachable, swapped,
};
use crate::parity::{
    carried_back, carried_forth, lemma_adjacent_swap, lemma_carried_back, lemma_carried_forth,
    lemma_last_blank, lemma_moves_keep_key, lemma_reachable_is_solvable,
};
use crate::snake::{
    along_snake, lemma_along_swapped, lemma_along_twice, lemma_along_valid, lemma_snake,
    lemma_snake_move, snake, snake_neighbours,
};
use crate::solvable::{is_solvable_board, parity_key};
use crate::spiral::{goal_cells, lemma_goal_is_valid};

verus! {

/// The tiles of a board of side `n` in some order: each of `1 .. n * n` once.
pub open spec fn is_tiles(tiles: Seq<usize>, n: int) -> bool {
    &&& 2 <= n
    &&& tiles.len() == n * n - 1
    &&& forall|i: int| 0 <= i < tiles.len() ==> 1 <= (#[trigger] tiles[i]) <= tiles.len()
    &&& forall|i: int, j: int|
        0 <= i < tiles.len() && 0 <= j < tiles.len() && i != j ==> tiles[i] != tiles[j]
}

/// The row of the snake in which `blank` tiles stand before the blank.
pub open spec fn row_of(tiles: Seq<usize>, blank: int) -> Seq<usize> {
    tiles.insert(blank, 0)
}

/// The board whose tiles stand in this order along the snake, `blank` of them
/// before the blank.
pub open spec fn board_of(tiles: Seq<usize>, blank: int, n: int) -> Seq<usize> {
    along_snake(row_of(tiles, blank), n)
}

/// A row of tiles with the blank in it is a valid board.
pub proof fn lemma_row_valid(tiles: Seq<usize>, blank: int, n: int)
    requires
        is_tiles(tiles, n),
        0 <= blank <= tiles.len(),
    ensures
        is_valid_board(row_of(tiles, blank), n),
        is_valid_board(board_of(tiles, blank, n), n),
        row_of(tiles, blank)[blank] == 0,
{
    let row = row_of(tiles, blank);
    assert forall|p: int| 0 <= p < row.len() implies (#[trigger] row[p]) < row.len() by {
        if p < blank {
            assert(row[p] == tiles[p]);
        } else if p > blank {
            assert(row[p] == tiles[p - 1]);
        }
    }
    assert forall|p: int, q: int|
        0 <= p < row.len() && 0 <= q < row.len() && p != q implies row[p] != row[q] by {
        let from_p = if p < blank {
            p
        } else {
            p - 1
        };
        let from_q = if q < blank {
            q
        } else {
            q - 1
        };
        if p != blank {
            assert(row[p] == tiles[from_p]);
        }
        if q != blank {
            assert(row[q] == tiles[from_q]);
        }
    }
    lemma_along_valid(row, n);
}

/// Places of the snake that follow each other are neighbours.
pub proof fn lemma_next_place(n: int, p: int)
    requires
        0 < n,
        0 <= p,
        p + 1 < n * n,
    ensures
        snake_neighbours(n, p, p + 1),
        snake_neighbours(n, p + 1, p),
{
    lemma_index_cell(n, p);
    lemma_index_cell(n, p + 1);
    let y = p / n;
    let r = p % n;
    if r + 1 < n {
        lemma_cell_index(n, r + 1, y);
    } else {
        assert((y + 1) * n == y * n + n) by (nonlinear_arith);
        lemma_cell_index(n, 0, y + 1);
    }
}

/// The blank may stand anywhere among the tiles: the boards are reached from each
/// other.
pub proof fn lemma_blank_travels(tiles: Seq<usize>, n: int, from: int, to: int)
    requires
        is_tiles(tiles, n),
        0 <= from <= tiles.len(),
        0 <= to <= tiles.len(),
    ensures
        reachable(board_of(tiles, from, n), board_of(tiles, to, n), n),
    decreases
            if from <= to {
                to - from
            } else {
                from - to
            },
{
    if from == to {
        lemma_reachable_self(board_of(tiles, from, n), n);
    } else {
        let next = if from < to {
            from + 1
        } else {
            from - 1
        };
        lemma_row_valid(tiles, from, n);
        let row = row_of(tiles, from);
        if from < to {
            lemma_next_place(n, from);
        } else {
            lemma_next_place(n, from - 1);
        }
        lemma_snake_move(row, n, from, next);
        assert(swapped(row, from, next) =~= row_of(tiles, next));
        lemma_blank_travels(tiles, n, next, to);
        lemma_reachable_twice(
            board_of(tiles, from, n),
            board_of(tiles, next, n),
            board_of(tiles, to, n),
            n,
        );
    }
}

/// The place with which a row of the snake ends, where the snake turns into the next
/// row.
pub open spec fn turn_of(n: int, y: int) -> int {
    y * n + n - 1
}

/// Places as far before a turn as behind it are neighbours.
pub proof fn lemma_across_turn(n: int, y: int, d: int)
    requires
        2 <= n,
        0 <= y <= n - 2,
        0 <= d <= n - 1,
    ensures
        0 <= turn_of(n, y) - d,
        turn_of(n, y) + d + 1 < n * n,
        snake_neighbours(n, turn_of(n, y) - d, turn_of(n, y) + d + 1),
{
    let p = turn_of(n, y) - d;
    let q = turn_of(n, y) + d + 1;
    assert((y + 1) * n == y * n + n) by (nonlinear_arith);
    lemma_cell_index(n, n - 1 - d, y);
    lemma_cell_index(n, d, y + 1);
    assert(p == y * n + (n - 1 - d));
    assert(q == (y + 1) * n + d);
}

/// The board with tiles in the order `to` is reached from the board with tiles in
/// the order `from`, the blank standing first on both.
pub open spec fn tiles_reach(from: Seq<usize>, to: Seq<usize>, n: int) -> bool {
    reachable(board_of(from, 0, n), board_of(to, 0, n), n)
}

/// A row of tiles reaches itself.
pub proof fn lemma_tiles_reach_self(tiles: Seq<usize>, n: int)
    ensures
        tiles_reach(tiles, tiles, n),
{
    lemma_reachable_self(board_of(tiles, 0, n), n);
}

/// What a row reaches that is reached, is reached.
pub proof fn lemma_tiles_reach_twice(
    first: Seq<usize>,
    second: Seq<usize>,
    third: Seq<usize>,
    n: int,
)
    requires
        tiles_reach(first, second, n),
        tiles_reach(second, third, n),
    ensures
        tiles_reach(first, third, n),
{
    lemma_reachable_twice(
        board_of(first, 0, n),
        board_of(second, 0, n),
        board_of(third, 0, n),
        n,
    );
}

/// Tiles of which one was carried forth are the same tiles.
pub proof fn lemma_carried_tiles(tiles: Seq<usize>, n: int, from: int, to: int)
    requires
        is_tiles(tiles, n),
        0 <= to <= from < tiles.len(),
    ensures
        is_tiles(carried_forth(tiles, from, to), n),
{
    let after = carried_forth(tiles, from, to);
    lemma_carried_forth(tiles, from, to);
    let origin = |k: int|
        if k < to || k > from {
            k
        } else if k > to {
            k - 1
        } else {
            from
        };
    assert forall|k: int| 0 <= k < after.len() implies after[k] == tiles[#[trigger] origin(k)] by {}
    assert forall|i: int| 0 <= i < after.len() implies 1 <= (#[trigger] after[i]) <= after.len() by {
        assert(after[i] == tiles[origin(i)]);
    }
    assert forall|i: int, j: int|
        0 <= i < after.len() && 0 <= j < after.len() && i != j implies after[i] != after[j] by {
        assert(after[i] == tiles[origin(i)]);
        assert(after[j] == tiles[origin(j)]);
        assert(origin(i) != origin(j));
    }
}

/// A jump of the blank across a turn of the snake carries the tile that stands `d`
/// places behind the turn to the place `d` places before it.
pub proof fn lemma_turn_once(tiles: Seq<usize>, n: int, y: int, d: int)
    requires
        is_tiles(tiles, n),
        0 <= y <= n - 2,
        1 <= d <= n - 1,
    ensures
        0 <= turn_of(n, y) - d,
        turn_of(n, y) + d < tiles.len(),
        is_tiles(carried_forth(tiles, turn_of(n, y) + d, turn_of(n, y) - d), n),
        tiles_reach(tiles, carried_forth(tiles, turn_of(n, y) + d, turn_of(n, y) - d), n),
{
    let p = turn_of(n, y) - d;
    let q = turn_of(n, y) + d + 1;
    lemma_across_turn(n, y, d);
    let after = carried_forth(tiles, q - 1, p);
    lemma_carried_forth(tiles, q - 1, p);
    lemma_carried_tiles(tiles, n, q - 1, p);
    lemma_row_valid(tiles, p, n);
    let row = row_of(tiles, p);
    lemma_snake_move(row, n, p, q);
    assert(swapped(row, p, q) =~= row_of(after, q));
    lemma_blank_travels(tiles, n, 0, p);
    lemma_blank_travels(after, n, q, 0);
    lemma_reachable_twice(board_of(tiles, 0, n), board_of(tiles, p, n), board_of(after, q, n), n);
    lemma_reachable_twice(board_of(tiles, 0, n), board_of(after, q, n), board_of(after, 0, n), n);
}

/// The tiles after the window from `lo` to `hi` was turned round `k` times: each of
/// its tiles moved `k` places back, those that met the end of the window entering
/// at its front.
pub open spec fn turned(tiles: Seq<usize>, lo: int, hi: int, k: int) -> Seq<usize> {
    Seq::new(
        tiles.len(),
        |j: int|
            if lo <= j <= hi {
                if j - k >= lo {
                    tiles[j - k]
                } else {
                    tiles[j - k + (hi - lo + 1)]
                }
            } else {
                tiles[j]
            },
    )
}

/// A window about a turn of the snake can be turned round any number of times.
pub proof fn lemma_turn_often(tiles: Seq<usize>, n: int, y: int, d: int, k: int)
    requires
        is_tiles(tiles, n),
        0 <= y <= n - 2,
        1 <= d <= n - 1,
        0 <= k <= 2 * d + 1,
    ensures
        is_tiles(turned(tiles, turn_of(n, y) - d, turn_of(n, y) + d, k), n),
        tiles_reach(tiles, turned(tiles, turn_of(n, y) - d, turn_of(n, y) + d, k), n),
    decreases k,
{
    let lo = turn_of(n, y) - d;
    let hi = turn_of(n, y) + d;
    lemma_across_turn(n, y, d);
    if k == 0 {
        assert(turned(tiles, lo, hi, 0) =~= tiles);
        lemma_tiles_reach_self(tiles, n);
    } else {
        lemma_turn_often(tiles, n, y, d, k - 1);
        let before = turned(tiles, lo, hi, k - 1);
        lemma_turn_once(before, n, y, d);
        lemma_carried_forth(before, hi, lo);
        assert(carried_forth(before, hi, lo) =~= turned(tiles, lo, hi, k));
        lemma_tiles_reach_twice(tiles, before, turned(tiles, lo, hi, k), n);
    }
}

/// The tiles after the three that stand from place `i` on were turned round: the
/// third stands first.
pub open spec fn cycled(tiles: Seq<usize>, i: int) -> Seq<usize> {
    carried_forth(tiles, i + 2, i)
}

/// How often a window about `mid` is turned round to bring the three tiles from
/// place `i` on about `mid`.
pub open spec fn turns_to(lo: int, hi: int, mid: int, i: int) -> int {
    if mid - 1 - i >= 0 {
        mid - 1 - i
    } else {
        (hi - lo + 1) + (mid - 1 - i)
    }
}

/// Turning a window round until three of its tiles stand about its middle, turning
/// these three round, and turning the window back, turns the three round where
/// they stood.
#[verifier::rlimit(40)]
pub proof fn lemma_cycle_by_turning(tiles: Seq<usize>, lo: int, hi: int, mid: int, i: int)
    requires
        0 <= lo <= i,
        i + 2 <= hi < tiles.len(),
        lo <= mid - 1,
        mid + 1 <= hi,
    ensures
        0 <= turns_to(lo, hi, mid, i) <= hi - lo + 1,
        turned(
            carried_forth(turned(tiles, lo, hi, turns_to(lo, hi, mid, i)), mid + 1, mid - 1),
            lo,
            hi,
            (hi - lo + 1) - turns_to(lo, hi, mid, i),
        ) == cycled(tiles, i),
{
    let width = hi - lo + 1;
    let k = turns_to(lo, hi, mid, i);
    let first = turned(tiles, lo, hi, k);
    let second = carried_forth(first, mid + 1, mid - 1);
    lemma_carried_forth(first, mid + 1, mid - 1);
    let third = turned(second, lo, hi, width - k);
    let wanted = cycled(tiles, i);
    lemma_carried_forth(tiles, i + 2, i);
    assert(third.len() == wanted.len());
    assert forall|j: int| 0 <= j < third.len() implies third[j] == wanted[j] by {
        if lo <= j <= hi {
            // where the tile of place `j` stood after the window was turned
            let at = if j - (width - k) >= lo {
                j - (width - k)
            } else {
                j + k
            };
            assert(third[j] == second[at]);
            if at == mid - 1 {
                assert(second[at] == first[mid + 1]);
            } else if at == mid || at == mid + 1 {
                assert(second[at] == first[at - 1]);
            } else {
                assert(second[at] == first[at]);
            }
        } else {
            assert(third[j] == second[j]);
            assert(second[j] == first[j]);
        }
    }
    assert(third =~= wanted);
}

/// Three tiles that follow each other within a window about a turn can be turned
/// round: the window is turned until the three stand about the turn, the blank
/// jumps past them, and the window is turned back.
#[verifier::rlimit(40)]
pub proof fn lemma_cycle_in_window(tiles: Seq<usize>, n: int, y: int, d: int, i: int)
    requires
        is_tiles(tiles, n),
        0 <= y <= n - 2,
        1 <= d <= n - 1,
        turn_of(n, y) - d <= i,
        i + 2 <= turn_of(n, y) + d,
    ensures
        is_tiles(cycled(tiles, i), n),
        tiles_reach(tiles, cycled(tiles, i), n),
{
    let m = turn_of(n, y);
    let lo = m - d;
    let hi = m + d;
    let width = 2 * d + 1;
    let k = turns_to(lo, hi, m, i);
    lemma_across_turn(n, y, d);
    lemma_cycle_by_turning(tiles, lo, hi, m, i);
    lemma_turn_often(tiles, n, y, d, k);
    let first = turned(tiles, lo, hi, k);
    lemma_turn_once(first, n, y, 1);
    let second = carried_forth(first, m + 1, m - 1);
    lemma_turn_often(second, n, y, d, width - k);
    let third = turned(second, lo, hi, width - k);
    lemma_tiles_reach_twice(tiles, first, second, n);
    lemma_tiles_reach_twice(tiles, second, third, n);
}

/// Any three tiles that follow each other can be turned round.
pub proof fn lemma_cycle(tiles: Seq<usize>, n: int, i: int)
    requires
        is_tiles(tiles, n),
        0 <= i,
        i + 2 < tiles.len(),
    ensures
        is_tiles(cycled(tiles, i), n),
        tiles_reach(tiles, cycled(tiles, i), n),
{
    lemma_index_cell(n, i);
    let y = if i / n <= n - 2 {
        i / n
    } else {
        n - 2
    };
    let m = turn_of(n, y);
    let d = if i < m {
        m - i
    } else {
        i + 2 - m
    };
    assert((n - 1) * n == (n - 2) * n + n) by (nonlinear_arith);
    assert(n * n == (n - 1) * n + n) by (nonlinear_arith);
    assert(i / n <= n - 1);
    if i / n > n - 2 {
        assert(i / n == n - 1);
        assert(i >= (n - 1) * n);
    }
    lemma_cycle_in_window(tiles, n, y, d, i);
}

/// Turned round twice, the second of three tiles stands first.
pub proof fn lemma_cycle_twice(tiles: Seq<usize>, n: int, i: int)
    requires
        is_tiles(tiles, n),
        0 <= i,
        i + 2 < tiles.len(),
    ensures
        is_tiles(cycled(cycled(tiles, i), i), n),
        tiles_reach(tiles, cycled(cycled(tiles, i), i), n),
        cycled(cycled(tiles, i), i) == carried_back(tiles, i, i + 2),
{
    lemma_cycle(tiles, n, i);
    lemma_cycle(cycled(tiles, i), n, i);
    lemma_tiles_reach_twice(tiles, cycled(tiles, i), cycled(cycled(tiles, i), i), n);
    lemma_carried_forth(tiles, i + 2, i);
    lemma_carried_forth(cycled(tiles, i), i + 2, i);
    lemma_carried_back(tiles, i, i + 2);
    assert(cycled(cycled(tiles, i), i) =~= carried_back(tiles, i, i + 2));
}

/// The first `t` tiles stand in rising order: tile `k + 1` at place `k`.
pub open spec fn sorted_upto(tiles: Seq<usize>, t: int) -> bool {
    forall|k: int| 0 <= k < t ==> tiles[k] == k + 1
}

/// Every tile stands somewhere in the row.
pub proof fn lemma_tile_stands(tiles: Seq<usize>, n: int, value: usize) -> (j: int)
    requires
        is_tiles(tiles, n),
        1 <= value <= tiles.len(),
    ensures
        0 <= j < tiles.len(),
        tiles[j] == value,
{
    lemma_row_valid(tiles, 0, n);
    let row = row_of(tiles, 0);
    lemma_permutation_has_all(row, value);
    let p = choose|p: int| 0 <= p < row.len() && row[p] == value;
    assert(row[0] == 0);
    assert(p >= 1);
    assert(row[p] == tiles[p - 1]);
    p - 1
}

/// Where the first `t` tiles stand in rising order, tile `t + 1` stands at place `t`
/// or behind it.
pub proof fn lemma_tile_first(tiles: Seq<usize>, n: int, t: int) -> (j: int)
    requires
        is_tiles(tiles, n),
        n * n <= usize::MAX,
        0 <= t < tiles.len(),
        sorted_upto(tiles, t),
    ensures
        t <= j < tiles.len(),
        tiles[j] == t + 1,
{
    let j = lemma_tile_stands(tiles, n, (t + 1) as usize);
    if j < t {
        assert(tiles[j] == j + 1);
    }
    j
}

/// The tile that belongs at place `t` can be brought there from place `j` without
/// touching the tiles before place `t`.
pub proof fn lemma_bring(tiles: Seq<usize>, n: int, t: int, j: int) -> (after: Seq<usize>)
    requires
        is_tiles(tiles, n),
        0 <= t <= j < tiles.len(),
        t + 2 < tiles.len(),
        sorted_upto(tiles, t),
        tiles[j] == t + 1,
    ensures
        is_tiles(after, n),
        tiles_reach(tiles, after, n),
        sorted_upto(after, t + 1),
    decreases j,
{
    if j == t {
        lemma_tiles_reach_self(tiles, n);
        tiles
    } else if j >= t + 2 {
        let next = cycled(tiles, j - 2);
        lemma_cycle(tiles, n, j - 2);
        lemma_carried_forth(tiles, j, j - 2);
        assert(next[j - 2] == tiles[j]);
        assert forall|k: int| 0 <= k < t implies next[k] == k + 1 by {
            assert(next[k] == tiles[k]);
        }
        let after = lemma_bring(next, n, t, j - 2);
        lemma_tiles_reach_twice(tiles, next, after, n);
        after
    } else {
        let next = cycled(cycled(tiles, t), t);
        lemma_cycle_twice(tiles, n, t);
        lemma_carried_back(tiles, t, t + 2);
        assert(next[t] == tiles[t + 1]);
        assert forall|k: int| 0 <= k < t + 1 implies next[k] == k + 1 by {
            if k < t {
                assert(next[k] == tiles[k]);
            }
        }
        next
    }
}

/// The tiles can be brought into rising order but for the last two.
pub proof fn lemma_sort(tiles: Seq<usize>, n: int, t: int) -> (after: Seq<usize>)
    requires
        is_tiles(tiles, n),
        n * n <= usize::MAX,
        0 <= t <= tiles.len() - 2,
        sorted_upto(tiles, t),
    ensures
        is_tiles(after, n),
        tiles_reach(tiles, after, n),
        sorted_upto(after, tiles.len() - 2),
    decreases tiles.len() - t,
{
    if t == tiles.len() - 2 {
        lemma_tiles_reach_self(tiles, n);
        tiles
    } else {
        let j = lemma_tile_first(tiles, n, t);
        let next = lemma_bring(tiles, n, t, j);
        let after = lemma_sort(next, n, t + 1);
        lemma_tiles_reach_twice(tiles, next, after, n);
        after
    }
}

/// The tiles in rising order.
pub open spec fn rising(n: int) -> Seq<usize> {
    Seq::new((n * n - 1) as nat, |k: int| (k + 1) as usize)
}

/// The tiles in rising order but for the last two, which changed places.
pub open spec fn nearly_rising(n: int) -> Seq<usize> {
    swapped(rising(n), n * n - 3, n * n - 2)
}

/// Tiles that stand in rising order but for the last two stand in rising order, or
/// their last two changed places.
pub proof fn lemma_sorted_is_rising(tiles: Seq<usize>, n: int)
    requires
        is_tiles(tiles, n),
        n * n <= usize::MAX,
        sorted_upto(tiles, tiles.len() - 2),
    ensures
        tiles == rising(n) || tiles == nearly_rising(n),
{
    let count = tiles.len() as int;
    assert(count >= 3) by (nonlinear_arith)
        requires
            count == n * n - 1,
            2 <= n,
    ;
    let a = tiles[count - 2];
    let b = tiles[count - 1];
    assert(a >= count - 1) by {
        if a < count - 1 {
            assert(tiles[a - 1] == a);
        }
    }
    assert(b >= count - 1) by {
        if b < count - 1 {
            assert(tiles[b - 1] == b);
        }
    }
    if a == count - 1 {
        assert(tiles =~= rising(n));
    } else {
        assert(tiles =~= nearly_rising(n));
    }
}

/// The two boards on which all tiles but the last two stand in rising order along
/// the snake, the blank first, have keys of different parity.
#[verifier::rlimit(40)]
pub proof fn lemma_rising_keys(n: int)
    requires
        2 <= n,
        n * n <= usize::MAX,
    ensures
        is_tiles(rising(n), n),
        is_tiles(nearly_rising(n), n),
        parity_key(board_of(rising(n), 0, n), n) % 2 != parity_key(
            board_of(nearly_rising(n), 0, n),
            n,
        ) % 2,
{
    let count = n * n - 1;
    assert(count >= 3) by (nonlinear_arith)
        requires
            count == n * n - 1,
            2 <= n,
    ;
    assert(is_tiles(rising(n), n));
    assert(is_tiles(nearly_rising(n), n));
    let first = row_of(rising(n), 0);
    let second = row_of(nearly_rising(n), 0);
    lemma_row_valid(rising(n), 0, n);
    lemma_row_valid(nearly_rising(n), 0, n);
    assert(second =~= swapped(first, count - 1, count));
    lemma_along_swapped(first, n, count - 1, count);
    let straight = board_of(rising(n), 0, n);
    let crossed = board_of(nearly_rising(n), 0, n);
    let c = snake(n, count - 1);
    let d = snake(n, count);
    assert(crossed == swapped(straight, c, d));
    lemma_snake(n, count - 1);
    lemma_snake(n, count);
    lemma_snake(n, 0);
    assert(n * n == (n - 1) * n + n) by (nonlinear_arith);
    lemma_cell_index(n, n - 1, n - 1);
    lemma_cell_index(n, n - 2, n - 1);
    assert(count == (n - 1) * n + (n - 1));
    assert(count - 1 == (n - 1) * n + (n - 2));
    let lo = if c < d {
        c
    } else {
        d
    };
    assert(c == d + 1 || d == c + 1);
    assert(swapped(straight, c, d) =~= swapped(straight, lo, lo + 1));
    lemma_adjacent_swap(straight, lo);
    assert(straight[c] == first[count - 1]);
    assert(straight[d] == first[count]);
    assert(straight[snake(n, 0)] == first[0]);
    assert(crossed[snake(n, 0)] == second[0]);
    lemma_last_blank(straight, 0, straight.len() as int);
    lemma_last_blank(crossed, 0, crossed.len() as int);
}

/// A valid board is the board of its tiles, read along the snake, and of the place
/// of its blank among them.
pub proof fn lemma_board_tiles(cells: Seq<usize>, n: int) -> (found: (Seq<usize>, int))
    requires
        is_valid_board(cells, n),
    ensures
        is_tiles(found.0, n),
        0 <= found.1 <= found.0.len(),
        board_of(found.0, found.1, n) == cells,
{
    let row = along_snake(cells, n);
    lemma_along_valid(cells, n);
    lemma_along_twice(cells, n);
    assert(0 < row.len()) by (nonlinear_arith)
        requires
            row.len() == n * n,
            2 <= n,
    ;
    lemma_permutation_has_all(row, 0);
    let blank = choose|p: int| 0 <= p < row.len() && row[p] == 0usize;
    let tiles = row.remove(blank);
    assert(row_of(tiles, blank) =~= row);
    assert forall|i: int| 0 <= i < tiles.len() implies 1 <= (#[trigger] tiles[i]) <= tiles.len() by {
        let p = if i < blank {
            i
        } else {
            i + 1
        };
        assert(tiles[i] == row[p]);
        assert(row[p] != row[blank]);
    }
    assert forall|i: int, j: int|
        0 <= i < tiles.len() && 0 <= j < tiles.len() && i != j implies tiles[i] != tiles[j] by {
        let p = if i < blank {
            i
        } else {
            i + 1
        };
        let q = if j < blank {
            j
        } else {
            j + 1
        };
        assert(tiles[i] == row[p]);
        assert(tiles[j] == row[q]);
    }
    (tiles, blank)
}

/// Every valid board reaches one of the two boards on which all tiles but the last
/// two stand in rising order along the snake, the blank first.
pub proof fn lemma_reaches_rising(cells: Seq<usize>, n: int) -> (tiles: Seq<usize>)
    requires
        is_valid_board(cells, n),
        n * n <= usize::MAX,
    ensures
        tiles == rising(n) || tiles == nearly_rising(n),
        is_tiles(tiles, n),
        reachable(cells, board_of(tiles, 0, n), n),
{
    let (own, blank) = lemma_board_tiles(cells, n);
    lemma_blank_travels(own, n, blank, 0);
    assert(own.len() >= 3) by (nonlinear_arith)
        requires
            own.len() == n * n - 1,
            2 <= n,
    ;
    let sorted = lemma_sort(own, n, 0);
    lemma_sorted_is_rising(sorted, n);
    lemma_reachable_twice(cells, board_of(own, 0, n), board_of(sorted, 0, n), n);
    sorted
}

/// Two valid boards whose keys have one parity are reached from each other.
pub proof fn lemma_same_key_reaches(from: Seq<usize>, to: Seq<usize>, n: int)
    requires
        is_valid_board(from, n),
        is_valid_board(to, n),
        n * n <= usize::MAX,
        parity_key(from, n) % 2 == parity_key(to, n) % 2,
    ensures
        reachable(from, to, n),
{
    let first = lemma_reaches_rising(from, n);
    let second = lemma_reaches_rising(to, n);
    lemma_moves_keep_key(from, board_of(first, 0, n), n);
    lemma_moves_keep_key(to, board_of(second, 0, n), n);
    lemma_rising_keys(n);
    assert(first == second);
    lemma_reachable_back(to, board_of(second, 0, n), n);
    lemma_reachable_twice(from, board_of(first, 0, n), to, n);
}

/// A board that passes the parity test can be brought into the goal.
pub proof fn lemma_solvable_is_reachable(cells: Seq<usize>, n: int)
    requires
        is_valid_board(cells, n),
        n * n <= usize::MAX,
        is_solvable_board(cells, n),
    ensures
        reachable(cells, goal_cells(n), n),
{
    lemma_goal_is_valid(n);
    lemma_same_key_reaches(cells, goal_cells(n), n);
}

/// A valid board can be brought into the goal exactly when it passes the parity
/// test.
pub proof fn lemma_solvable_iff_reachable(cells: Seq<usize>, n: int)
    requires
        is_valid_board(cells, n),
        n * n <= usize::MAX,
    ensures
        is_solvable_board(cells, n) <==> reachable(cells, goal_cells(n), n),
{
    if is_solvable_board(cells, n) {
        lemma_solvable_is_reachable(cells, n);
    }
    if reachable(cells, goal_cells(n), n) {
        lemma_reachable_is_solvable(cells, n);
    }
}

} // verus!
