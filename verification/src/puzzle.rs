//! The state of a puzzle: the side of the board and its cells.

use vstd::prelude::*;
use vstd::string::*;
use crate::board::{
    cell_index, first_index, has_value, is_board, is_permutation, is_valid_board,
    lemma_cell_index, lemma_first_index_unique, lemma_index_cell,
};
use crate::error::PuzzleError;
use crate::random::random_below;
use crate::render::{cell_width, push_padded, rendered, rendered_upto};
use crate::shuffle::{
    dealt, full_pool, lemma_deal_one, lemma_full_pool, picks_fit, pool_after, shuffled,
};
use crate::solvable::{
    inversion_count, inversions_after, inversions_before, is_solvable_board, last_blank,
    lemma_goal_is_solvable, lemma_inversions_after_grows, lemma_inversions_before_grows,
    lemma_last_blank_bounds, parity_key,
};
use crate::spiral::{
    cells_outside, filled_below, goal_cells, lemma_fill_next, lemma_filled_is_goal,
    lemma_goal_is_valid, lemma_rank_bounds, lemma_rank_in_ring, lemma_ring_room, ring_side,
    spiral_rank,
};

verus! {

/// A board of side `size` whose cells stand in `data`, row after row.
#[derive(Debug)]
pub struct Puzzle {
    pub data: Vec<usize>,
    pub size: usize,
}

impl View for Puzzle {
    type V = Seq<usize>;

    /// The cells in row-major order.  Two puzzles are equal when their cells are.
    open spec fn view(&self) -> Seq<usize> {
        self.data@
    }
}

/// Whether two vectors hold the same cells.
pub fn same_cells(left: &Vec<usize>, right: &Vec<usize>) -> (same: bool)
    ensures
        same == (left@ == right@),
{
    if left.len() != right.len() {
        return false;
    }
    let mut i: usize = 0;
    while i < left.len()
        invariant
            left.len() == right.len(),
            i <= left.len(),
            forall|k: int| 0 <= k < i ==> left@[k] == right@[k],
        decreases left.len() - i,
    {
        if left[i] != right[i] {
            return false;
        }
        i += 1;
    }
    assert(left@ =~= right@);
    true
}

impl PartialEq for Puzzle {
    fn eq(&self, other: &Self) -> (equal: bool) {
        same_cells(&self.data, &other.data)
    }
}

impl vstd::std_specs::cmp::PartialEqSpecImpl for Puzzle {
    open spec fn obeys_eq_spec() -> bool {
        true
    }

    open spec fn eq_spec(&self, other: &Self) -> bool {
        self@ == other@
    }
}

impl Eq for Puzzle {}

impl Clone for Puzzle {
    fn clone(&self) -> (copy: Self)
        ensures
            copy@ == self@,
            copy.size == self.size,
    {
        let copy = Puzzle { data: self.data.clone(), size: self.size };
        assert(copy.data@ =~= self.data@);
        copy
    }
}

impl Puzzle {
    /// The cells number `size * size`.
    pub open spec fn shaped(&self) -> bool {
        is_board(self@, self.size as int)
    }

    /// The side is at least two and the cells hold each of `0 .. size * size` once.
    pub open spec fn valid(&self) -> bool {
        is_valid_board(self@, self.size as int)
    }

    /// Whether the side is at least two and the cells hold each of `0 .. size * size`
    /// once.
    pub fn is_valid(&self) -> (valid: bool)
        ensures
            valid == self.valid(),
    {
        if self.size < 2 {
            return false;
        }
        let count = self.data.len();
        match self.size.checked_mul(self.size) {
            Some(square) => {
                if square != count {
                    return false;
                }
            },
            None => {
                return false;
            },
        }
        let mut seen: Vec<bool> = Vec::new();
        let mut k: usize = 0;
        while k < count
            invariant
                k <= count,
                seen@.len() == k,
                forall|v: int| 0 <= v < k ==> !seen@[v],
            decreases count - k,
        {
            seen.push(false);
            k += 1;
        }
        let mut i: usize = 0;
        while i < count
            invariant
                count == self@.len(),
                seen@.len() == count,
                i <= count,
                forall|j: int| 0 <= j < i ==> (#[trigger] self@[j]) < count,
                forall|a: int, b: int| 0 <= a < i && 0 <= b < i && a != b ==> self@[a] != self@[b],
                forall|v: int|
                    0 <= v < count ==> (#[trigger] seen@[v] <==> exists|j: int|
                        0 <= j < i && self@[j] == v),
            decreases count - i,
        {
            let value = self.data[i];
            if value >= count {
                return false;
            }
            if seen[value] {
                proof {
                    let j = choose|j: int| 0 <= j < i && self@[j] == value;
                    assert(self@[j] == self@[i as int]);
                }
                return false;
            }
            let ghost before = seen@;
            seen.set(value, true);
            proof {
                assert forall|v: int| 0 <= v < count implies (#[trigger] seen@[v] <==> exists|
                    j: int,
                |
                    0 <= j < i + 1 && self@[j] == v) by {
                    if v == value {
                        assert(self@[i as int] == v);
                    } else if before[v] {
                        let j = choose|j: int| 0 <= j < i && self@[j] == v;
                        assert(0 <= j < i + 1 && self@[j] == v);
                    } else if exists|j: int| 0 <= j < i + 1 && self@[j] == v {
                        let j = choose|j: int| 0 <= j < i + 1 && self@[j] == v;
                        assert(j < i);
                    }
                }
                assert forall|a: int, b: int|
                    0 <= a < i + 1 && 0 <= b < i + 1 && a != b implies self@[a] != self@[b] by {
                    if a == i {
                        assert(!before[value as int]);
                    } else if b == i {
                        assert(!before[value as int]);
                    }
                }
            }
            i += 1;
        }
        true
    }

    /// The value of cell `(x, y)`.
    pub fn get_value(&self, x: usize, y: usize) -> (value: usize)
        requires
            y * self.size + x < self@.len(),
        ensures
            value == self@[cell_index(self.size as int, x as int, y as int)],
    {
        assert(0 <= y * self.size) by (nonlinear_arith);
        assert(self.data@.len() == self.data.len());
        self.data[y * self.size + x]
    }

    /// Writes `value` into cell `(x, y)` and leaves every other cell alone.
    pub fn set_value(&mut self, x: usize, y: usize, value: usize)
        requires
            y * old(self).size + x < old(self)@.len(),
        ensures
            final(self)@ == old(self)@.update(
                cell_index(old(self).size as int, x as int, y as int),
                value,
            ),
            final(self).size == old(self).size,
    {
        assert(0 <= y * self.size) by (nonlinear_arith);
        assert(self.data@.len() == self.data.len());
        let index: usize = y * self.size + x;
        self.data.set(index, value);
    }

    /// The board as text: the cells row by row, each number followed by blanks up to
    /// the width of three characters, or of four on a board of side eleven or more,
    /// and a new line after each row.
    pub fn to_string(&self) -> (text: String)
        requires
            self.size > 0 || self@.len() == 0,
        ensures
            text@ == rendered(self@, self.size as int),
    {
        let padding: usize = if self.size < 11 {
            3
        } else {
            4
        };
        let mut text = String::new();
        let mut i: usize = 0;
        proof {
            reveal_strlit("\n");
        }
        while i < self.data.len()
            invariant
                self.size > 0 || self@.len() == 0,
                padding == cell_width(self.size as int),
                i <= self@.len(),
                text@ == rendered_upto(self@, self.size as int, i as int),
            decreases self@.len() - i,
        {
            let ghost before = text@;
            proof {
                reveal_strlit("\n");
            }
            if i % self.size == 0 && i != 0 {
                text.append("\n");
            }
            push_padded(&mut text, self.data[i], padding);
            assert(text@ =~= rendered_upto(self@, self.size as int, i + 1));
            i += 1;
        }
        proof {
            reveal_strlit("\n");
        }
        text.append("\n");
        assert(text@ =~= rendered(self@, self.size as int));
        text
    }

    /// Writes the next tile of the spiral into its cell.
    fn place(&mut self, x: usize, y: usize, rank: usize)
        requires
            2 <= old(self).size,
            old(self).size * old(self).size <= usize::MAX,
            old(self).shaped(),
            x < old(self).size,
            y < old(self).size,
            spiral_rank(old(self).size as int, x as int, y as int) == rank,
            filled_below(old(self)@, old(self).size as int, rank as int),
        ensures
            final(self).size == old(self).size,
            final(self).shaped(),
            filled_below(final(self)@, old(self).size as int, rank + 1),
    {
        proof {
            lemma_cell_index(self.size as int, x as int, y as int);
            lemma_fill_next(self@, self.size as int, x as int, y as int, rank as int);
        }
        self.set_value(x, y, rank);
    }

    /// The goal of side `size`: the tiles along the clockwise inward spiral, the
    /// blank where the spiral ends.
    #[verifier::rlimit(40)]
    pub fn get_final_state(size: usize) -> (goal: Puzzle)
        requires
            2 <= size,
            size * size <= usize::MAX,
        ensures
            goal.size == size,
            goal@ == goal_cells(size as int),
            goal.valid(),
    {
        let data = vec![0usize; size * size];
        let mut puzzle = Puzzle { data, size };
        let ghost n: int = size as int;
        let ghost mut k: int = 0;

        let mut current_number: usize = 1;
        let mut min_x: usize = 0;
        let mut min_y: usize = 0;
        let mut max_x: usize = size - 1;
        let mut max_y: usize = size - 1;

        proof {
            assert(cells_outside(n, 0) == 0);
            lemma_goal_is_valid(n);
            assert forall|i: int|
                0 <= i < puzzle@.len() && spiral_rank(n, i % n, i / n)
                    < 1 implies (#[trigger] puzzle@[i]) == spiral_rank(n, i % n, i / n) by {
                lemma_index_cell(n, i);
                lemma_rank_bounds(n, i % n, i / n);
            }
        }
        loop
            invariant_except_break
                0 <= k,
                min_x == k,
                min_y == k,
                max_x == n - 1 - k,
                max_y == n - 1 - k,
                2 <= ring_side(n, k),
                current_number == cells_outside(n, k) + 1,
                filled_below(puzzle@, n, current_number as int),
            invariant
                n == size,
                2 <= n,
                n * n <= usize::MAX,
                puzzle.size == size,
                puzzle.shaped(),
            ensures
                puzzle@ == goal_cells(n),
            decreases n - k,
        {
            let ghost m: int = ring_side(n, k);
            let ghost base: int = cells_outside(n, k);
            proof {
                lemma_ring_room(n, k);
            }
            let mut right: usize = min_x;
            while right <= max_x
                invariant
                    n == size,
                    2 <= n,
                    n * n <= usize::MAX,
                    puzzle.size == size,
                    puzzle.shaped(),
                    0 <= k,
                    min_x == k,
                    max_x == n - 1 - k,
                    m == ring_side(n, k),
                    2 <= m,
                    base == cells_outside(n, k),
                    base + 2 * m <= n * n,
                    min_x <= right <= max_x + 1,
                    current_number == base + (right - k) + 1,
                    filled_below(puzzle@, n, current_number as int),
                decreases max_x + 1 - right,
            {
                puzzle.place(right, min_x, current_number);
                current_number += 1;
                right += 1;
            }
            min_y += 1;
            let mut down: usize = min_y;
            while down <= max_y
                invariant
                    n == size,
                    2 <= n,
                    n * n <= usize::MAX,
                    puzzle.size == size,
                    puzzle.shaped(),
                    0 <= k,
                    min_y == k + 1,
                    max_x == n - 1 - k,
                    max_y == n - 1 - k,
                    m == ring_side(n, k),
                    2 <= m,
                    base == cells_outside(n, k),
                    base + 2 * m <= n * n,
                    min_y <= down <= max_y + 1,
                    current_number == base + (m - 1) + (down - k) + 1,
                    filled_below(puzzle@, n, current_number as int),
                decreases max_y + 1 - down,
            {
                puzzle.place(max_x, down, current_number);
                current_number += 1;
                down += 1;
            }
            max_x -= 1;
            if current_number == size * size {
                proof {
                    lemma_rank_in_ring(n, max_x as int, max_y as int);
                    lemma_cell_index(n, max_x as int, max_y as int);
                }
                let ghost before = puzzle@;
                puzzle.set_value(max_x, max_y, 0);
                proof {
                    assert(filled_below(puzzle@, n, n * n)) by {
                        assert forall|i: int|
                            0 <= i < puzzle@.len() && spiral_rank(n, i % n, i / n) < n
                                * n implies (#[trigger] puzzle@[i]) == spiral_rank(
                            n,
                            i % n,
                            i / n,
                        ) by {
                            assert(before[i] == spiral_rank(n, i % n, i / n));
                            lemma_index_cell(n, i);
                        }
                    }
                    lemma_filled_is_goal(puzzle@, n, max_x as int, max_y as int);
                }
                break ;
            }
            let mut left: usize = max_x + 1;
            while left > min_x
                invariant
                    n == size,
                    2 <= n,
                    n * n <= usize::MAX,
                    puzzle.size == size,
                    puzzle.shaped(),
                    0 <= k,
                    min_x == k,
                    max_x == n - 2 - k,
                    max_y == n - 1 - k,
                    m == ring_side(n, k),
                    3 <= m,
                    base == cells_outside(n, k),
                    base + 4 * (m - 1) + 1 <= n * n,
                    min_x <= left <= max_x + 1,
                    current_number == base + 2 * (m - 1) + (m - (left - k)) + 1,
                    filled_below(puzzle@, n, current_number as int),
                decreases left - min_x,
            {
                left -= 1;
                puzzle.place(left, max_y, current_number);
                current_number += 1;
            }
            max_y -= 1;
            let mut up: usize = max_y + 1;
            while up > min_y
                invariant
                    n == size,
                    2 <= n,
                    n * n <= usize::MAX,
                    puzzle.size == size,
                    puzzle.shaped(),
                    0 <= k,
                    min_x == k,
                    min_y == k + 1,
                    max_y == n - 2 - k,
                    m == ring_side(n, k),
                    3 <= m,
                    base == cells_outside(n, k),
                    base + 4 * (m - 1) + 1 <= n * n,
                    min_y <= up <= max_y + 1,
                    current_number == base + 3 * (m - 1) + (m - (up - k)) + 1,
                    filled_below(puzzle@, n, current_number as int),
                decreases up - min_y,
            {
                up -= 1;
                puzzle.place(min_x, up, current_number);
                current_number += 1;
            }
            min_x += 1;
            if current_number == size * size {
                proof {
                    lemma_rank_in_ring(n, max_x as int, max_y as int);
                    lemma_cell_index(n, max_x as int, max_y as int);
                }
                let ghost before = puzzle@;
                puzzle.set_value(max_x, max_y, 0);
                proof {
                    assert(filled_below(puzzle@, n, n * n)) by {
                        assert forall|i: int|
                            0 <= i < puzzle@.len() && spiral_rank(n, i % n, i / n) < n
                                * n implies (#[trigger] puzzle@[i]) == spiral_rank(
                            n,
                            i % n,
                            i / n,
                        ) by {
                            assert(before[i] == spiral_rank(n, i % n, i / n));
                            lemma_index_cell(n, i);
                        }
                    }
                    lemma_filled_is_goal(puzzle@, n, max_x as int, max_y as int);
                }
                break ;
            }
            proof {
                k = k + 1;
            }
        }
        puzzle
    }

    /// The tiles `0 .. count` in rising order.
    fn all_the_values(count: usize) -> (pool: Vec<usize>)
        ensures
            pool@ == full_pool(count as int),
    {
        let mut pool: Vec<usize> = Vec::new();
        let mut i: usize = 0;
        while i < count
            invariant
                i <= count,
                pool@.len() == i,
                forall|k: int| 0 <= k < i ==> pool@[k] == k,
            decreases count - i,
        {
            pool.push(i);
            i += 1;
        }
        assert(pool@ =~= full_pool(count as int));
        pool
    }

    /// The puzzle of side `size` whose cells are dealt by `picks`: pick `k` names,
    /// among the tiles not yet placed and in rising order, the tile of cell `k`.
    pub fn from_picks(size: usize, picks: &Vec<usize>) -> (puzzle: Puzzle)
        requires
            2 <= size,
            size * size <= usize::MAX,
            picks_fit(size * size, picks@),
        ensures
            puzzle.size == size,
            puzzle@ == shuffled(size * size, picks@),
            puzzle.valid(),
    {
        let count: usize = size * size;
        let mut all_the_values = Puzzle::all_the_values(count);
        let mut data: Vec<usize> = Vec::new();
        let ghost pool = full_pool(count as int);
        proof {
            lemma_full_pool(count as int);
            assert(data@ + all_the_values@ =~= pool);
        }
        let mut k: usize = 0;
        while k < count
            invariant
                k <= count,
                picks_fit(count as int, picks@),
                data@.len() == k,
                all_the_values@.len() == count - k,
                data@ == dealt(pool, picks@, k as int),
                all_the_values@ == pool_after(pool, picks@, k as int),
                is_permutation(data@ + all_the_values@),
            decreases count - k,
        {
            let pick = picks[k];
            proof {
                lemma_deal_one(data@, all_the_values@, pick as int);
            }
            let value = all_the_values.remove(pick);
            data.push(value);
            k += 1;
        }
        assert(data@ + all_the_values@ =~= data@);
        Puzzle { data, size }
    }

    /// Draws the picks for one permutation of `count` tiles.
    fn draw_picks(count: usize) -> (picks: Vec<usize>)
        ensures
            picks_fit(count as int, picks@),
    {
        let mut picks: Vec<usize> = Vec::new();
        let mut k: usize = 0;
        while k < count
            invariant
                k <= count,
                picks@.len() == k,
                forall|j: int| 0 <= j < k ==> (#[trigger] picks@[j]) < count - j,
            decreases count - k,
        {
            let pick = random_below(count - k);
            picks.push(pick);
            k += 1;
        }
        picks
    }

    /// A random puzzle of side `size` that can be solved.
    ///
    /// Permutations are drawn until one can be solved.  Half of them can, so the
    /// bound on the number of draws is never met in practice; were it met, the goal
    /// itself would be handed out.  A side below two, or one whose square the
    /// machine cannot hold, is refused.
    pub fn new(size: usize) -> (made: Result<Puzzle, PuzzleError>)
        ensures
            size < 2 || size * size > usize::MAX <==> made == Err::<Puzzle, PuzzleError>(
                PuzzleError::InvalidSize,
            ),
            2 <= size && size * size <= usize::MAX ==> made is Ok && made->Ok_0.size == size
                && made->Ok_0.valid() && is_solvable_board(made->Ok_0@, size as int),
    {
        if size < 2 || size.checked_mul(size).is_none() {
            return Err(PuzzleError::InvalidSize);
        }
        let mut attempts: usize = 0;
        while attempts < usize::MAX
            invariant
                2 <= size,
                size * size <= usize::MAX,
            decreases usize::MAX - attempts,
        {
            let picks = Puzzle::draw_picks(size * size);
            let puzzle = Puzzle::from_picks(size, &picks);
            if Puzzle::is_solvable(puzzle.clone()) {
                return Ok(puzzle);
            }
            attempts += 1;
        }
        proof {
            lemma_goal_is_solvable(size as int);
        }
        Ok(Puzzle::get_final_state(size))
    }

    /// Builds the puzzle from cells that were read elsewhere, if it can be solved.
    pub fn new_from_file(data: Vec<usize>, size: usize) -> (made: Result<Puzzle, PuzzleError>)
        requires
            2 <= size,
            size * size <= usize::MAX,
            is_board(data@, size as int),
        ensures
            is_solvable_board(data@, size as int) ==> made is Ok && made->Ok_0@ == data@
                && made->Ok_0.size == size,
            !is_solvable_board(data@, size as int) ==> made == Err::<Puzzle, PuzzleError>(
                PuzzleError::UnsolvablePuzzle,
            ),
    {
        let puzzle = Puzzle { data, size };
        if !Puzzle::is_solvable(puzzle.clone()) {
            Err(PuzzleError::UnsolvablePuzzle)
        } else {
            Ok(puzzle)
        }
    }

    /// The number of inversions: pairs of tiles of which the larger stands first.
    pub fn inversion(puzzle: Puzzle) -> (count: usize)
        requires
            inversion_count(puzzle@) <= usize::MAX,
        ensures
            count == inversion_count(puzzle@),
    {
        let data = puzzle.data;
        let mut sort_count: usize = 0;
        let mut i: usize = 0;
        while i < data.len()
            invariant
                i <= data@.len(),
                inversion_count(data@) <= usize::MAX,
                sort_count == inversions_before(data@, i as int),
            decreases data@.len() - i,
        {
            let value = data[i];
            let mut j: usize = i + 1;
            let ghost start = sort_count;
            while j < data.len()
                invariant
                    i < data@.len(),
                    i + 1 <= j <= data@.len(),
                    value == data@[i as int],
                    inversion_count(data@) <= usize::MAX,
                    start == inversions_before(data@, i as int),
                    sort_count == start + inversions_after(data@, i as int, j as int),
                decreases data@.len() - j,
            {
                proof {
                    lemma_inversions_after_grows(data@, i as int, j + 1, data@.len() as int);
                    lemma_inversions_before_grows(data@, i + 1, data@.len() as int);
                }
                if value > data[j] && data[j] != 0 {
                    sort_count += 1;
                }
                j += 1;
            }
            i += 1;
        }
        sort_count
    }

    /// Whether the number of inversions is odd.
    fn odd_inversions(data: &Vec<usize>) -> (odd: bool)
        ensures
            odd == (inversion_count(data@) % 2 == 1),
    {
        let mut odd = false;
        let mut i: usize = 0;
        while i < data.len()
            invariant
                i <= data@.len(),
                odd == (inversions_before(data@, i as int) % 2 == 1),
            decreases data@.len() - i,
        {
            let value = data[i];
            let mut j: usize = i + 1;
            let ghost start = inversions_before(data@, i as int);
            while j < data.len()
                invariant
                    i < data@.len(),
                    i + 1 <= j <= data@.len(),
                    value == data@[i as int],
                    start == inversions_before(data@, i as int),
                    odd == ((start + inversions_after(data@, i as int, j as int)) % 2 == 1),
                decreases data@.len() - j,
            {
                if value > data[j] && data[j] != 0 {
                    odd = !odd;
                }
                j += 1;
            }
            i += 1;
        }
        odd
    }

    /// The index of the last blank cell, zero where there is none.
    fn blank_index(data: &Vec<usize>) -> (index: usize)
        ensures
            index == last_blank(data@, data@.len() as int),
    {
        let mut index: usize = 0;
        let mut i: usize = 0;
        while i < data.len()
            invariant
                i <= data@.len(),
                index == last_blank(data@, i as int),
            decreases data@.len() - i,
        {
            if data[i] == 0 {
                index = i;
            }
            i += 1;
        }
        index
    }

    /// Whether the parity key of the cells is odd.
    fn odd_key(data: &Vec<usize>, size: usize) -> (odd: bool)
        requires
            2 <= size,
            is_board(data@, size as int),
        ensures
            odd == (parity_key(data@, size as int) % 2 == 1),
    {
        let odd = Puzzle::odd_inversions(data);
        if size % 2 == 0 {
            let index = Puzzle::blank_index(data);
            proof {
                lemma_last_blank_bounds(data@, data@.len() as int);
                assert(data@.len() > 0) by (nonlinear_arith)
                    requires
                        data@.len() == size * size,
                        2 <= size,
                ;
                lemma_index_cell(size as int, index as int);
            }
            let rows: usize = size - 1 - index / size;
            if rows % 2 == 1 {
                !odd
            } else {
                odd
            }
        } else {
            odd
        }
    }

    /// Whether the puzzle can be brought into the goal of its side.
    pub fn is_solvable(puzzle: Puzzle) -> (solvable: bool)
        requires
            2 <= puzzle.size,
            puzzle.size * puzzle.size <= usize::MAX,
            puzzle.shaped(),
        ensures
            solvable == is_solvable_board(puzzle@, puzzle.size as int),
    {
        let size = puzzle.size;
        let goal_puzzle = Puzzle::get_final_state(size);
        let start_odd = Puzzle::odd_key(&puzzle.data, size);
        let goal_odd = Puzzle::odd_key(&goal_puzzle.data, size);
        start_odd == goal_odd
    }

    /// The column and row of the first cell that holds `value`.  Fails where the
    /// value does not occur, and on a board of side zero, which has no cells.
    pub fn get_position(&self, value: usize) -> (position: Result<(usize, usize), PuzzleError>)
        ensures
            self.size > 0 && has_value(self@, value) ==> position == Ok::<
                (usize, usize),
                PuzzleError,
            >(
                (
                    (first_index(self@, value) % (self.size as int)) as usize,
                    (first_index(self@, value) / (self.size as int)) as usize,
                ),
            ),
            self.size == 0 || !has_value(self@, value) ==> position == Err::<
                (usize, usize),
                PuzzleError,
            >(PuzzleError::ValueNotFound),
    {
        if self.size == 0 {
            return Err(PuzzleError::ValueNotFound);
        }
        let mut pos: usize = 0;
        while pos < self.data.len()
            invariant
                pos <= self@.len(),
                self.size > 0,
                forall|j: int| 0 <= j < pos ==> self@[j] != value,
            decreases self@.len() - pos,
        {
            if self.data[pos] == value {
                proof {
                    lemma_first_index_unique(self@, value, pos as int);
                }
                return Ok((pos % self.size, pos / self.size));
            }
            pos += 1;
        }
        Err(PuzzleError::ValueNotFound)
    }
}

} // verus!
