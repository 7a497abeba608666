//! A vertex of the search: a state, the cost of the path that led to it, and the
//! estimate of what is left.

use vstd::prelude::*;
use vstd::string::*;
use core::cmp::Ordering;
use crate::board::{
    cell_index, first_index, has_value, lemma_cell_index, lemma_first_index_exists,
    lemma_index_cell,
};
use crate::heuristic::{scores_fit, side_fits, Heuristic};
use crate::moves::{lemma_blank_cell, lemma_successor_is_slide, successors, swapped};
use crate::puzzle::Puzzle;
use crate::render::{decimal, push_decimal, rendered};
use crate::spiral::goal_cells;

verus! {

/// A state with its path cost `g_score` and its estimate `h_score`.
#[derive(Debug)]
pub struct Node {
    pub state: Puzzle,
    pub g_score: usize,
    pub h_score: usize,
}

impl PartialEq for Node {
    /// Two nodes are the same vertex when their states are equal.
    fn eq(&self, other: &Self) -> (equal: bool) {
        self.state == other.state
    }
}

impl vstd::std_specs::cmp::PartialEqSpecImpl for Node {
    open spec fn obeys_eq_spec() -> bool {
        true
    }

    open spec fn eq_spec(&self, other: &Self) -> bool {
        self.state@ == other.state@
    }
}

impl Eq for Node {}

impl PartialOrd for Node {
    /// Nodes are ordered by the sum of their cost and their estimate.
    fn partial_cmp(&self, other: &Self) -> (order: Option<Ordering>) {
        let mine = self.wide_f_score();
        let theirs = other.wide_f_score();
        if mine < theirs {
            Some(Ordering::Less)
        } else if mine == theirs {
            Some(Ordering::Equal)
        } else {
            Some(Ordering::Greater)
        }
    }
}

impl vstd::std_specs::cmp::PartialOrdSpecImpl for Node {
    open spec fn obeys_partial_cmp_spec() -> bool {
        true
    }

    open spec fn partial_cmp_spec(&self, other: &Self) -> Option<Ordering> {
        if self.g_score + self.h_score < other.g_score + other.h_score {
            Some(Ordering::Less)
        } else if self.g_score + self.h_score == other.g_score + other.h_score {
            Some(Ordering::Equal)
        } else {
            Some(Ordering::Greater)
        }
    }
}

impl Clone for Node {
    fn clone(&self) -> (copy: Self)
        ensures
            copy.same_as(*self),
    {
        Node { state: self.state.clone(), g_score: self.g_score, h_score: self.h_score }
    }
}

impl Node {
    /// The two nodes hold the same cells, side and scores.
    pub open spec fn same_as(self, other: Node) -> bool {
        &&& self.state@ == other.state@
        &&& self.state.size == other.state.size
        &&& self.g_score == other.g_score
        &&& self.h_score == other.h_score
    }

    /// Cost so far plus estimate, in a number wide enough to hold every such sum.
    pub fn wide_f_score(&self) -> (f: u128)
        ensures
            f == self.g_score + self.h_score,
    {
        self.g_score as u128 + self.h_score as u128
    }

    /// The node as text: how far it lies from the start, then its board.
    pub fn to_string(&self) -> (text: String)
        requires
            self.state.size > 0 || self.state@.len() == 0,
        ensures
            text@ == decimal(self.g_score as nat) + " nodes away from the start position\n"@
                + rendered(self.state@, self.state.size as int).push('\n'),
    {
        let mut text = String::new();
        push_decimal(&mut text, self.g_score);
        text.append(" nodes away from the start position\n");
        let board = self.state.to_string();
        text.append(board.as_str());
        proof {
            reveal_strlit("\n");
        }
        text.append("\n");
        assert(text@ =~= decimal(self.g_score as nat) + " nodes away from the start position\n"@
            + rendered(self.state@, self.state.size as int).push('\n'));
        text
    }

    /// The key by which nodes are ranked: cost so far plus estimate.
    pub fn f_score(&self) -> (f: usize)
        requires
            self.g_score + self.h_score <= usize::MAX,
        ensures
            f == self.g_score + self.h_score,
    {
        self.g_score + self.h_score
    }

    /// A node with the same state and scores.
    pub fn partial_copy(&self) -> (copy: Node)
        ensures
            copy.same_as(*self),
    {
        Node { state: self.state.clone(), g_score: self.g_score, h_score: self.h_score }
    }

    /// The node from which a search with this estimator starts: it cost nothing, and
    /// its estimate is that of its state against the goal of its side.  A state
    /// that is no valid board, or whose side is too large for the estimates, has no
    /// estimate and gets zero.
    pub fn new_starting_node(state: Puzzle, heuristic: Heuristic) -> (node: Node)
        ensures
            node.state@ == state@,
            node.state.size == state.size,
            node.g_score == 0,
            state.valid() && scores_fit(state.size) ==> node.h_score == heuristic.value(
                state@,
                goal_cells(state.size as int),
                state.size as int,
            ),
            !(state.valid() && scores_fit(state.size)) ==> node.h_score == 0,
    {
        let h_score = if state.is_valid() && side_fits(state.size) {
            assert(state.size * state.size == state.data.len());
            heuristic.estimate(state.clone(), Puzzle::get_final_state(state.size))
        } else {
            0
        };
        Node { state: state.clone(), g_score: 0, h_score }
    }

    /// The puzzle in which cells `(x, y)` and `(x_next, y_next)` changed places.
    pub fn swap_two_positions(
        puzzle: &Puzzle,
        x: usize,
        y: usize,
        x_next: usize,
        y_next: usize,
    ) -> (new_puzzle: Puzzle)
        requires
            y * puzzle.size + x < puzzle@.len(),
            y_next * puzzle.size + x_next < puzzle@.len(),
        ensures
            new_puzzle.size == puzzle.size,
            new_puzzle@ == swapped(
                puzzle@,
                cell_index(puzzle.size as int, x as int, y as int),
                cell_index(puzzle.size as int, x_next as int, y_next as int),
            ),
    {
        let mut new_puzzle = puzzle.clone();
        new_puzzle.set_value(x, y, puzzle.get_value(x_next, y_next));
        new_puzzle.set_value(x_next, y_next, puzzle.get_value(x, y));

        new_puzzle
    }

    /// The states that one move leads to: the blank goes up, down, left, right, as
    /// far as the board allows, in this order.
    pub fn calculate_next_states(puzzle: &Puzzle) -> (childs: Vec<Puzzle>)
        requires
            puzzle.shaped(),
            has_value(puzzle@, 0),
        ensures
            childs@.len() == successors(puzzle@, puzzle.size as int).len(),
            forall|k: int|
                0 <= k < childs@.len() ==> (#[trigger] childs@[k])@ == successors(
                    puzzle@,
                    puzzle.size as int,
                )[k] && childs@[k].size == puzzle.size,
    {
        let ghost n: int = puzzle.size as int;
        proof {
            lemma_first_index_exists(puzzle@, 0);
            assert(n != 0) by (nonlinear_arith)
                requires
                    puzzle@.len() == n * n,
                    puzzle@.len() > 0,
            ;
            lemma_index_cell(n, first_index(puzzle@, 0));
        }
        let (x, y) = puzzle.get_position(0).unwrap();
        let mut childs: Vec<Puzzle> = Vec::new();
        proof {
            lemma_cell_index(n, x as int, y as int);
        }

        if y != 0 {
            proof {
                lemma_cell_index(n, x as int, y - 1);
            }
            childs.push(Node::swap_two_positions(puzzle, x, y, x, y - 1));
        }
        if y != puzzle.size - 1 {
            proof {
                lemma_cell_index(n, x as int, y + 1);
            }
            childs.push(Node::swap_two_positions(puzzle, x, y, x, y + 1));
        }
        if x != 0 {
            proof {
                lemma_cell_index(n, x - 1, y as int);
            }
            childs.push(Node::swap_two_positions(puzzle, x, y, x - 1, y));
        }
        if x != puzzle.size - 1 {
            proof {
                lemma_cell_index(n, x + 1, y as int);
            }
            childs.push(Node::swap_two_positions(puzzle, x, y, x + 1, y));
        }

        childs
    }

    /// The nodes that one move from `parent` leads to, each one step dearer than
    /// `parent` and scored against the state of `final_node`.
    pub fn calculate_next_nodes(parent: Node, final_node: Node, heuristic: Heuristic) -> (childs:
        Vec<Node>)
        requires
            parent.state.valid(),
            final_node.state.valid(),
            parent.state.size == final_node.state.size,
            scores_fit(parent.state.size),
            parent.g_score < usize::MAX,
        ensures
            childs@.len() == successors(parent.state@, parent.state.size as int).len(),
            forall|k: int|
                0 <= k < childs@.len() ==> {
                    &&& (#[trigger] childs@[k]).state@ == successors(
                        parent.state@,
                        parent.state.size as int,
                    )[k]
                    &&& childs@[k].state.size == parent.state.size
                    &&& childs@[k].g_score == parent.g_score + 1
                    &&& childs@[k].h_score == heuristic.value(
                        childs@[k].state@,
                        final_node.state@,
                        parent.state.size as int,
                    )
                },
    {
        let ghost n: int = parent.state.size as int;
        let mut childs: Vec<Node> = Vec::new();
        proof {
            lemma_blank_cell(parent.state@, n);
        }
        let next_states = Node::calculate_next_states(&parent.state);
        let mut k: usize = 0;
        while k < next_states.len()
            invariant
                n == parent.state.size,
                parent.state.valid(),
                final_node.state.valid(),
                parent.state.size == final_node.state.size,
                scores_fit(parent.state.size),
                parent.g_score < usize::MAX,
                k <= next_states@.len(),
                childs@.len() == k,
                next_states@.len() == successors(parent.state@, n).len(),
                forall|j: int|
                    0 <= j < next_states@.len() ==> (#[trigger] next_states@[j])@ == successors(
                        parent.state@,
                        n,
                    )[j] && next_states@[j].size == parent.state.size,
                forall|j: int|
                    0 <= j < k ==> {
                        &&& (#[trigger] childs@[j]).state@ == successors(parent.state@, n)[j]
                        &&& childs@[j].state.size == parent.state.size
                        &&& childs@[j].g_score == parent.g_score + 1
                        &&& childs@[j].h_score == heuristic.value(
                            childs@[j].state@,
                            final_node.state@,
                            n,
                        )
                    },
            decreases next_states@.len() - k,
        {
            proof {
                lemma_successor_is_slide(parent.state@, n, k as int);
            }
            let state = next_states[k].clone();
            let h_score = heuristic.estimate(state.clone(), final_node.state.clone());
            childs.push(Node { state, g_score: parent.g_score + 1, h_score });
            k += 1;
        }

        childs
    }

    /// The node that holds the goal of side `size`.
    pub fn get_final_node(size: usize) -> (node: Node)
        requires
            2 <= size,
            size * size <= usize::MAX,
        ensures
            node.state@ == goal_cells(size as int),
            node.state.size == size,
            node.state.valid(),
            node.g_score == 0,
            node.h_score == 0,
    {
        Node { state: Puzzle::get_final_state(size), g_score: 0, h_score: 0 }
    }
}

} // verus!
