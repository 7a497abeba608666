//! What a caller chooses: the estimator, the way of searching, and where the puzzle
//! comes from.

use vstd::prelude::*;
use crate::error::PuzzleError;
use crate::graph::{boards, Graph, Solution};
use crate::heuristic::{scores_fit, side_fits, Heuristic};
use crate::moves::{is_path, lemma_reachable_step, lemma_successor_is_slide, reachable, successors};
use crate::optimal::{finds_shortest, is_shortest};
use crate::puzzle::Puzzle;
use crate::solvable::is_solvable_board;
use crate::spiral::goal_cells;

verus! {

/// The estimators by the names under which they are chosen.
#[derive(Debug, Clone, Copy, PartialEq, Eq, Structural)]
pub enum HeuristicValues {
    Hamming,
    Manhattan,
    Linear,
    M2L,
}

/// The ways of searching by the names under which they are chosen.
#[derive(Debug, Clone, Copy, PartialEq, Eq, Structural)]
pub enum AlgorithmValues {
    Recursive,
    Astar,
    Greedy,
    Uniform,
}

/// The two search procedures.
#[derive(Debug, Clone, Copy, PartialEq, Eq, Structural)]
pub enum Algorithm {
    /// Depth first, the children in rising order of rank.
    Recursive,
    /// Best first over a frontier.
    BestFirst,
}

/// The choices of one run: a puzzle is generated with side `size`, or read from
/// `file`.
#[derive(Debug)]
pub struct Opt {
    pub heuristic: HeuristicValues,
    pub algorithm: AlgorithmValues,
    pub size: Option<usize>,
    pub file: Option<String>,
}

/// The estimator that goes by this name.
pub fn get_heuristic(heuristic_value: &HeuristicValues) -> (heuristic: Heuristic)
    ensures
        heuristic == match *heuristic_value {
            HeuristicValues::Hamming => Heuristic::Hamming,
            HeuristicValues::Manhattan => Heuristic::Manhattan,
            HeuristicValues::Linear => Heuristic::LinearConflict,
            HeuristicValues::M2L => Heuristic::ManhattanLinearConflict,
        },
{
    match heuristic_value {
        HeuristicValues::Hamming => Heuristic::Hamming,
        HeuristicValues::Manhattan => Heuristic::Manhattan,
        HeuristicValues::Linear => Heuristic::LinearConflict,
        HeuristicValues::M2L => Heuristic::ManhattanLinearConflict,
    }
}

/// The procedure that runs a search of this name.
pub fn get_algorithm(algorithm_value: &AlgorithmValues) -> (algorithm: Algorithm)
    ensures
        algorithm == match *algorithm_value {
            AlgorithmValues::Recursive => Algorithm::Recursive,
            AlgorithmValues::Astar => Algorithm::BestFirst,
            AlgorithmValues::Greedy => Algorithm::BestFirst,
            AlgorithmValues::Uniform => Algorithm::BestFirst,
        },
{
    match algorithm_value {
        AlgorithmValues::Recursive => Algorithm::Recursive,
        AlgorithmValues::Astar => Algorithm::BestFirst,
        AlgorithmValues::Greedy => Algorithm::BestFirst,
        AlgorithmValues::Uniform => Algorithm::BestFirst,
    }
}

/// The weights of cost and estimate in a node's rank: the greedy search leaves the
/// cost out, the uniform search the estimate.
pub fn get_mul(algorithm_value: &AlgorithmValues) -> (weights: (usize, usize))
    ensures
        weights == match *algorithm_value {
            AlgorithmValues::Recursive => (1usize, 1usize),
            AlgorithmValues::Astar => (1usize, 1usize),
            AlgorithmValues::Greedy => (0usize, 1usize),
            AlgorithmValues::Uniform => (1usize, 0usize),
        },
{
    match algorithm_value {
        AlgorithmValues::Recursive => (1, 1),
        AlgorithmValues::Astar => (1, 1),
        AlgorithmValues::Greedy => (0, 1),
        AlgorithmValues::Uniform => (1, 0),
    }
}

impl Algorithm {
    /// Runs the procedure on `state`.
    pub fn run(&self, state: Puzzle, heuristic: Heuristic, g_mul: usize, h_mul: usize) -> (found:
        Result<Solution, PuzzleError>)
        requires
            state.valid(),
            scores_fit(state.size),
            g_mul <= u32::MAX,
            h_mul <= u32::MAX,
        ensures
            found is Err ==> found->Err_0 == PuzzleError::SearchExhausted,
            found is Ok ==> is_solvable_board(state@, state.size as int) && reachable(
                state@,
                goal_cells(state.size as int),
                state.size as int,
            ),
            *self == Algorithm::BestFirst && is_solvable_board(state@, state.size as int)
                ==> found is Ok,
            successors(state@, state.size as int).contains(goal_cells(state.size as int))
                ==> found is Ok,
            *self == Algorithm::BestFirst && finds_shortest(g_mul, h_mul) && found is Ok
                ==> is_shortest(
                found->Ok_0.final_node.g_score as int,
                state@,
                goal_cells(state.size as int),
                state.size as int,
            ),
            found is Ok ==> {
                let solution = found->Ok_0;
                &&& is_path(
                    boards(solution.path@),
                    state@,
                    goal_cells(state.size as int),
                    state.size as int,
                )
                &&& solution.path@.len() == solution.final_node.g_score + 1
                &&& solution.final_node.state@ == goal_cells(state.size as int)
            },
            state@ == goal_cells(state.size as int) ==> found is Ok
                && found->Ok_0.final_node.g_score == 0,
    {
        proof {
            let n = state.size as int;
            let next = successors(state@, n);
            if next.contains(goal_cells(n)) {
                let k = choose|k: int| 0 <= k < next.len() && next[k] == goal_cells(n);
                lemma_successor_is_slide(state@, n, k);
                lemma_reachable_step(state@, goal_cells(n), n);
            }
        }
        match self {
            Algorithm::Recursive => Graph::recursive(state, heuristic, g_mul, h_mul),
            Algorithm::BestFirst => Graph::a_star(state, heuristic, g_mul, h_mul),
        }
    }
}

/// The fault for which a state is turned away before any search: none if the state
/// is a valid board that passes the parity test and whose side is small enough for
/// the estimates to fit.
pub open spec fn fault_of(state: Puzzle) -> Option<PuzzleError> {
    if state.size < 2 || !scores_fit(state.size) {
        Some(PuzzleError::InvalidSize)
    } else if !state.valid() {
        Some(PuzzleError::ValueNotFound)
    } else if !is_solvable_board(state@, state.size as int) {
        Some(PuzzleError::UnsolvablePuzzle)
    } else {
        None
    }
}

/// Checks the state and runs the search that goes by the name `algorithm_value`
/// with the estimator that goes by the name `heuristic_value`.
pub fn solve(
    state: Puzzle,
    heuristic_value: &HeuristicValues,
    algorithm_value: &AlgorithmValues,
) -> (found: Result<Solution, PuzzleError>)
    ensures
        fault_of(state) is Some ==> found is Err && found->Err_0 == fault_of(state)->0,
        fault_of(state) is None && found is Err ==> found->Err_0 == PuzzleError::SearchExhausted,
        found is Ok ==> {
            let solution = found->Ok_0;
            &&& is_path(
                boards(solution.path@),
                state@,
                goal_cells(state.size as int),
                state.size as int,
            )
            &&& solution.path@.len() == solution.final_node.g_score + 1
            &&& solution.final_node.state@ == goal_cells(state.size as int)
        },
        fault_of(state) is None && state@ == goal_cells(state.size as int) ==> found is Ok
            && found->Ok_0.final_node.g_score == 0,
        fault_of(state) is None && *algorithm_value != AlgorithmValues::Recursive ==> found is Ok,
        fault_of(state) is None && successors(state@, state.size as int).contains(
            goal_cells(state.size as int),
        ) ==> found is Ok,
        found is Ok && (*algorithm_value == AlgorithmValues::Uniform || *algorithm_value
            == AlgorithmValues::Astar) ==> is_shortest(
            found->Ok_0.final_node.g_score as int,
            state@,
            goal_cells(state.size as int),
            state.size as int,
        ),
{
    if state.size < 2 || !side_fits(state.size) {
        return Err(PuzzleError::InvalidSize);
    }
    if !state.is_valid() {
        return Err(PuzzleError::ValueNotFound);
    }
    assert(state.size * state.size == state.data.len());
    if !Puzzle::is_solvable(state.clone()) {
        return Err(PuzzleError::UnsolvablePuzzle);
    }
    let heuristic = get_heuristic(heuristic_value);
    let (g_mul, h_mul) = get_mul(algorithm_value);
    match get_algorithm(algorithm_value) {
        Algorithm::Recursive => Graph::recursive(state, heuristic, g_mul, h_mul),
        Algorithm::BestFirst => Graph::a_star(state, heuristic, g_mul, h_mul),
    }
}

} // verus!
