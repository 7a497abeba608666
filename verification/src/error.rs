use vstd::prelude::*;

verus! {

/// What can go wrong while a puzzle is built or solved.
#[derive(Debug, Clone, Copy, PartialEq, Eq, Structural)]
pub enum PuzzleError {
    /// The requested side length is below two.
    InvalidSize,
    /// The inversion parity of the cells differs from that of the goal.
    UnsolvablePuzzle,
    /// A tile that was looked up does not occur among the cells.
    ValueNotFound,
    /// The frontier ran empty before the goal was reached.
    SearchExhausted,
    /// While walking back from the goal no predecessor was found.
    DeadEndInPath,
}

impl PuzzleError {
    /// A short description of the failure.
    pub fn message(&self) -> (text: &'static str)
        ensures
            text@ == match *self {
                PuzzleError::InvalidSize => "Size should be higher than 1"@,
                PuzzleError::UnsolvablePuzzle => "Unsolvable puzzle"@,
                PuzzleError::ValueNotFound => "value not found inside the puzzle"@,
                PuzzleError::SearchExhausted =>
                    "The graph has been completely explored, yet the goal state hasn't been reached"@,
                PuzzleError::DeadEndInPath => "no previous state leads to this one"@,
            },
    {
        match self {
            PuzzleError::InvalidSize => "Size should be higher than 1",
            PuzzleError::UnsolvablePuzzle => "Unsolvable puzzle",
            PuzzleError::ValueNotFound => "value not found inside the puzzle",
            PuzzleError::SearchExhausted =>
                "The graph has been completely explored, yet the goal state hasn't been reached",
            PuzzleError::DeadEndInPath => "no previous state leads to this one",
        }
    }
}

} // verus!
