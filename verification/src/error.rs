//! What can go wrong when a board is read or a move is made.

use vstd::prelude::*;
use vstd::string::StringExecFns;

verus! {

/// The errors of this library.
#[derive(Debug)]
pub enum PuzzleError {
    /// The requested move leaves the grid or runs into a wall.
    IllegalMove(String),
    /// The board cannot be brought into its solved layout.
    UnsolvableBoard(String),
    /// The text is not a board encoding.
    FormatError(String),
}

/// The heading that precedes the detail of an error in its description.
pub open spec fn error_heading(e: PuzzleError) -> Seq<char> {
    match e {
        PuzzleError::IllegalMove(_) => "Illegal move: "@,
        PuzzleError::UnsolvableBoard(_) => "Board is in an unsolvable configuration "@,
        PuzzleError::FormatError(_) => "Malformed board text: "@,
    }
}

/// The detail that an error carries.
pub open spec fn error_detail(e: PuzzleError) -> Seq<char> {
    match e {
        PuzzleError::IllegalMove(msg) => msg@,
        PuzzleError::UnsolvableBoard(msg) => msg@,
        PuzzleError::FormatError(msg) => msg@,
    }
}

impl PuzzleError {
    /// A one-line description: the heading of the error's kind followed by
    /// its detail.
    pub fn message(&self) -> (text: String)
        ensures
            text@ == error_heading(*self) + error_detail(*self),
    {
        match self {
            PuzzleError::IllegalMove(msg) => String::from_str("Illegal move: ").concat(
                msg.as_str(),
            ),
            PuzzleError::UnsolvableBoard(msg) => String::from_str(
                "Board is in an unsolvable configuration ",
            ).concat(msg.as_str()),
            PuzzleError::FormatError(msg) => String::from_str("Malformed board text: ").concat(
                msg.as_str(),
            ),
        }
    }
}

} // verus!
