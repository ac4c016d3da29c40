//! Answering a board with the help of a memo of earlier answers.
//!
//! The memo maps the text of a board to the text of the moves that solve
//! it. It lives outside this library; the caller looks the board up, hands
//! over what came back, and stores the answer where it is told to. A memo
//! that cannot be reached counts as one that holds nothing.

use crate::direction::{moves_text, serialize_moves};
use crate::error::PuzzleError;
use crate::grid::single_blank;
use crate::puzzle::{parsed_board, text_parses, Puzzle};
use crate::search::solve_spec;
use vstd::prelude::*;
use vstd::string::StringExecFns;

verus! {

/// What looking a board up in the memo came back with.
pub enum Lookup {
    /// The memo holds these moves for the board.
    Hit(String),
    /// The memo holds nothing for the board.
    Miss,
    /// The memo could not be asked.
    Unavailable,
}

/// The answer for a board.
pub struct Answer {
    /// The moves that solve the board, if any are known.
    pub moves: Option<String>,
    /// Whether the moves were found by a search and belong in the memo.
    pub store: bool,
}

/// The moves of an answer, as characters.
pub open spec fn answer_moves(a: Answer) -> Option<Seq<char>> {
    match a.moves {
        Some(m) => Some(m@),
        None => None,
    }
}

/// The moves that a search from the board that `text` denotes finds, as
/// text.
pub open spec fn fresh_moves(text: Seq<char>, threshold: Option<u64>) -> Option<Seq<char>> {
    match solve_spec(parsed_board(text), threshold) {
        Some(n) => Some(moves_text(n.moves)),
        None => None,
    }
}

/// Answers the board that `text` denotes.
///
/// Moves that the memo holds are the answer, and the text is not even
/// read. Otherwise the board is read and searched: a text that is no board
/// is a format error, a board that has not exactly one blank is reported
/// as unsolvable, and any other board is answered by what the search
/// finds, to be stored if it found something.
pub fn answer(text: &str, lookup: Lookup, heuristic_threshold: Option<u64>) -> (result: Result<
    Answer,
    PuzzleError,
>)
    ensures
        lookup matches Lookup::Hit(m) ==> (result matches Ok(a) && answer_moves(a) == Some(m@)
            && !a.store),
        (!(lookup is Hit) && !text_parses(text@)) ==> (result matches Err(e) && e is FormatError),
        (!(lookup is Hit) && text_parses(text@) && !single_blank(parsed_board(text@).cells)) ==> (
        result matches Err(e) && e is UnsolvableBoard),
        (!(lookup is Hit) && text_parses(text@) && single_blank(parsed_board(text@).cells)) ==> (
        result matches Ok(a) && answer_moves(a) == fresh_moves(text@, heuristic_threshold)
            && a.store == (a.moves is Some)),
{
    match lookup {
        Lookup::Hit(moves) => Ok(Answer { moves: Some(moves), store: false }),
        _ => {
            let mut puzzle = match Puzzle::from_str(text) {
                Ok(p) => p,
                Err(e) => {
                    return Err(e);
                },
            };
            if !puzzle.has_single_blank() {
                return Err(
                    PuzzleError::UnsolvableBoard(String::from_str("not exactly one blank cell")),
                );
            }
            match puzzle.solve(heuristic_threshold) {
                Some(moves) => Ok(Answer { moves: Some(serialize_moves(&moves)), store: true }),
                None => Ok(Answer { moves: None, store: false }),
            }
        },
    }
}

} // verus!
