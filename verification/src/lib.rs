//! A solver for sliding-tile puzzles with optional immovable wall cells.
//!
//! A board is read from text (`puzzle`), its solved layout is derived from
//! it (`target`), and a best-first search over the moves of the blank
//! (`moves`) looks for a way from the one to the other, guided by a
//! distance heuristic that charges for walls (`heuristic`). The search
//! runs in one lane (`search`, `lane`), in several lanes on a pool of
//! threads (`parallel`), or in several lanes that take turns (`turns`).
//! Answers can be reused from a memo that the caller keeps (`memo`).
//! `complete` states when a search without a threshold is bound to find a
//! solution.
//!
//! Every function carries a contract, proved with Verus. The contracts
//! speak of the mathematical content of a board, `PuzzleView`.

pub mod complete;
pub mod direction;
pub mod error;
pub mod frontier;
pub mod grid;
pub mod hashing;
pub mod heuristic;
pub mod lane;
pub mod measures;
pub mod memo;
pub mod moves;
pub mod parallel;
pub mod puzzle;
pub mod route;
pub mod search;
pub mod seqs;
pub mod slot;
pub mod target;
pub mod text;
pub mod tile;
pub mod turns;
pub mod visited;
