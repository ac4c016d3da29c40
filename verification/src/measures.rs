//! Further measures of a board: the distance of its tiles from their
//! places on another board, rank conflicts between neighbours, and
//! inversions.

use crate::heuristic::{abs_diff, position_of_raw, travel_cost, MAX_TILE_DISTANCE};
use crate::puzzle::{board_hash, tiles_of, Puzzle, PuzzleView};
use crate::seqs::first_occurrence;
use crate::tile::{rank_of, tile_of, Rune, Tile};
use vstd::prelude::*;

verus! {

/// The cost of bringing a tile to the cell that holds its symbol on the
/// board `root`: nothing if the two boards have the same content hash or
/// the tile is a wall, else the cost of the way between the first cells
/// that hold the symbol on either board.
pub open spec fn root_distance(v: PuzzleView, tile: Tile, root: PuzzleView) -> int {
    if board_hash(v.cells) == board_hash(root.cells) || tile.rune == Rune::WALL {
        0
    } else {
        travel_cost(
            v.cells,
            v.width,
            first_occurrence(v.cells, tile.raw),
            first_occurrence(root.cells, tile.raw),
        )
    }
}

/// Whether the cost of a tile towards its cell on `root` is defined: the
/// symbol occurs on both boards, and its cell on `root` is an index of
/// this board.
pub open spec fn traceable(v: PuzzleView, tile: Tile, root: PuzzleView) -> bool {
    (board_hash(v.cells) != board_hash(root.cells) && tile.rune != Rune::WALL) ==> {
        &&& v.cells.contains(tile.raw)
        &&& root.cells.contains(tile.raw)
        &&& first_occurrence(root.cells, tile.raw) < v.cells.len()
    }
}

/// The sum of the costs of the first `n` cells towards their cells on
/// `root`.
pub open spec fn root_distance_sum(v: PuzzleView, root: PuzzleView, n: int) -> int
    decreases n,
{
    if n <= 0 {
        0
    } else {
        root_distance_sum(v, root, n - 1) + root_distance(v, tile_of(v.cells[n - 1]), root)
    }
}

/// One if `other` is a cell whose rank differs by exactly one from that of
/// the cell at `at`, else zero.
pub open spec fn conflict(cells: Seq<char>, at: int, other: int) -> nat {
    if 0 <= other < cells.len() && abs_diff(rank_of(cells[at]), rank_of(cells[other])) == 1 {
        1
    } else {
        0
    }
}

/// The number of conflicts of the cell at `at` with the cells one index
/// before and after it and one row above and below it.
pub open spec fn conflicts_at(cells: Seq<char>, width: nat, at: int) -> nat {
    conflict(cells, at, at + 1) + conflict(cells, at, at - 1) + conflict(cells, at, at - width)
        + conflict(cells, at, at + width)
}

/// The number of cells among those from index `from` to before index
/// `upto` whose rank is below that of the cell at `at`.
pub open spec fn lower_ranks(cells: Seq<char>, at: int, from: int, upto: int) -> nat
    decreases upto - from,
{
    if upto <= from {
        0
    } else {
        lower_ranks(cells, at, from, upto - 1) + if rank_of(cells[upto - 1]) < rank_of(cells[at]) {
            1nat
        } else {
            0nat
        }
    }
}

/// The number of pairs of cells, the first before index `n`, in which the
/// later cell has the lower rank.
pub open spec fn inversions_before(cells: Seq<char>, n: int) -> nat
    decreases n,
{
    if n <= 0 {
        0
    } else {
        inversions_before(cells, n - 1) + lower_ranks(cells, n - 1, n, cells.len() as int)
    }
}

impl Puzzle {
    /// Whether the cost of `tile` towards its cell on `root_puzzle` is
    /// defined.
    pub fn can_trace(&self, tile: &Tile, root_puzzle: &Puzzle) -> (ok: bool)
        ensures
            ok == traceable(self@, *tile, root_puzzle@),
    {
        proof {
            use_type_invariant(self);
            use_type_invariant(root_puzzle);
        }
        if self.hash == root_puzzle.hash || tile.rune == Rune::WALL {
            return true;
        }
        if position_of_raw(&self.tiles, tile.raw).is_none() {
            return false;
        }
        match position_of_raw(&root_puzzle.tiles, tile.raw) {
            Some(k) => k < self.tiles.len(),
            None => false,
        }
    }

    /// The cost of bringing `tile` from its cell on this board to the cell
    /// that holds its symbol on `root_puzzle`.
    pub fn inverse_manhattan_distance(&self, tile: &Tile, root_puzzle: &Puzzle) -> (distance: u32)
        requires
            traceable(self@, *tile, root_puzzle@),
        ensures
            distance == root_distance(self@, *tile, root_puzzle@),
            distance <= MAX_TILE_DISTANCE,
    {
        proof {
            use_type_invariant(self);
            use_type_invariant(root_puzzle);
        }
        if self.hash == root_puzzle.hash {
            return 0;
        }
        if tile.rune == Rune::WALL {
            return 0;
        }
        let root_idx = match position_of_raw(&root_puzzle.tiles, tile.raw) {
            Some(k) => k,
            None => 0,
        };
        let probe = Tile { raw: tile.raw, rune: tile.rune, solved_idx: Some(root_idx) };
        let distance = self.manhattan_distance(&probe, root_puzzle);
        distance
    }

    /// The sum over all tiles of their costs towards their cells on
    /// `root_puzzle`.
    pub fn get_inverse_heuristic(&self, root_puzzle: &Puzzle) -> (score: u32)
        requires
            forall|i: int|
                0 <= i < self@.cells.len() ==> traceable(
                    self@,
                    tile_of(#[trigger] self@.cells[i]),
                    root_puzzle@,
                ),
        ensures
            score == root_distance_sum(self@, root_puzzle@, self@.cells.len() as int),
    {
        proof {
            use_type_invariant(self);
        }
        let mut score: u32 = 0;
        let mut i: usize = 0;
        assert(self.tiles@.len() <= 81) by (nonlinear_arith)
            requires
                self.tiles@.len() == self.width * self.height,
                self.width <= 9,
                self.height <= 9,
        ;
        while i < self.tiles.len()
            invariant
                i <= self.tiles.len(),
                self.tiles@.len() <= 81,
                self.tiles@ == tiles_of(self@.cells),
                forall|i: int|
                    0 <= i < self@.cells.len() ==> traceable(
                        self@,
                        tile_of(#[trigger] self@.cells[i]),
                        root_puzzle@,
                    ),
                score == root_distance_sum(self@, root_puzzle@, i as int),
                score <= MAX_TILE_DISTANCE * i,
            decreases self.tiles.len() - i,
        {
            proof {
                assert(self.tiles@[i as int] == tile_of(self@.cells[i as int]));
            }
            let d = self.inverse_manhattan_distance(&self.tiles[i], root_puzzle);
            score += d;
            i += 1;
        }
        score
    }

    /// Whether `other` is a cell whose rank differs by exactly one from
    /// `rank`.
    fn conflicts(&self, at: usize, other: usize) -> (count: u32)
        requires
            at < self@.cells.len(),
        ensures
            count == conflict(self@.cells, at as int, other as int),
    {
        proof {
            use_type_invariant(self);
        }
        if other < self.tiles.len() {
            proof {
                assert(self.tiles@[at as int] == tile_of(self@.cells[at as int]));
                assert(self.tiles@[other as int] == tile_of(self@.cells[other as int]));
            }
            let a = self.tiles[at].rank();
            let b = self.tiles[other].rank();
            if a - b == 1 || b - a == 1 {
                1
            } else {
                0
            }
        } else {
            0
        }
    }

    /// The number of neighbours of the tile at `tile_idx`, one index before
    /// and after it and one row above and below it, whose rank differs
    /// from its own by exactly one.
    pub fn linear_conflicts(&self, tile_idx: usize) -> (count: u32)
        requires
            tile_idx < self@.cells.len(),
        ensures
            count == conflicts_at(self@.cells, self@.width, tile_idx as int),
    {
        proof {
            use_type_invariant(self);
        }
        assert(self.tiles@.len() <= 81) by (nonlinear_arith)
            requires
                self.tiles@.len() == self.width * self.height,
                self.width <= 9,
                self.height <= 9,
        ;
        let w = self.width as usize;
        let mut count: u32 = self.conflicts(tile_idx, tile_idx + 1);
        if tile_idx >= 1 {
            count += self.conflicts(tile_idx, tile_idx - 1);
        }
        if tile_idx >= w {
            count += self.conflicts(tile_idx, tile_idx - w);
        }
        count += self.conflicts(tile_idx, tile_idx + w);
        count
    }

    /// The number of pairs of tiles in which the later tile has the lower
    /// rank.
    pub fn inversions(&self) -> (count: u32)
        ensures
            count == inversions_before(self@.cells, self@.cells.len() as int),
    {
        proof {
            use_type_invariant(self);
        }
        assert(self.tiles@.len() <= 81) by (nonlinear_arith)
            requires
                self.tiles@.len() == self.width * self.height,
                self.width <= 9,
                self.height <= 9,
        ;
        let n = self.tiles.len();
        let ghost cells = self@.cells;
        let mut count: u32 = 0;
        let mut i: usize = 0;
        while i < n
            invariant
                i <= n,
                n == self.tiles@.len(),
                n <= 81,
                cells == self@.cells,
                self.tiles@ == tiles_of(cells),
                count == inversions_before(cells, i as int),
                count <= 81 * i,
            decreases n - i,
        {
            let rank = self.tiles[i].rank();
            let mut j: usize = i + 1;
            let mut lower: u32 = 0;
            while j < n
                invariant
                    i < j <= n,
                    n == self.tiles@.len(),
                    n <= 81,
                    cells == self@.cells,
                    self.tiles@ == tiles_of(cells),
                    rank == rank_of(cells[i as int]),
                    lower == lower_ranks(cells, i as int, i + 1, j as int),
                    lower <= j - i - 1,
                decreases n - j,
            {
                proof {
                    assert(self.tiles@[j as int] == tile_of(cells[j as int]));
                }
                if self.tiles[j].rank() < rank {
                    lower += 1;
                }
                j += 1;
            }
            count += lower;
            i += 1;
        }
        count
    }
}

} // verus!
