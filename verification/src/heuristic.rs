//! The distance heuristic: for every tile the way to its place in the
//! target, with a penalty for walls on the way.
//!
//! A tile's cost is the number of columns plus the number of rows between
//! its cell and its target cell. Every wall in the tile's row in a column
//! strictly between the tile's column and the target's adds two, and so
//! does every wall in the tile's column in a row strictly between the
//! tile's row and the target's, whichever side the target lies on.

use crate::grid::{col_of, lemma_row_col, row_of, single_blank, well_shaped};
use crate::puzzle::{tiles_of, Puzzle, PuzzleView};
use crate::seqs::{
    first_occurrence,
    is_first_occurrence,
    lemma_first_occurrence_exists,
    lemma_first_occurrence_unique,
};
use crate::target::{lemma_canonical_cells, target_of};
use crate::tile::{is_board_symbol, rank_of, raw_symbols, tile_of, Rune, Tile};
use vstd::prelude::*;

verus! {

/// The ranks of the cells, in order.
pub open spec fn ranks(cells: Seq<char>) -> Seq<int> {
    Seq::new(cells.len(), |i: int| rank_of(cells[i]))
}

/// The distance between two numbers.
pub open spec fn abs_diff(a: int, b: int) -> int {
    if a <= b {
        b - a
    } else {
        a - b
    }
}

/// The number of walls in row `row` in the columns from `from` up to, but
/// not including, `to`. Zero where `to` is not above `from`.
pub open spec fn walls_in_row(cells: Seq<char>, width: nat, row: int, from: int, to: int) -> nat
    decreases to - from,
{
    if to <= from {
        0
    } else {
        walls_in_row(cells, width, row, from, to - 1) + if cells[row * width + (to - 1)] == '=' {
            1nat
        } else {
            0nat
        }
    }
}

/// The number of walls in column `col` in the rows from `from` up to, but
/// not including, `to`. Zero where `to` is not above `from`.
pub open spec fn walls_in_col(cells: Seq<char>, width: nat, col: int, from: int, to: int) -> nat
    decreases to - from,
{
    if to <= from {
        0
    } else {
        walls_in_col(cells, width, col, from, to - 1) + if cells[(to - 1) * width + col] == '=' {
            1nat
        } else {
            0nat
        }
    }
}

/// The number of walls in row `row` in the columns strictly between `a`
/// and `b`, whichever of the two is the greater.
pub open spec fn walls_between_cols(cells: Seq<char>, width: nat, row: int, a: int, b: int) -> nat {
    if a <= b {
        walls_in_row(cells, width, row, a + 1, b)
    } else {
        walls_in_row(cells, width, row, b + 1, a)
    }
}

/// The number of walls in column `col` in the rows strictly between `a`
/// and `b`, whichever of the two is the greater.
pub open spec fn walls_between_rows(cells: Seq<char>, width: nat, col: int, a: int, b: int) -> nat {
    if a <= b {
        walls_in_col(cells, width, col, a + 1, b)
    } else {
        walls_in_col(cells, width, col, b + 1, a)
    }
}

/// The cost of bringing the tile at index `at` to index `goal`: the
/// columns and the rows between the two cells, and two for every wall
/// that the straight run along the tile's row and the straight run along
/// the tile's column cross on the way.
pub open spec fn travel_cost(cells: Seq<char>, width: nat, at: int, goal: int) -> int {
    let row = row_of(width, at);
    let col = col_of(width, at);
    let goal_row = row_of(width, goal);
    let goal_col = col_of(width, goal);
    abs_diff(col, goal_col) + 2 * walls_between_cols(cells, width, row, col, goal_col) + abs_diff(
        row,
        goal_row,
    ) + 2 * walls_between_rows(cells, width, col, row, goal_row)
}

/// The index at which a tile belongs: the index it carries, or else the
/// first index of the target that holds a tile of its rank.
pub open spec fn goal_index(tile: Tile, target: Seq<char>) -> int {
    match tile.solved_idx {
        Some(k) => k as int,
        None => first_occurrence(ranks(target), rank_of(tile.raw)),
    }
}

/// The cost that a tile contributes: nothing for a wall, else the cost of
/// the way from the first cell that holds its symbol to its goal.
pub open spec fn tile_distance(cells: Seq<char>, width: nat, tile: Tile, target: Seq<char>) -> int {
    if tile.rune == Rune::WALL {
        0
    } else {
        travel_cost(cells, width, first_occurrence(cells, tile.raw), goal_index(tile, target))
    }
}

/// The sum of the costs of the first `n` cells.
pub open spec fn distance_sum(cells: Seq<char>, width: nat, target: Seq<char>, n: int) -> int
    decreases n,
{
    if n <= 0 {
        0
    } else {
        distance_sum(cells, width, target, n - 1) + tile_distance(
            cells,
            width,
            tile_of(cells[n - 1]),
            target,
        )
    }
}

/// The heuristic value of a board against a target: the sum of the costs
/// of all its cells.
pub open spec fn heuristic(v: PuzzleView, target: PuzzleView) -> int {
    distance_sum(v.cells, v.width, target.cells, v.cells.len() as int)
}

/// Whether the cost of a tile on a board against a target is defined: a
/// tile that is no wall occurs on the board, and its goal is known and is
/// an index of the board.
pub open spec fn measurable(v: PuzzleView, tile: Tile, target: PuzzleView) -> bool {
    tile.rune != Rune::WALL ==> {
        &&& v.cells.contains(tile.raw)
        &&& tile.solved_idx is None ==> ranks(target.cells).contains(rank_of(tile.raw))
        &&& 0 <= goal_index(tile, target.cells) < v.cells.len()
    }
}

/// Whether the heuristic of a board against a target is defined: every
/// cell of the board is measurable.
pub open spec fn comparable(v: PuzzleView, target: PuzzleView) -> bool {
    forall|i: int| 0 <= i < v.cells.len() ==> measurable(v, tile_of(#[trigger] v.cells[i]), target)
}

/// The most that a single tile can cost on a board of at most nine by
/// nine cells: eight columns and eight rows, and two for each of the
/// seven cells between either way.
pub const MAX_TILE_DISTANCE: u32 = 44;

/// The most that a board of at most nine by nine cells can cost.
pub const MAX_HEURISTIC: u32 = 3564;

/// There are no more walls in a run than it has cells.
pub proof fn lemma_walls_bounded(cells: Seq<char>, width: nat, line: int, from: int, to: int)
    ensures
        walls_in_row(cells, width, line, from, to) <= abs_diff(from, to),
        walls_in_col(cells, width, line, from, to) <= abs_diff(from, to),
        to <= from ==> walls_in_row(cells, width, line, from, to) == 0 && walls_in_col(
            cells,
            width,
            line,
            from,
            to,
        ) == 0,
    decreases to - from,
{
    if to > from {
        lemma_walls_bounded(cells, width, line, from, to - 1);
    }
}

/// Between two columns, or two rows, there are fewer walls than the two
/// are apart, and none where they are next to each other or the same.
pub proof fn lemma_walls_between_bounded(cells: Seq<char>, width: nat, line: int, a: int, b: int)
    ensures
        walls_between_cols(cells, width, line, a, b) <= abs_diff(a, b),
        walls_between_rows(cells, width, line, a, b) <= abs_diff(a, b),
        abs_diff(a, b) >= 1 ==> walls_between_cols(cells, width, line, a, b) < abs_diff(a, b)
            && walls_between_rows(cells, width, line, a, b) < abs_diff(a, b),
        abs_diff(a, b) <= 1 ==> walls_between_cols(cells, width, line, a, b) == 0
            && walls_between_rows(cells, width, line, a, b) == 0,
{
    if a <= b {
        lemma_walls_bounded(cells, width, line, a + 1, b);
    } else {
        lemma_walls_bounded(cells, width, line, b + 1, a);
    }
}

/// The walls between two columns, or two rows, are the same from either
/// side.
pub proof fn lemma_walls_between_symmetric(cells: Seq<char>, width: nat, line: int, a: int, b: int)
    ensures
        walls_between_cols(cells, width, line, a, b) == walls_between_cols(
            cells,
            width,
            line,
            b,
            a,
        ),
        walls_between_rows(cells, width, line, a, b) == walls_between_rows(
            cells,
            width,
            line,
            b,
            a,
        ),
{
    if a == b {
        lemma_walls_bounded(cells, width, line, a + 1, b);
    }
}

/// The cost of a way between two cells of a board is bounded.
pub proof fn lemma_travel_cost_bounded(v: PuzzleView, at: int, goal: int)
    requires
        well_shaped(v),
        v.width <= 9,
        v.height <= 9,
        0 <= at < v.cells.len(),
        0 <= goal < v.cells.len(),
    ensures
        0 <= travel_cost(v.cells, v.width, at, goal) <= MAX_TILE_DISTANCE,
{
    lemma_row_col(v.width, v.height, at);
    lemma_row_col(v.width, v.height, goal);
    lemma_walls_between_bounded(
        v.cells,
        v.width,
        row_of(v.width, at),
        col_of(v.width, at),
        col_of(v.width, goal),
    );
    lemma_walls_between_bounded(
        v.cells,
        v.width,
        col_of(v.width, at),
        row_of(v.width, at),
        row_of(v.width, goal),
    );
}

/// A symbol of the board alphabet that is no wall is the only character of
/// its rank.
pub proof fn lemma_rank_identifies(c: char, x: char)
    requires
        is_board_symbol(c),
        c != '=',
        rank_of(x) == rank_of(c),
    ensures
        x == c,
{
}

/// A tile that is already at its goal costs nothing.
pub proof fn lemma_travel_cost_zero(cells: Seq<char>, width: nat, at: int)
    ensures
        travel_cost(cells, width, at, at) == 0,
{
    lemma_walls_between_bounded(
        cells,
        width,
        row_of(width, at),
        col_of(width, at),
        col_of(width, at),
    );
    lemma_walls_between_bounded(
        cells,
        width,
        col_of(width, at),
        row_of(width, at),
        row_of(width, at),
    );
}

/// On a board of symbols of the board alphabet, every cell is at its goal
/// when the board is its own target.
proof fn lemma_distance_sum_zero(cells: Seq<char>, width: nat, n: int)
    requires
        0 <= n <= cells.len(),
        forall|i: int| 0 <= i < cells.len() ==> is_board_symbol(#[trigger] cells[i]),
    ensures
        distance_sum(cells, width, cells, n) == 0,
    decreases n,
{
    if n > 0 {
        lemma_distance_sum_zero(cells, width, n - 1);
        let c = cells[n - 1];
        let tile = tile_of(c);
        if tile.rune != Rune::WALL {
            assert(cells.contains(c));
            lemma_first_occurrence_exists(cells, c);
            let k = first_occurrence(cells, c);
            assert forall|j: int| 0 <= j < k implies ranks(cells)[j] != rank_of(c) by {
                if rank_of(cells[j]) == rank_of(c) {
                    lemma_rank_identifies(c, cells[j]);
                }
            }
            assert(ranks(cells)[k] == rank_of(c));
            assert(is_first_occurrence(ranks(cells), rank_of(c), k));
            lemma_first_occurrence_unique(ranks(cells), rank_of(c), k);
            lemma_travel_cost_zero(cells, width, k);
        }
    }
}

/// A board whose cells all carry symbols of the board alphabet has
/// heuristic value zero against itself.
pub proof fn lemma_heuristic_zero_on_self(v: PuzzleView)
    requires
        forall|i: int| 0 <= i < v.cells.len() ==> is_board_symbol(#[trigger] v.cells[i]),
    ensures
        heuristic(v, v) == 0,
{
    lemma_distance_sum_zero(v.cells, v.width, v.cells.len() as int);
}

/// The solved layout of a board with one blank and symbols of the board
/// alphabet has heuristic value zero against itself.
pub proof fn lemma_heuristic_zero_on_target(v: PuzzleView)
    requires
        single_blank(v.cells),
        forall|i: int| 0 <= i < v.cells.len() ==> is_board_symbol(#[trigger] v.cells[i]),
    ensures
        heuristic(target_of(v), target_of(v)) == 0,
{
    let t = target_of(v);
    lemma_canonical_cells(v.cells);
    assert forall|i: int| 0 <= i < t.cells.len() implies is_board_symbol(#[trigger] t.cells[i]) by {
        assert(t.cells.contains(t.cells[i]));
        assert(v.cells.contains(t.cells[i]));
        let k = choose|k: int| 0 <= k < v.cells.len() && v.cells[k] == t.cells[i];
        assert(is_board_symbol(v.cells[k]));
    }
    lemma_heuristic_zero_on_self(t);
}

/// A board with one blank can be compared with its solved layout, and so
/// can every board made of the same symbols.
pub proof fn lemma_comparable_with_target(v: PuzzleView, start: PuzzleView)
    requires
        single_blank(start.cells),
        v.cells.len() == start.cells.len(),
        forall|i: int| 0 <= i < v.cells.len() ==> start.cells.contains(#[trigger] v.cells[i]),
    ensures
        comparable(v, target_of(start)),
{
    let t = target_of(start);
    lemma_canonical_cells(start.cells);
    assert forall|i: int| 0 <= i < v.cells.len() implies measurable(
        v,
        tile_of(#[trigger] v.cells[i]),
        t,
    ) by {
        let c = v.cells[i];
        let tile = tile_of(c);
        if tile.rune != Rune::WALL {
            assert(v.cells.contains(c));
            assert(start.cells.contains(c));
            assert(t.cells.contains(c));
            let k = choose|k: int| 0 <= k < t.cells.len() && t.cells[k] == c;
            assert(ranks(t.cells)[k] == rank_of(c));
            assert(ranks(t.cells).contains(rank_of(c)));
            lemma_first_occurrence_exists(ranks(t.cells), rank_of(c));
        }
    }
}

/// The first index of a run of tiles that holds the symbol `raw`.
pub(crate) fn position_of_raw(tiles: &Vec<Tile>, raw: char) -> (found: Option<usize>)
    ensures
        found is Some <==> raw_symbols(tiles@).contains(raw),
        found matches Some(i) ==> i == first_occurrence(raw_symbols(tiles@), raw)
            && is_first_occurrence(raw_symbols(tiles@), raw, i as int),
{
    let mut i: usize = 0;
    while i < tiles.len()
        invariant
            i <= tiles.len(),
            forall|j: int| 0 <= j < i ==> raw_symbols(tiles@)[j] != raw,
        decreases tiles.len() - i,
    {
        if tiles[i].raw == raw {
            proof {
                assert(raw_symbols(tiles@)[i as int] == raw);
                lemma_first_occurrence_unique(raw_symbols(tiles@), raw, i as int);
            }
            return Some(i);
        }
        i += 1;
    }
    None
}

/// The first index of a run of tiles that holds a tile of rank `rank`.
fn position_of_rank(tiles: &Vec<Tile>, rank: i32) -> (found: Option<usize>)
    ensures
        found is Some <==> ranks(raw_symbols(tiles@)).contains(rank as int),
        found matches Some(i) ==> i == first_occurrence(ranks(raw_symbols(tiles@)), rank as int)
            && is_first_occurrence(ranks(raw_symbols(tiles@)), rank as int, i as int),
{
    let mut i: usize = 0;
    while i < tiles.len()
        invariant
            i <= tiles.len(),
            forall|j: int| 0 <= j < i ==> ranks(raw_symbols(tiles@))[j] != rank,
        decreases tiles.len() - i,
    {
        if tiles[i].rank() == rank {
            proof {
                assert(ranks(raw_symbols(tiles@))[i as int] == rank);
                lemma_first_occurrence_unique(ranks(raw_symbols(tiles@)), rank as int, i as int);
            }
            return Some(i);
        }
        i += 1;
    }
    None
}

impl Puzzle {
    /// The number of walls in row `row` in the columns from `from` up to,
    /// but not including, `to`.
    fn walls_on_row(&self, row: usize, from: usize, to: usize) -> (count: u32)
        requires
            row < self@.height,
            to <= self@.width,
        ensures
            count == walls_in_row(self@.cells, self@.width, row as int, from as int, to as int),
            count <= 9,
    {
        proof {
            use_type_invariant(self);
            lemma_walls_bounded(self@.cells, self@.width, row as int, from as int, from as int);
            lemma_walls_bounded(self@.cells, self@.width, row as int, from as int, to as int);
        }
        let w = self.width as usize;
        let mut count: u32 = 0;
        let mut col: usize = from;
        while col < to
            invariant
                from <= col,
                col <= to || col == from,
                to <= w <= 9,
                w == self@.width,
                row < self@.height <= 9,
                self.tiles@ == tiles_of(self@.cells),
                self.tiles@.len() == w * self@.height,
                count == walls_in_row(self@.cells, self@.width, row as int, from as int, col as int),
                count <= col - from,
            decreases to - col,
        {
            assert(0 <= row * w && row * w + col < w * self@.height && w * self@.height <= 81)
                by (nonlinear_arith)
                requires
                    0 <= row < self@.height <= 9,
                    0 <= col < w <= 9,
            ;
            let check_idx = row * w + col;
            proof {
                assert(self.tiles@[check_idx as int] == tile_of(self@.cells[check_idx as int]));
            }
            if self.tiles[check_idx].rune == Rune::WALL {
                count += 1;
            }
            col += 1;
        }
        count
    }

    /// The number of walls in column `col` in the rows from `from` up to,
    /// but not including, `to`.
    fn walls_on_col(&self, col: usize, from: usize, to: usize) -> (count: u32)
        requires
            col < self@.width,
            to <= self@.height,
        ensures
            count == walls_in_col(self@.cells, self@.width, col as int, from as int, to as int),
            count <= 9,
    {
        proof {
            use_type_invariant(self);
            lemma_walls_bounded(self@.cells, self@.width, col as int, from as int, from as int);
            lemma_walls_bounded(self@.cells, self@.width, col as int, from as int, to as int);
        }
        let w = self.width as usize;
        let mut count: u32 = 0;
        let mut row: usize = from;
        while row < to
            invariant
                from <= row,
                row <= to || row == from,
                to <= self@.height <= 9,
                col < w <= 9,
                w == self@.width,
                self.tiles@ == tiles_of(self@.cells),
                self.tiles@.len() == w * self@.height,
                count == walls_in_col(self@.cells, self@.width, col as int, from as int, row as int),
                count <= row - from,
            decreases to - row,
        {
            assert(0 <= row * w && row * w + col < w * self@.height && w * self@.height <= 81)
                by (nonlinear_arith)
                requires
                    0 <= row < self@.height <= 9,
                    0 <= col < w <= 9,
            ;
            let check_idx = row * w + col;
            proof {
                assert(self.tiles@[check_idx as int] == tile_of(self@.cells[check_idx as int]));
            }
            if self.tiles[check_idx].rune == Rune::WALL {
                count += 1;
            }
            row += 1;
        }
        count
    }

    /// Whether the cost of `tile` on this board against `solved_puzzle` is
    /// defined.
    pub fn can_measure(&self, tile: &Tile, solved_puzzle: &Puzzle) -> (ok: bool)
        ensures
            ok == measurable(self@, *tile, solved_puzzle@),
    {
        proof {
            use_type_invariant(self);
            use_type_invariant(solved_puzzle);
        }
        if tile.rune == Rune::WALL {
            return true;
        }
        if position_of_raw(&self.tiles, tile.raw).is_none() {
            return false;
        }
        match tile.solved_idx {
            Some(k) => k < self.tiles.len(),
            None => match position_of_rank(&solved_puzzle.tiles, tile.rank()) {
                Some(k) => k < self.tiles.len(),
                None => false,
            },
        }
    }

    /// The cost that `tile` contributes on this board when
    /// `solved_puzzle` is the target.
    pub fn manhattan_distance(&self, tile: &Tile, solved_puzzle: &Puzzle) -> (distance: u32)
        requires
            measurable(self@, *tile, solved_puzzle@),
        ensures
            distance == tile_distance(self@.cells, self@.width, *tile, solved_puzzle@.cells),
            distance <= MAX_TILE_DISTANCE,
    {
        proof {
            use_type_invariant(self);
            use_type_invariant(solved_puzzle);
        }
        if tile.rune == Rune::WALL {
            return 0;
        }
        let idx = match position_of_raw(&self.tiles, tile.raw) {
            Some(i) => i,
            None => 0,
        };
        let solved_idx = match tile.solved_idx {
            Some(k) => k,
            None => match position_of_rank(&solved_puzzle.tiles, tile.rank()) {
                Some(k) => k,
                None => 0,
            },
        };
        let ghost cells = self@.cells;
        let ghost width = self@.width;
        proof {
            lemma_row_col(width, self@.height, idx as int);
            lemma_row_col(width, self@.height, solved_idx as int);
            lemma_travel_cost_bounded(self@, idx as int, solved_idx as int);
        }
        let w = self.width as usize;
        let current_row = idx / w;
        let current_col = idx % w;
        let solved_row = solved_idx / w;
        let solved_col = solved_idx % w;
        let (low_col, high_col) = if current_col <= solved_col {
            (current_col, solved_col)
        } else {
            (solved_col, current_col)
        };
        let (low_row, high_row) = if current_row <= solved_row {
            (current_row, solved_row)
        } else {
            (solved_row, current_row)
        };
        let lateral_walls = self.walls_on_row(current_row, low_col + 1, high_col);
        let vertical_walls = self.walls_on_col(current_col, low_row + 1, high_row);
        let lateral_moves: u32 = (high_col - low_col) as u32 + 2 * lateral_walls;
        let vertical_moves: u32 = (high_row - low_row) as u32 + 2 * vertical_walls;
        lateral_moves + vertical_moves
    }

    /// The heuristic value of this board against `solved_puzzle`: the sum
    /// of the costs of all its tiles.
    pub fn get_heuristic(&self, solved_puzzle: &Puzzle) -> (value: u32)
        requires
            comparable(self@, solved_puzzle@),
        ensures
            value == heuristic(self@, solved_puzzle@),
            value <= MAX_HEURISTIC,
    {
        proof {
            use_type_invariant(self);
        }
        let ghost cells = self@.cells;
        let mut value: u32 = 0;
        let mut i: usize = 0;
        assert(self.tiles@.len() <= 81) by (nonlinear_arith)
            requires
                self.tiles@.len() == self.width * self.height,
                self.width <= 9,
                self.height <= 9,
        ;
        while i < self.tiles.len()
            invariant
                i <= self.tiles.len(),
                self.tiles@.len() <= 81,
                cells == self@.cells,
                self.tiles@ == tiles_of(cells),
                comparable(self@, solved_puzzle@),
                value == distance_sum(cells, self@.width, solved_puzzle@.cells, i as int),
                value <= MAX_TILE_DISTANCE * i,
            decreases self.tiles.len() - i,
        {
            proof {
                assert(self.tiles@[i as int] == tile_of(cells[i as int]));
            }
            let d = self.manhattan_distance(&self.tiles[i], solved_puzzle);
            value += d;
            i += 1;
        }
        value
    }
}

} // verus!
