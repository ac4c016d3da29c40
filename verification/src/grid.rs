//! The geometry of a board: rows, columns, neighbours, and what a move of
//! the blank does to the cells.

use crate::direction::{opposite, Direction};
use crate::puzzle::{board_hash, PuzzleView};
use crate::seqs::{first_occurrence, is_first_occurrence, lemma_first_occurrence_unique};
use vstd::arithmetic::div_mod::{
    lemma_fundamental_div_mod,
    lemma_fundamental_div_mod_converse,
    lemma_mod_bound,
};
use vstd::prelude::*;

verus! {

/// The row of the cell at index `at`.
pub open spec fn row_of(width: nat, at: int) -> int {
    at / (width as int)
}

/// The column of the cell at index `at`.
pub open spec fn col_of(width: nat, at: int) -> int {
    at % (width as int)
}

/// The index of the cell in the given row and column.
pub open spec fn cell_index(width: nat, cell: (int, int)) -> int {
    cell.0 * width + cell.1
}

/// Whether a (row, column) pair names a cell of the grid.
pub open spec fn in_grid(width: nat, height: nat, cell: (int, int)) -> bool {
    0 <= cell.0 < height && 0 <= cell.1 < width
}

/// The (row, column) one step from the cell at `at` in direction `d`. It
/// may lie outside the grid.
pub open spec fn neighbour(width: nat, at: int, d: Direction) -> (int, int) {
    let row = row_of(width, at);
    let col = col_of(width, at);
    match d {
        Direction::UP => (row - 1, col),
        Direction::DOWN => (row + 1, col),
        Direction::LEFT => (row, col - 1),
        Direction::RIGHT => (row, col + 1),
    }
}

/// The index of the cell one step from `at` in direction `d`.
pub open spec fn slide_target(width: nat, at: int, d: Direction) -> int {
    cell_index(width, neighbour(width, at, d))
}

/// Whether a blank at `at` may move in direction `d`: the neighbouring cell
/// lies in the grid and is no wall.
pub open spec fn can_slide(v: PuzzleView, at: int, d: Direction) -> bool {
    let cell = neighbour(v.width, at, d);
    in_grid(v.width, v.height, cell) && v.cells[cell_index(v.width, cell)] != '='
}

/// `d` alone if a blank at `at` may move that way, else nothing.
pub open spec fn legal_if(v: PuzzleView, at: int, d: Direction) -> Seq<Direction> {
    if can_slide(v, at, d) {
        seq![d]
    } else {
        Seq::empty()
    }
}

/// The directions in which a blank at `at` may move, in the fixed order up,
/// down, left, right.
pub open spec fn legal_directions(v: PuzzleView, at: int) -> Seq<Direction> {
    legal_if(v, at, Direction::UP) + legal_if(v, at, Direction::DOWN) + legal_if(
        v,
        at,
        Direction::LEFT,
    ) + legal_if(v, at, Direction::RIGHT)
}

/// Whether the board has a blank cell.
pub open spec fn has_blank(cells: Seq<char>) -> bool {
    cells.contains('0')
}

/// Whether the board has exactly one blank cell.
pub open spec fn single_blank(cells: Seq<char>) -> bool {
    &&& has_blank(cells)
    &&& forall|i: int, j: int|
        0 <= i < cells.len() && 0 <= j < cells.len() && cells[i] == '0' && cells[j] == '0' ==> i
            == j
}

/// The index of the first blank cell.
pub open spec fn blank_index(cells: Seq<char>) -> int {
    first_occurrence(cells, '0')
}

/// The cells with the contents of positions `i` and `j` exchanged.
pub open spec fn swapped(cells: Seq<char>, i: int, j: int) -> Seq<char> {
    cells.update(i, cells[j]).update(j, cells[i])
}

/// The board after its blank moved in direction `d`: the blank and the
/// neighbouring cell are exchanged and `d` is appended to the move list.
pub open spec fn slide(v: PuzzleView, d: Direction) -> PuzzleView {
    let at = blank_index(v.cells);
    PuzzleView {
        width: v.width,
        height: v.height,
        cells: swapped(v.cells, at, slide_target(v.width, at, d)),
        moves: v.moves.push(d),
        g: v.g,
    }
}

/// The board after a move that costs `step`.
pub open spec fn child(v: PuzzleView, d: Direction, step: nat) -> PuzzleView {
    let next = slide(v, d);
    PuzzleView {
        width: next.width,
        height: next.height,
        cells: next.cells,
        moves: next.moves,
        g: v.g + step,
    }
}

/// Whether the dimensions of a board and the number of its cells agree.
pub open spec fn well_shaped(v: PuzzleView) -> bool {
    v.cells.len() == v.width * v.height
}

/// Row and column of an index determine it, and lie in the grid.
pub proof fn lemma_row_col(width: nat, height: nat, at: int)
    requires
        0 <= at < width * height,
    ensures
        width > 0,
        at == row_of(width, at) * width + col_of(width, at),
        in_grid(width, height, (row_of(width, at), col_of(width, at))),
{
    if width == 0 {
        assert(width * height == 0) by (nonlinear_arith)
            requires
                width == 0,
        ;
    }
    let w = width as int;
    lemma_fundamental_div_mod(at, w);
    lemma_mod_bound(at, w);
    let r = at / w;
    let c = at % w;
    assert(w * r == r * w) by (nonlinear_arith);
    assert(0 <= r < height) by (nonlinear_arith)
        requires
            at == r * w + c,
            0 <= c < w,
            0 <= at < w * height,
    ;
}

/// The index of a grid cell lies in the board and has that row and column.
pub proof fn lemma_cell_index(width: nat, height: nat, row: int, col: int)
    requires
        in_grid(width, height, (row, col)),
    ensures
        0 <= cell_index(width, (row, col)) < width * height,
        row_of(width, cell_index(width, (row, col))) == row,
        col_of(width, cell_index(width, (row, col))) == col,
{
    let w = width as int;
    let x = row * w + col;
    lemma_fundamental_div_mod_converse(x, w, row, col);
    assert(0 <= row * w + col < w * height) by (nonlinear_arith)
        requires
            0 <= row < height,
            0 <= col < w,
    ;
}

/// What a step means for indices: whether it stays in the grid, and where
/// it leads.
pub proof fn lemma_slide_by_index(width: nat, height: nat, at: int, d: Direction)
    requires
        0 <= at < width * height,
    ensures
        width > 0,
        in_grid(width, height, neighbour(width, at, d)) <==> (match d {
            Direction::UP => at >= width,
            Direction::DOWN => at + width < width * height,
            Direction::LEFT => at % (width as int) != 0,
            Direction::RIGHT => (at + 1) % (width as int) != 0,
        }),
        in_grid(width, height, neighbour(width, at, d)) ==> {
            &&& 0 <= slide_target(width, at, d) < width * height
            &&& slide_target(width, at, d) != at
            &&& slide_target(width, at, d) == (match d {
                Direction::UP => at - width,
                Direction::DOWN => at + width,
                Direction::LEFT => at - 1,
                Direction::RIGHT => at + 1,
            })
        },
{
    lemma_row_col(width, height, at);
    let w = width as int;
    let h = height as int;
    let r = at / w;
    let c = at % w;
    match d {
        Direction::UP => {
            assert((r - 1) * w + c == at - w) by (nonlinear_arith)
                requires
                    at == r * w + c,
            ;
            assert(r >= 1 <==> at >= w) by (nonlinear_arith)
                requires
                    at == r * w + c,
                    0 <= c < w,
                    0 <= r,
            ;
        },
        Direction::DOWN => {
            assert((r + 1) * w + c == at + w) by (nonlinear_arith)
                requires
                    at == r * w + c,
            ;
            assert(r + 1 < h <==> at + w < w * h) by (nonlinear_arith)
                requires
                    at == r * w + c,
                    0 <= c < w,
                    0 <= r < h,
            ;
        },
        Direction::LEFT => {},
        Direction::RIGHT => {
            if c + 1 < w {
                lemma_fundamental_div_mod_converse(at + 1, w, r, c + 1);
            } else {
                assert(at + 1 == (r + 1) * w + 0) by (nonlinear_arith)
                    requires
                        at == r * w + c,
                        c + 1 == w,
                ;
                lemma_fundamental_div_mod_converse(at + 1, w, r + 1, 0);
            }
        },
    }
    if in_grid(width, height, neighbour(width, at, d)) {
        let cell = neighbour(width, at, d);
        lemma_cell_index(width, height, cell.0, cell.1);
    }
}

/// The legal directions are exactly those that neither leave the grid nor
/// lead onto a wall, and each is listed once.
pub proof fn lemma_legal_directions(v: PuzzleView, at: int, d: Direction)
    ensures
        legal_directions(v, at).contains(d) <==> can_slide(v, at, d),
        legal_directions(v, at).len() <= 4,
        forall|i: int, j: int|
            0 <= i < j < legal_directions(v, at).len() ==> legal_directions(v, at)[i]
                != legal_directions(v, at)[j],
{
    let up = legal_if(v, at, Direction::UP);
    let down = legal_if(v, at, Direction::DOWN);
    let left = legal_if(v, at, Direction::LEFT);
    let right = legal_if(v, at, Direction::RIGHT);
    let all = legal_directions(v, at);
    assert(all.len() == up.len() + down.len() + left.len() + right.len());
    if can_slide(v, at, d) {
        match d {
            Direction::UP => {
                assert(all[0] == d);
            },
            Direction::DOWN => {
                assert(all[up.len() as int] == d);
            },
            Direction::LEFT => {
                assert(all[(up.len() + down.len()) as int] == d);
            },
            Direction::RIGHT => {
                assert(all[(up.len() + down.len() + left.len()) as int] == d);
            },
        }
    }
    if all.contains(d) {
        let k = choose|k: int| 0 <= k < all.len() && all[k] == d;
        if k < up.len() {
            assert(all[k] == up[k]);
        } else if k < up.len() + down.len() {
            assert(all[k] == down[k - up.len()]);
        } else if k < up.len() + down.len() + left.len() {
            assert(all[k] == left[k - up.len() - down.len()]);
        } else {
            assert(all[k] == right[k - up.len() - down.len() - left.len()]);
        }
    }
    assert forall|i: int, j: int| 0 <= i < j < all.len() implies all[i] != all[j] by {
        let first = up.len() as int;
        let second = first + down.len();
        let third = second + left.len();
        assert(i < first ==> all[i] == Direction::UP);
        assert(first <= i < second ==> all[i] == Direction::DOWN);
        assert(second <= i < third ==> all[i] == Direction::LEFT);
        assert(third <= i ==> all[i] == Direction::RIGHT);
        assert(j < first ==> all[j] == Direction::UP);
        assert(first <= j < second ==> all[j] == Direction::DOWN);
        assert(second <= j < third ==> all[j] == Direction::LEFT);
        assert(third <= j ==> all[j] == Direction::RIGHT);
    }
}

/// A legal move keeps the board's shape, and on a board with one blank it
/// puts the blank on the neighbouring cell.
pub proof fn lemma_slide_moves_blank(v: PuzzleView, d: Direction)
    requires
        well_shaped(v),
        single_blank(v.cells),
        can_slide(v, blank_index(v.cells), d),
    ensures
        well_shaped(slide(v, d)),
        single_blank(slide(v, d).cells),
        blank_index(slide(v, d).cells) == slide_target(v.width, blank_index(v.cells), d),
{
    let at = blank_index(v.cells);
    crate::seqs::lemma_first_occurrence_exists(v.cells, '0');
    lemma_slide_by_index(v.width, v.height, at, d);
    let to = slide_target(v.width, at, d);
    let after = slide(v, d).cells;
    assert(after[to] == '0');
    assert(forall|j: int| 0 <= j < after.len() && j != to ==> after[j] != '0') by {
        assert forall|j: int| 0 <= j < after.len() && j != to implies after[j] != '0' by {
            if j == at {
                assert(after[j] == v.cells[to]);
                if v.cells[to] == '0' {
                    assert(to == at);
                }
            } else {
                assert(after[j] == v.cells[j]);
            }
        }
    }
    assert(is_first_occurrence(after, '0', to));
    lemma_first_occurrence_unique(after, '0', to);
}

/// On a board with one blank, the inverse of a legal move is legal right
/// after it, and making it restores the cells and with them the content
/// hash.
pub proof fn lemma_slide_then_inverse(v: PuzzleView, d: Direction)
    requires
        well_shaped(v),
        single_blank(v.cells),
        can_slide(v, blank_index(v.cells), d),
    ensures
        can_slide(slide(v, d), blank_index(slide(v, d).cells), opposite(d)),
        slide(slide(v, d), opposite(d)).cells == v.cells,
        board_hash(slide(slide(v, d), opposite(d)).cells) == board_hash(v.cells),
{
    let at = blank_index(v.cells);
    crate::seqs::lemma_first_occurrence_exists(v.cells, '0');
    lemma_slide_by_index(v.width, v.height, at, d);
    lemma_slide_moves_blank(v, d);
    let to = slide_target(v.width, at, d);
    let mid = slide(v, d);
    lemma_row_col(v.width, v.height, at);
    let cell = neighbour(v.width, at, d);
    lemma_cell_index(v.width, v.height, cell.0, cell.1);
    let back = neighbour(v.width, to, opposite(d));
    assert(back == (row_of(v.width, at), col_of(v.width, at)));
    assert(cell_index(v.width, back) == at);
    assert(mid.cells[at] == v.cells[to]);
    assert(slide(mid, opposite(d)).cells =~= v.cells);
}

} // verus!
