//! The solved layout of a board.
//!
//! The movable symbols are put in ascending rank order, the blank follows
//! them, and a wall is then inserted at every index at which the board has
//! one, in increasing index order. Each insertion uses the wall's index in
//! the board as it is. On a board with one blank this leaves every wall
//! where the board has it (`lemma_canonical_layout`).

use crate::grid::single_blank;
use crate::hashing::hash_tiles;
use crate::puzzle::{tiles_of, Puzzle, PuzzleView};
use crate::tile::{rank_of, raw_symbols, tile_of, Tile};
use vstd::prelude::*;

verus! {

/// Whether a symbol is neither the blank nor a wall.
pub open spec fn is_movable(c: char) -> bool {
    c != '0' && c != '='
}

/// The movable symbols of a board, in board order.
pub open spec fn keep_movable(cells: Seq<char>) -> Seq<char>
    decreases cells.len(),
{
    if cells.len() == 0 {
        Seq::empty()
    } else {
        let before = keep_movable(cells.drop_last());
        if is_movable(cells.last()) {
            before.push(cells.last())
        } else {
            before
        }
    }
}

/// `sorted` with `c` put behind every symbol whose rank is not above its
/// own.
pub open spec fn insert_by_rank(sorted: Seq<char>, c: char) -> Seq<char>
    decreases sorted.len(),
{
    if sorted.len() == 0 {
        seq![c]
    } else if rank_of(sorted.last()) <= rank_of(c) {
        sorted.push(c)
    } else {
        insert_by_rank(sorted.drop_last(), c).push(sorted.last())
    }
}

/// The symbols in ascending rank order; symbols of equal rank keep their
/// order.
pub open spec fn sort_by_rank(cells: Seq<char>) -> Seq<char>
    decreases cells.len(),
{
    if cells.len() == 0 {
        Seq::empty()
    } else {
        insert_by_rank(sort_by_rank(cells.drop_last()), cells.last())
    }
}

/// `layout` after a wall was inserted at index `i`, in increasing order, for
/// every `i` below `upto` at which `board` has a wall.
pub open spec fn with_walls(board: Seq<char>, layout: Seq<char>, upto: int) -> Seq<char>
    decreases upto,
{
    if upto <= 0 {
        layout
    } else {
        let before = with_walls(board, layout, upto - 1);
        if board[upto - 1] == '=' {
            before.insert(upto - 1, '=')
        } else {
            before
        }
    }
}

/// The cells of the solved layout of a board.
pub open spec fn canonical_cells(cells: Seq<char>) -> Seq<char> {
    with_walls(cells, sort_by_rank(keep_movable(cells)).push('0'), cells.len() as int)
}

/// The solved layout of a board: same dimensions, canonical cells, no
/// recorded moves and path cost zero.
pub open spec fn target_of(v: PuzzleView) -> PuzzleView {
    PuzzleView {
        width: v.width,
        height: v.height,
        cells: canonical_cells(v.cells),
        moves: Seq::empty(),
        g: 0,
    }
}

/// How often `c` occurs among the cells.
pub open spec fn count_of(cells: Seq<char>, c: char) -> nat
    decreases cells.len(),
{
    if cells.len() == 0 {
        0
    } else {
        count_of(cells.drop_last(), c) + if cells.last() == c {
            1nat
        } else {
            0nat
        }
    }
}

/// Whether the symbols are in ascending rank order.
pub open spec fn ranks_ascend(cells: Seq<char>) -> bool {
    forall|i: int, j: int| 0 <= i < j < cells.len() ==> rank_of(cells[i]) <= rank_of(cells[j])
}

/// Every cell is movable, blank or wall.
pub proof fn lemma_cells_partition(cells: Seq<char>)
    ensures
        keep_movable(cells).len() + count_of(cells, '0') + count_of(cells, '=') == cells.len(),
    decreases cells.len(),
{
    if cells.len() > 0 {
        lemma_cells_partition(cells.drop_last());
    }
}

/// A prefix holds no more of anything than the whole.
pub proof fn lemma_prefix_counts(cells: Seq<char>, n: int, c: char)
    requires
        0 <= n <= cells.len(),
    ensures
        count_of(cells.take(n), c) <= count_of(cells, c),
        keep_movable(cells.take(n)).len() <= keep_movable(cells).len(),
    decreases cells.len() - n,
{
    if n < cells.len() {
        lemma_prefix_counts(cells, n + 1, c);
        assert(cells.take(n + 1).drop_last() =~= cells.take(n));
    } else {
        assert(cells.take(n) =~= cells);
    }
}

/// A symbol that does not occur is counted zero times, and one that occurs
/// at a single position is counted once.
pub proof fn lemma_count_single(cells: Seq<char>, c: char)
    ensures
        !cells.contains(c) ==> count_of(cells, c) == 0,
        cells.contains(c) ==> count_of(cells, c) >= 1,
        (cells.contains(c) && forall|i: int, j: int|
            0 <= i < cells.len() && 0 <= j < cells.len() && cells[i] == c && cells[j] == c ==> i
                == j) ==> count_of(cells, c) == 1,
    decreases cells.len(),
{
    if cells.len() > 0 {
        let front = cells.drop_last();
        lemma_count_single(front, c);
        if cells.contains(c) && cells.last() != c {
            let k = choose|k: int| 0 <= k < cells.len() && cells[k] == c;
            assert(front[k] == c);
        }
        if !cells.contains(c) {
            if front.contains(c) {
                let k = choose|k: int| 0 <= k < front.len() && front[k] == c;
                assert(cells[k] == c);
            }
        }
        if cells.contains(c) && forall|i: int, j: int|
            0 <= i < cells.len() && 0 <= j < cells.len() && cells[i] == c && cells[j] == c ==> i
                == j {
            let k = choose|k: int| 0 <= k < cells.len() && cells[k] == c;
            if cells.last() == c {
                if front.contains(c) {
                    let m = choose|m: int| 0 <= m < front.len() && front[m] == c;
                    assert(cells[m] == c);
                    assert(m == cells.len() - 1);
                }
            } else {
                assert(k < front.len());
                assert(front[k] == c);
                assert forall|i: int, j: int|
                    0 <= i < front.len() && 0 <= j < front.len() && front[i] == c && front[j]
                        == c implies i == j by {
                    assert(cells[i] == c && cells[j] == c);
                }
            }
        }
    }
}

/// Inserting by rank adds one symbol and keeps the others.
pub proof fn lemma_insert_by_rank(sorted: Seq<char>, c: char)
    ensures
        insert_by_rank(sorted, c).len() == sorted.len() + 1,
        forall|x: char| #[trigger]
            insert_by_rank(sorted, c).contains(x) <==> (x == c || sorted.contains(x)),
        ranks_ascend(sorted) ==> ranks_ascend(insert_by_rank(sorted, c)),
    decreases sorted.len(),
{
    let out = insert_by_rank(sorted, c);
    if sorted.len() == 0 {
        assert(out[0] == c);
        assert forall|x: char| #[trigger] out.contains(x) <==> (x == c || sorted.contains(x)) by {
            if out.contains(x) {
                let k = choose|k: int| 0 <= k < out.len() && out[k] == x;
            }
        }
    } else if rank_of(sorted.last()) <= rank_of(c) {
        assert forall|x: char| #[trigger] out.contains(x) <==> (x == c || sorted.contains(x)) by {
            if out.contains(x) {
                let k = choose|k: int| 0 <= k < out.len() && out[k] == x;
                if k < sorted.len() {
                    assert(sorted[k] == x);
                }
            }
            if x == c {
                assert(out[sorted.len() as int] == c);
            }
            if sorted.contains(x) {
                let k = choose|k: int| 0 <= k < sorted.len() && sorted[k] == x;
                assert(out[k] == x);
            }
        }
    } else {
        let front = sorted.drop_last();
        let inner = insert_by_rank(front, c);
        lemma_insert_by_rank(front, c);
        assert forall|x: char| #[trigger] out.contains(x) <==> (x == c || sorted.contains(x)) by {
            if out.contains(x) {
                let k = choose|k: int| 0 <= k < out.len() && out[k] == x;
                if k < inner.len() {
                    assert(inner.contains(x));
                    if front.contains(x) {
                        let m = choose|m: int| 0 <= m < front.len() && front[m] == x;
                        assert(sorted[m] == x);
                    }
                } else {
                    assert(sorted[sorted.len() - 1] == x);
                }
            }
            if x == c {
                assert(inner.contains(c));
                let m = choose|m: int| 0 <= m < inner.len() && inner[m] == c;
                assert(out[m] == c);
            }
            if sorted.contains(x) {
                let k = choose|k: int| 0 <= k < sorted.len() && sorted[k] == x;
                if k < front.len() {
                    assert(front[k] == x);
                    assert(front.contains(x));
                    assert(inner.contains(x));
                    let m = choose|m: int| 0 <= m < inner.len() && inner[m] == x;
                    assert(out[m] == x);
                } else {
                    assert(out[inner.len() as int] == x);
                }
            }
        }
        if ranks_ascend(sorted) {
            assert(ranks_ascend(front)) by {
                assert forall|i: int, j: int| 0 <= i < j < front.len() implies rank_of(front[i])
                    <= rank_of(front[j]) by {
                    assert(front[i] == sorted[i] && front[j] == sorted[j]);
                }
            }
            assert forall|i: int, j: int| 0 <= i < j < out.len() implies rank_of(out[i])
                <= rank_of(out[j]) by {
                if j < inner.len() {
                    assert(out[i] == inner[i] && out[j] == inner[j]);
                } else {
                    assert(out[j] == sorted.last());
                    assert(out[i] == inner[i]);
                    assert(inner.contains(inner[i]));
                    if inner[i] != c {
                        assert(front.contains(inner[i]));
                        let m = choose|m: int| 0 <= m < front.len() && front[m] == inner[i];
                        assert(sorted[m] == inner[i]);
                        assert(rank_of(sorted[m]) <= rank_of(sorted[sorted.len() - 1]));
                    }
                }
            }
        }
    }
}

/// Sorting by rank keeps the symbols and puts their ranks in ascending
/// order.
pub proof fn lemma_sort_by_rank(cells: Seq<char>)
    ensures
        sort_by_rank(cells).len() == cells.len(),
        forall|x: char| #[trigger] sort_by_rank(cells).contains(x) <==> cells.contains(x),
        ranks_ascend(sort_by_rank(cells)),
    decreases cells.len(),
{
    if cells.len() > 0 {
        let front = cells.drop_last();
        lemma_sort_by_rank(front);
        lemma_insert_by_rank(sort_by_rank(front), cells.last());
        assert forall|x: char| #[trigger]
            sort_by_rank(cells).contains(x) <==> cells.contains(x) by {
            if cells.contains(x) {
                let k = choose|k: int| 0 <= k < cells.len() && cells[k] == x;
                if k < front.len() {
                    assert(front[k] == x);
                }
            }
            if front.contains(x) {
                let k = choose|k: int| 0 <= k < front.len() && front[k] == x;
                assert(cells[k] == x);
            }
            if x == cells.last() {
                assert(cells[cells.len() - 1] == x);
            }
        }
    } else {
        assert forall|x: char| #[trigger]
            sort_by_rank(cells).contains(x) <==> cells.contains(x) by {}
    }
}

/// The movable symbols of a board are exactly its symbols that are movable.
pub proof fn lemma_keep_movable(cells: Seq<char>)
    ensures
        forall|x: char| #[trigger]
            keep_movable(cells).contains(x) <==> (cells.contains(x) && is_movable(x)),
    decreases cells.len(),
{
    if cells.len() > 0 {
        let front = cells.drop_last();
        let kept = keep_movable(cells);
        let inner = keep_movable(front);
        lemma_keep_movable(front);
        assert forall|x: char| #[trigger]
            kept.contains(x) <==> (cells.contains(x) && is_movable(x)) by {
            if kept.contains(x) {
                let k = choose|k: int| 0 <= k < kept.len() && kept[k] == x;
                if k < inner.len() {
                    assert(inner[k] == x);
                    assert(inner.contains(x));
                    let m = choose|m: int| 0 <= m < front.len() && front[m] == x;
                    assert(cells[m] == x);
                } else {
                    assert(cells[cells.len() - 1] == x);
                }
            }
            if cells.contains(x) && is_movable(x) {
                let k = choose|k: int| 0 <= k < cells.len() && cells[k] == x;
                if k < front.len() {
                    assert(front[k] == x);
                    assert(front.contains(x));
                    assert(inner.contains(x));
                    let m = choose|m: int| 0 <= m < inner.len() && inner[m] == x;
                    assert(kept[m] == x);
                } else {
                    assert(kept[kept.len() - 1] == x);
                }
            }
        }
    } else {
        assert forall|x: char| #[trigger]
            keep_movable(cells).contains(x) <==> (cells.contains(x) && is_movable(x)) by {}
    }
}

/// Reinserting the walls of a board with at most one blank never reaches
/// past the end of the layout, adds one cell per wall and keeps every
/// symbol that was there.
pub proof fn lemma_with_walls(board: Seq<char>, layout: Seq<char>, upto: int)
    requires
        0 <= upto <= board.len(),
        layout.len() == keep_movable(board).len() + 1,
        count_of(board, '0') <= 1,
    ensures
        with_walls(board, layout, upto).len() == layout.len() + count_of(
            board.take(upto),
            '=',
        ),
        upto <= with_walls(board, layout, upto).len(),
        forall|x: char| layout.contains(x) ==> #[trigger] with_walls(
            board,
            layout,
            upto,
        ).contains(x),
        forall|x: char| #[trigger]
            with_walls(board, layout, upto).contains(x) ==> (layout.contains(x) || x == '='),
    decreases upto,
{
    let out = with_walls(board, layout, upto);
    if upto > 0 {
        let before = with_walls(board, layout, upto - 1);
        lemma_with_walls(board, layout, upto - 1);
        assert(board.take(upto).drop_last() =~= board.take(upto - 1));
        lemma_cells_partition(board.take(upto - 1));
        lemma_prefix_counts(board, upto - 1, '0');
        lemma_prefix_counts(board, upto - 1, '=');
        assert(upto - 1 <= before.len());
        lemma_cells_partition(board.take(upto));
        lemma_prefix_counts(board, upto, '0');
        if board[upto - 1] == '=' {
            assert forall|x: char| layout.contains(x) implies #[trigger] out.contains(x) by {
                assert(before.contains(x));
                let k = choose|k: int| 0 <= k < before.len() && before[k] == x;
                if k < upto - 1 {
                    assert(out[k] == x);
                } else {
                    assert(out[k + 1] == x);
                }
            }
            assert forall|x: char| #[trigger] out.contains(x) implies (layout.contains(x) || x
                == '=') by {
                let k = choose|k: int| 0 <= k < out.len() && out[k] == x;
                if k < upto - 1 {
                    assert(before[k] == x);
                    assert(before.contains(x));
                } else if k > upto - 1 {
                    assert(before[k - 1] == x);
                    assert(before.contains(x));
                }
            }
        }
    } else {
        assert(board.take(upto) =~= Seq::<char>::empty());
    }
}

/// The solved layout of a board with one blank has as many cells as the
/// board, and holds every symbol of the board.
pub proof fn lemma_canonical_cells(cells: Seq<char>)
    requires
        single_blank(cells),
    ensures
        canonical_cells(cells).len() == cells.len(),
        forall|x: char| cells.contains(x) ==> #[trigger] canonical_cells(cells).contains(x),
        forall|x: char| #[trigger] canonical_cells(cells).contains(x) ==> cells.contains(x),
{
    let kept = keep_movable(cells);
    let sorted = sort_by_rank(kept);
    let layout = sorted.push('0');
    lemma_count_single(cells, '0');
    lemma_cells_partition(cells);
    lemma_sort_by_rank(kept);
    lemma_keep_movable(cells);
    lemma_with_walls(cells, layout, cells.len() as int);
    assert(cells.take(cells.len() as int) =~= cells);
    let out = canonical_cells(cells);
    assert forall|x: char| cells.contains(x) implies #[trigger] out.contains(x) by {
        if x == '=' {
            lemma_count_single(cells, '=');
            assert(count_of(cells, '=') > 0);
            lemma_walls_present(cells, layout, cells.len() as int);
        } else if x == '0' {
            assert(layout[sorted.len() as int] == '0');
            assert(layout.contains(x));
        } else {
            assert(kept.contains(x));
            assert(sorted.contains(x));
            let k = choose|k: int| 0 <= k < sorted.len() && sorted[k] == x;
            assert(layout[k] == x);
            assert(layout.contains(x));
        }
    }
    assert forall|x: char| #[trigger] out.contains(x) implies cells.contains(x) by {
        if x == '=' {
            if !cells.contains('=') {
                lemma_count_single(cells, '=');
                lemma_no_walls(cells, layout, cells.len() as int);
                assert(out == layout);
            }
        }
        if layout.contains(x) {
            let k = choose|k: int| 0 <= k < layout.len() && layout[k] == x;
            if k < sorted.len() {
                assert(sorted[k] == x);
                assert(sorted.contains(x));
                assert(kept.contains(x));
            }
        }
    }
}

/// Where the board has a wall, the layout with walls has one too.
proof fn lemma_walls_present(board: Seq<char>, layout: Seq<char>, upto: int)
    requires
        0 <= upto <= board.len(),
        layout.len() == keep_movable(board).len() + 1,
        count_of(board, '0') <= 1,
        count_of(board.take(upto), '=') > 0,
    ensures
        with_walls(board, layout, upto).contains('='),
    decreases upto,
{
    if upto > 0 {
        let before = with_walls(board, layout, upto - 1);
        assert(board.take(upto).drop_last() =~= board.take(upto - 1));
        lemma_with_walls(board, layout, upto - 1);
        if board[upto - 1] == '=' {
            assert(before.insert(upto - 1, '=')[upto - 1] == '=');
        } else {
            lemma_walls_present(board, layout, upto - 1);
        }
    }
}

/// Where the board has no wall, nothing is inserted.
proof fn lemma_no_walls(board: Seq<char>, layout: Seq<char>, upto: int)
    requires
        0 <= upto <= board.len(),
        !board.contains('='),
    ensures
        with_walls(board, layout, upto) == layout,
    decreases upto,
{
    if upto > 0 {
        lemma_no_walls(board, layout, upto - 1);
        assert(board[upto - 1] != '=');
    }
}

/// The symbols that are no walls, in order.
pub open spec fn without_walls(cells: Seq<char>) -> Seq<char>
    decreases cells.len(),
{
    if cells.len() == 0 {
        Seq::empty()
    } else {
        let before = without_walls(cells.drop_last());
        if cells.last() != '=' {
            before.push(cells.last())
        } else {
            before
        }
    }
}

/// Inserting a wall changes nothing about the other symbols.
proof fn lemma_without_walls_insert(cells: Seq<char>, i: int)
    requires
        0 <= i <= cells.len(),
    ensures
        without_walls(cells.insert(i, '=')) == without_walls(cells),
    decreases cells.len() - i,
{
    let longer = cells.insert(i, '=');
    if i == cells.len() {
        assert(longer.drop_last() =~= cells);
    } else {
        assert(longer.drop_last() =~= cells.drop_last().insert(i, '='));
        assert(longer.last() == cells.last());
        lemma_without_walls_insert(cells.drop_last(), i);
    }
}

/// Where there are no walls, nothing is left out.
proof fn lemma_without_walls_none(cells: Seq<char>)
    requires
        forall|i: int| 0 <= i < cells.len() ==> cells[i] != '=',
    ensures
        without_walls(cells) == cells,
    decreases cells.len(),
{
    if cells.len() > 0 {
        lemma_without_walls_none(cells.drop_last());
        assert(cells.drop_last().push(cells.last()) =~= cells);
    }
}

/// After the walls at indices below `upto` were inserted, the layout has
/// a wall at such an index exactly where the board has one, no wall from
/// `upto` on, and its other symbols are as before.
proof fn lemma_walls_in_place(board: Seq<char>, layout: Seq<char>, upto: int)
    requires
        0 <= upto <= board.len(),
        layout.len() == keep_movable(board).len() + 1,
        count_of(board, '0') <= 1,
        forall|i: int| 0 <= i < layout.len() ==> layout[i] != '=',
    ensures
        forall|i: int|
            0 <= i < upto ==> (with_walls(board, layout, upto)[i] == '=' <==> board[i]
                == '='),
        forall|j: int|
            upto <= j < with_walls(board, layout, upto).len() ==> with_walls(
                board,
                layout,
                upto,
            )[j] != '=',
        without_walls(with_walls(board, layout, upto)) == layout,
    decreases upto,
{
    if upto > 0 {
        let before = with_walls(board, layout, upto - 1);
        lemma_walls_in_place(board, layout, upto - 1);
        lemma_with_walls(board, layout, upto - 1);
        lemma_with_walls(board, layout, upto);
        if board[upto - 1] == '=' {
            lemma_without_walls_insert(before, upto - 1);
            let after = before.insert(upto - 1, '=');
            assert forall|j: int| upto <= j < after.len() implies after[j] != '=' by {
                assert(after[j] == before[j - 1]);
            }
        }
    } else {
        lemma_without_walls_none(layout);
    }
}

/// The solved layout of a board with one blank has its walls where the
/// board has them, and its other cells hold the movable symbols in
/// ascending rank order, followed by the blank.
pub proof fn lemma_canonical_layout(cells: Seq<char>)
    requires
        single_blank(cells),
    ensures
        canonical_cells(cells).len() == cells.len(),
        forall|i: int|
            0 <= i < cells.len() ==> (canonical_cells(cells)[i] == '=' <==> cells[i] == '='),
        without_walls(canonical_cells(cells)) == sort_by_rank(keep_movable(cells)).push('0'),
        ranks_ascend(sort_by_rank(keep_movable(cells))),
{
    let kept = keep_movable(cells);
    let sorted = sort_by_rank(kept);
    let layout = sorted.push('0');
    lemma_count_single(cells, '0');
    lemma_sort_by_rank(kept);
    lemma_keep_movable(cells);
    lemma_canonical_cells(cells);
    assert forall|i: int| 0 <= i < layout.len() implies layout[i] != '=' by {
        if i < sorted.len() {
            assert(sorted.contains(sorted[i]));
            assert(kept.contains(sorted[i]));
        }
    }
    lemma_walls_in_place(cells, layout, cells.len() as int);
}

/// Inserting by rank is an insertion at the position behind which every
/// rank is above the new one and before which the nearest is not.
proof fn lemma_insert_position(sorted: Seq<char>, c: char, p: int)
    requires
        0 <= p <= sorted.len(),
        forall|k: int| p <= k < sorted.len() ==> rank_of(sorted[k]) > rank_of(c),
        p > 0 ==> rank_of(sorted[p - 1]) <= rank_of(c),
    ensures
        insert_by_rank(sorted, c) == sorted.insert(p, c),
    decreases sorted.len(),
{
    if sorted.len() == 0 {
        assert(seq![c] =~= sorted.insert(p, c));
    } else if p == sorted.len() {
        assert(sorted.push(c) =~= sorted.insert(p, c));
    } else {
        let front = sorted.drop_last();
        assert(rank_of(sorted[sorted.len() - 1]) > rank_of(c));
        lemma_insert_position(front, c, p);
        assert(front.insert(p, c).push(sorted.last()) =~= sorted.insert(p, c));
    }
}

/// The movable tiles of a run, in order.
fn movable_tiles(tiles: &Vec<Tile>) -> (kept: Vec<Tile>)
    requires
        tiles@ == tiles_of(raw_symbols(tiles@)),
    ensures
        kept@ == tiles_of(keep_movable(raw_symbols(tiles@))),
{
    let ghost cells = raw_symbols(tiles@);
    let mut kept: Vec<Tile> = Vec::new();
    let mut i: usize = 0;
    while i < tiles.len()
        invariant
            i <= tiles.len(),
            cells == raw_symbols(tiles@),
            tiles@ == tiles_of(cells),
            kept@ == tiles_of(keep_movable(cells.take(i as int))),
        decreases tiles.len() - i,
    {
        let tile = tiles[i];
        proof {
            assert(cells.take(i + 1).drop_last() =~= cells.take(i as int));
            assert(tile == tile_of(cells[i as int]));
        }
        if tile.raw != '0' && tile.raw != '=' {
            kept.push(tile);
            assert(kept@ =~= tiles_of(keep_movable(cells.take(i + 1))));
        }
        i += 1;
    }
    assert(cells.take(i as int) =~= cells);
    kept
}

/// Puts `tile` into a run behind every tile whose rank is not above its
/// own.
fn insert_tile_by_rank(sorted: &mut Vec<Tile>, tile: Tile)
    requires
        old(sorted)@ == tiles_of(raw_symbols(old(sorted)@)),
        tile == tile_of(tile.raw),
    ensures
        final(sorted)@ == tiles_of(insert_by_rank(raw_symbols(old(sorted)@), tile.raw)),
{
    let ghost cells = raw_symbols(sorted@);
    let rank = tile.rank();
    let mut p: usize = sorted.len();
    loop
        invariant_except_break
            p <= sorted.len(),
            forall|k: int| p <= k < sorted.len() ==> rank_of(cells[k]) > rank,
        invariant
            sorted@ == old(sorted)@,
            cells == raw_symbols(sorted@),
            rank == rank_of(tile.raw),
        ensures
            p <= sorted.len(),
            forall|k: int| p <= k < sorted.len() ==> rank_of(cells[k]) > rank,
            p > 0 ==> rank_of(cells[p - 1]) <= rank,
        decreases p,
    {
        if p == 0 {
            break ;
        }
        if sorted[p - 1].rank() <= rank {
            break ;
        }
        p -= 1;
    }
    proof {
        lemma_insert_position(cells, tile.raw, p as int);
    }
    sorted.insert(p, tile);
    assert(sorted@ =~= tiles_of(cells.insert(p as int, tile.raw)));
}

/// The tiles in ascending rank order; tiles of equal rank keep their
/// order.
fn sorted_by_rank(tiles: &Vec<Tile>) -> (sorted: Vec<Tile>)
    requires
        tiles@ == tiles_of(raw_symbols(tiles@)),
    ensures
        sorted@ == tiles_of(sort_by_rank(raw_symbols(tiles@))),
{
    let ghost cells = raw_symbols(tiles@);
    let mut sorted: Vec<Tile> = Vec::new();
    let mut i: usize = 0;
    while i < tiles.len()
        invariant
            i <= tiles.len(),
            cells == raw_symbols(tiles@),
            tiles@ == tiles_of(cells),
            sorted@ == tiles_of(sort_by_rank(cells.take(i as int))),
        decreases tiles.len() - i,
    {
        proof {
            assert(cells.take(i + 1).drop_last() =~= cells.take(i as int));
            assert(raw_symbols(sorted@) =~= sort_by_rank(cells.take(i as int)));
        }
        insert_tile_by_rank(&mut sorted, tiles[i]);
        i += 1;
    }
    assert(cells.take(i as int) =~= cells);
    sorted
}

impl Puzzle {
    /// The solved layout of this board: the movable tiles in ascending
    /// rank order, then the blank, with a wall inserted at each index at
    /// which this board has one.
    pub fn solved(&self) -> (target: Puzzle)
        requires
            single_blank(self@.cells),
        ensures
            target@ == target_of(self@),
    {
        proof {
            use_type_invariant(self);
        }
        let ghost cells = self@.cells;
        let kept = movable_tiles(&self.tiles);
        proof {
            assert(raw_symbols(kept@) =~= keep_movable(cells));
        }
        let mut solved_tiles = sorted_by_rank(&kept);
        solved_tiles.push(Tile::new('0'));
        let ghost layout = sort_by_rank(keep_movable(cells)).push('0');
        proof {
            assert(solved_tiles@ =~= tiles_of(layout));
            lemma_sort_by_rank(keep_movable(cells));
            lemma_count_single(cells, '0');
        }
        let mut idx: usize = 0;
        while idx < self.tiles.len()
            invariant
                idx <= self.tiles.len(),
                cells == raw_symbols(self.tiles@),
                self.tiles@ == tiles_of(cells),
                layout.len() == keep_movable(cells).len() + 1,
                count_of(cells, '0') <= 1,
                solved_tiles@ == tiles_of(with_walls(cells, layout, idx as int)),
            decreases self.tiles.len() - idx,
        {
            proof {
                lemma_with_walls(cells, layout, idx as int);
                assert(self.tiles@[idx as int] == tile_of(cells[idx as int]));
            }
            if self.tiles[idx].raw == '=' {
                solved_tiles.insert(idx, Tile::new('='));
                assert(solved_tiles@ =~= tiles_of(with_walls(cells, layout, idx + 1)));
            }
            idx += 1;
        }
        proof {
            lemma_canonical_cells(cells);
            assert(raw_symbols(solved_tiles@) =~= canonical_cells(cells));
        }
        let hash = hash_tiles(&solved_tiles);
        Puzzle {
            width: self.width,
            height: self.height,
            tiles: solved_tiles,
            moves: Vec::new(),
            hash,
            g: 0,
        }
    }
}

} // verus!
