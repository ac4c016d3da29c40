//! Moving the blank: legal directions, single moves and successor boards.

use crate::direction::{copy_moves, Direction};
use crate::error::PuzzleError;
use crate::grid::{
    blank_index,
    can_slide,
    child,
    has_blank,
    in_grid,
    legal_directions,
    legal_if,
    lemma_slide_by_index,
    neighbour,
    single_blank,
    slide,
    slide_target,
    swapped,
};
use crate::hashing::hash_tiles;
use crate::puzzle::{copy_tiles, tiles_of, Puzzle, PuzzleView};
use crate::seqs::{is_first_occurrence, lemma_first_occurrence_unique};
use crate::tile::{raw_symbols, Rune};
use vstd::prelude::*;
use vstd::string::StringExecFns;

verus! {

/// Why a move of the blank is refused: the edge it would cross, or else
/// the wall in its way.
pub open spec fn illegal_move_reason(v: PuzzleView, d: Direction) -> Seq<char> {
    if !in_grid(v.width, v.height, neighbour(v.width, blank_index(v.cells), d)) {
        match d {
            Direction::UP => "Cannot move up from top edge"@,
            Direction::DOWN => "Cannot move down from bottom edge"@,
            Direction::LEFT => "Cannot move left from left edge"@,
            Direction::RIGHT => "Cannot move right from right edge"@,
        }
    } else {
        match d {
            Direction::UP => "Cannot move space up"@,
            Direction::DOWN => "Cannot move space down"@,
            Direction::LEFT => "Cannot move space left"@,
            Direction::RIGHT => "Cannot move space right"@,
        }
    }
}

/// The boards that the moves `dirs` lead to, in order, leaving out the
/// moves that the board's blank cannot make. Each costs `step`.
pub open spec fn children(v: PuzzleView, dirs: Seq<Direction>, step: nat) -> Seq<PuzzleView>
    decreases dirs.len(),
{
    if dirs.len() == 0 {
        Seq::empty()
    } else {
        let before = children(v, dirs.drop_last(), step);
        if can_slide(v, blank_index(v.cells), dirs.last()) {
            before.push(child(v, dirs.last(), step))
        } else {
            before
        }
    }
}

/// The successors of a board: one for each direction that is legal for a
/// blank at `at` and that the board's blank can take, in the order up,
/// down, left, right.
pub open spec fn successors_of(v: PuzzleView, at: int, step: nat) -> Seq<PuzzleView> {
    children(v, legal_directions(v, at), step)
}

/// Where the blank can make every one of the moves `dirs`, each leads to a
/// board, in order.
proof fn lemma_children_of_legal(v: PuzzleView, dirs: Seq<Direction>, step: nat)
    requires
        forall|i: int| 0 <= i < dirs.len() ==> can_slide(v, blank_index(v.cells), #[trigger] dirs[i]),
    ensures
        children(v, dirs, step).len() == dirs.len(),
        forall|i: int|
            0 <= i < dirs.len() ==> #[trigger] children(v, dirs, step)[i] == child(
                v,
                dirs[i],
                step,
            ),
    decreases dirs.len(),
{
    if dirs.len() > 0 {
        let front = dirs.drop_last();
        assert forall|i: int| 0 <= i < front.len() implies can_slide(
            v,
            blank_index(v.cells),
            #[trigger] front[i],
        ) by {
            assert(front[i] == dirs[i]);
        }
        lemma_children_of_legal(v, front, step);
        assert(can_slide(v, blank_index(v.cells), dirs[dirs.len() - 1]));
    }
}

/// The successors of a board, generated for the index of its blank, are
/// the boards that its legal moves lead to, one for each, in the order up,
/// down, left, right.
pub proof fn lemma_successors_at_blank(v: PuzzleView, step: nat)
    ensures
        successors_of(v, blank_index(v.cells), step).len() == legal_directions(
            v,
            blank_index(v.cells),
        ).len(),
        forall|i: int|
            0 <= i < legal_directions(v, blank_index(v.cells)).len() ==> #[trigger] successors_of(
                v,
                blank_index(v.cells),
                step,
            )[i] == child(v, legal_directions(v, blank_index(v.cells))[i], step),
{
    let at = blank_index(v.cells);
    let dirs = legal_directions(v, at);
    assert forall|i: int| 0 <= i < dirs.len() implies can_slide(v, at, #[trigger] dirs[i]) by {
        assert(dirs.contains(dirs[i]));
        crate::grid::lemma_legal_directions(v, at, dirs[i]);
    }
    lemma_children_of_legal(v, dirs, step);
}

/// Why a move over the edge in direction `dir` is refused.
fn edge_message(dir: Direction) -> (text: String)
    ensures
        text@ == (match dir {
            Direction::UP => "Cannot move up from top edge"@,
            Direction::DOWN => "Cannot move down from bottom edge"@,
            Direction::LEFT => "Cannot move left from left edge"@,
            Direction::RIGHT => "Cannot move right from right edge"@,
        }),
{
    match dir {
        Direction::UP => String::from_str("Cannot move up from top edge"),
        Direction::DOWN => String::from_str("Cannot move down from bottom edge"),
        Direction::LEFT => String::from_str("Cannot move left from left edge"),
        Direction::RIGHT => String::from_str("Cannot move right from right edge"),
    }
}

/// Why a move onto a wall in direction `dir` is refused.
fn wall_message(dir: Direction) -> (text: String)
    ensures
        text@ == (match dir {
            Direction::UP => "Cannot move space up"@,
            Direction::DOWN => "Cannot move space down"@,
            Direction::LEFT => "Cannot move space left"@,
            Direction::RIGHT => "Cannot move space right"@,
        }),
{
    match dir {
        Direction::UP => String::from_str("Cannot move space up"),
        Direction::DOWN => String::from_str("Cannot move space down"),
        Direction::LEFT => String::from_str("Cannot move space left"),
        Direction::RIGHT => String::from_str("Cannot move space right"),
    }
}

impl Puzzle {
    /// The index of the first blank cell, if there is one.
    pub fn blank_index(&self) -> (found: Option<usize>)
        ensures
            found is Some <==> has_blank(self@.cells),
            found matches Some(i) ==> i == blank_index(self@.cells) && is_first_occurrence(
                self@.cells,
                '0',
                i as int,
            ),
    {
        proof {
            use_type_invariant(self);
        }
        let mut i: usize = 0;
        while i < self.tiles.len()
            invariant
                i <= self.tiles.len(),
                self.tiles@ == tiles_of(self@.cells),
                forall|j: int| 0 <= j < i ==> self@.cells[j] != '0',
            decreases self.tiles.len() - i,
        {
            if self.tiles[i].rune == Rune::SPACE {
                proof {
                    assert(self.tiles@[i as int] == crate::tile::tile_of(self@.cells[i as int]));
                    lemma_first_occurrence_unique(self@.cells, '0', i as int);
                }
                return Some(i);
            }
            proof {
                assert(self.tiles@[i as int] == crate::tile::tile_of(self@.cells[i as int]));
            }
            i += 1;
        }
        None
    }

    /// The index of the blank cell.
    pub fn space_idx(&self) -> (idx: usize)
        requires
            has_blank(self@.cells),
        ensures
            idx == blank_index(self@.cells),
            is_first_occurrence(self@.cells, '0', idx as int),
    {
        match self.blank_index() {
            Some(i) => i,
            None => 0,
        }
    }

    /// Whether the board has exactly one blank cell.
    pub fn has_single_blank(&self) -> (single: bool)
        ensures
            single == single_blank(self@.cells),
    {
        proof {
            use_type_invariant(self);
        }
        let mut count: usize = 0;
        let mut i: usize = 0;
        let ghost mut seen: int = 0;
        while i < self.tiles.len()
            invariant
                i <= self.tiles.len(),
                count <= i,
                count <= 2,
                count == 0 ==> forall|j: int| 0 <= j < i ==> self@.cells[j] != '0',
                count == 1 ==> 0 <= seen < i && self@.cells[seen] == '0' && forall|j: int|
                    0 <= j < i && j != seen ==> self@.cells[j] != '0',
                count == 2 ==> !single_blank(self@.cells),
            decreases self.tiles.len() - i,
        {
            if self.tiles[i].raw == '0' {
                if count == 1 {
                    proof {
                        assert(self@.cells[seen] == '0' && self@.cells[i as int] == '0');
                    }
                    count = 2;
                } else if count == 0 {
                    proof {
                        seen = i as int;
                    }
                    count = 1;
                }
            }
            i += 1;
        }
        proof {
            if count == 1 {
                assert(self@.cells.contains('0'));
            }
        }
        count == 1
    }

    /// Where one step from `at` in direction `dir` leads, if it stays in
    /// the grid.
    fn step_target(&self, at: usize, dir: Direction) -> (target: Option<usize>)
        requires
            at < self@.cells.len(),
        ensures
            target is Some <==> in_grid(
                self@.width,
                self@.height,
                neighbour(self@.width, at as int, dir),
            ),
            target matches Some(t) ==> t == slide_target(self@.width, at as int, dir) && t
                < self@.cells.len() && t != at,
    {
        proof {
            use_type_invariant(self);
            lemma_slide_by_index(self@.width, self@.height, at as int, dir);
        }
        let w = self.width as usize;
        let n = self.tiles.len();
        assert(n <= 81) by (nonlinear_arith)
            requires
                n == self.width * self.height,
                self.width <= 9,
                self.height <= 9,
        ;
        match dir {
            Direction::UP => if at >= w {
                Some(at - w)
            } else {
                None
            },
            Direction::DOWN => if at + w < n {
                Some(at + w)
            } else {
                None
            },
            Direction::LEFT => if at % w != 0 {
                Some(at - 1)
            } else {
                None
            },
            Direction::RIGHT => if (at + 1) % w != 0 {
                Some(at + 1)
            } else {
                None
            },
        }
    }

    /// Whether a blank at `at` may move in direction `dir`.
    fn may_slide(&self, at: usize, dir: Direction) -> (ok: bool)
        requires
            at < self@.cells.len(),
        ensures
            ok == can_slide(self@, at as int, dir),
    {
        proof {
            use_type_invariant(self);
        }
        match self.step_target(at, dir) {
            Some(t) => {
                proof {
                    assert(self.tiles@[t as int] == crate::tile::tile_of(self@.cells[t as int]));
                }
                self.tiles[t].rune != Rune::WALL
            },
            None => false,
        }
    }

    /// The directions in which a blank at `space_idx` may move: those that
    /// neither leave the grid nor lead onto a wall, in the order up, down,
    /// left, right.
    pub fn legal_moves(&self, space_idx: usize) -> (legal_moves: Vec<Direction>)
        requires
            space_idx < self@.cells.len(),
        ensures
            legal_moves@ == legal_directions(self@, space_idx as int),
            forall|i: int|
                0 <= i < legal_moves@.len() ==> can_slide(
                    self@,
                    space_idx as int,
                    #[trigger] legal_moves@[i],
                ),
    {
        let mut legal_moves: Vec<Direction> = Vec::with_capacity(4);
        if self.may_slide(space_idx, Direction::UP) {
            legal_moves.push(Direction::UP);
        }
        assert(legal_moves@ =~= legal_if(self@, space_idx as int, Direction::UP));
        if self.may_slide(space_idx, Direction::DOWN) {
            legal_moves.push(Direction::DOWN);
        }
        assert(legal_moves@ =~= legal_if(self@, space_idx as int, Direction::UP) + legal_if(
            self@,
            space_idx as int,
            Direction::DOWN,
        ));
        if self.may_slide(space_idx, Direction::LEFT) {
            legal_moves.push(Direction::LEFT);
        }
        assert(legal_moves@ =~= legal_if(self@, space_idx as int, Direction::UP) + legal_if(
            self@,
            space_idx as int,
            Direction::DOWN,
        ) + legal_if(self@, space_idx as int, Direction::LEFT));
        if self.may_slide(space_idx, Direction::RIGHT) {
            legal_moves.push(Direction::RIGHT);
        }
        assert(legal_moves@ =~= legal_directions(self@, space_idx as int));
        legal_moves
    }

    /// The board after the blank moved in direction `dir` at cost `step`,
    /// or the reason why it cannot.
    pub fn slid(&self, dir: Direction, step: u32) -> (result: Result<Puzzle, PuzzleError>)
        requires
            has_blank(self@.cells),
            self@.g + step <= u32::MAX,
        ensures
            result is Ok <==> can_slide(self@, blank_index(self@.cells), dir),
            result matches Ok(next) ==> next@ == child(self@, dir, step as nat),
            result matches Err(e) ==> e matches PuzzleError::IllegalMove(msg) && msg@
                == illegal_move_reason(self@, dir),
    {
        proof {
            use_type_invariant(self);
        }
        let at = self.space_idx();
        let to = match self.step_target(at, dir) {
            Some(t) => t,
            None => {
                return Err(PuzzleError::IllegalMove(edge_message(dir)));
            },
        };
        proof {
            assert(self.tiles@[to as int] == crate::tile::tile_of(self@.cells[to as int]));
        }
        if self.tiles[to].rune == Rune::WALL {
            return Err(PuzzleError::IllegalMove(wall_message(dir)));
        }
        let mut tiles = copy_tiles(&self.tiles);
        let blank = tiles[at];
        let other = tiles[to];
        tiles.set(at, other);
        tiles.set(to, blank);
        let mut moves = copy_moves(&self.moves);
        moves.push(dir);
        let hash = hash_tiles(&tiles);
        proof {
            let cells = swapped(self@.cells, at as int, to as int);
            assert(raw_symbols(tiles@) =~= cells);
            assert(tiles@ =~= tiles_of(cells));
        }
        Ok(Puzzle { width: self.width, height: self.height, tiles, moves, hash, g: self.g + step })
    }

    /// Moves the blank in direction `dir` and records the move. A move
    /// that would leave the grid or run into a wall is refused and leaves
    /// the board as it was.
    pub fn move_space(&mut self, dir: Direction) -> (result: Result<(), PuzzleError>)
        requires
            has_blank(old(self)@.cells),
        ensures
            result is Ok <==> can_slide(old(self)@, blank_index(old(self)@.cells), dir),
            result is Ok ==> final(self)@ == slide(old(self)@, dir),
            result is Err ==> final(self)@ == old(self)@,
            result matches Err(e) ==> e matches PuzzleError::IllegalMove(msg) && msg@
                == illegal_move_reason(old(self)@, dir),
    {
        match self.slid(dir, 0) {
            Ok(next) => {
                *self = next;
                Ok(())
            },
            Err(e) => Err(e),
        }
    }

    /// The boards one move away. Each is a copy of this board in which the
    /// blank changed places with a neighbour, the move is recorded and the
    /// path cost has grown by `step`. The directions tried are those legal
    /// for a blank at `space_idx`.
    pub fn generate_successors(&self, space_idx: usize, step: u32) -> (successors: Successors)
        requires
            space_idx < self@.cells.len(),
            has_blank(self@.cells),
            self@.g + step <= u32::MAX,
        ensures
            successors@ == successors_of(self@, space_idx as int, step as nat),
            successors@.len() <= 4,
    {
        let dirs = self.legal_moves(space_idx);
        let mut puzzles: Vec<Puzzle> = Vec::with_capacity(4);
        let mut i: usize = 0;
        while i < dirs.len()
            invariant
                i <= dirs.len(),
                has_blank(self@.cells),
                self@.g + step <= u32::MAX,
                puzzles@.len() <= i,
                views_of(puzzles@) == children(self@, dirs@.take(i as int), step as nat),
            decreases dirs.len() - i,
        {
            let ghost before = views_of(puzzles@);
            match self.slid(dirs[i], step) {
                Ok(next) => {
                    puzzles.push(next);
                    assert(views_of(puzzles@) =~= before.push(next@));
                },
                Err(_) => {},
            }
            proof {
                assert(dirs@.take(i + 1).drop_last() =~= dirs@.take(i as int));
            }
            i += 1;
        }
        assert(dirs@.take(i as int) =~= dirs@);
        Successors { puzzles }
    }
}

/// The contents of a run of boards.
pub open spec fn views_of(puzzles: Seq<Puzzle>) -> Seq<PuzzleView> {
    Seq::new(puzzles.len(), |i: int| puzzles[i]@)
}

/// The boards one move away from a board; at most four.
pub struct Successors {
    puzzles: Vec<Puzzle>,
}

impl View for Successors {
    type V = Seq<PuzzleView>;

    closed spec fn view(&self) -> Seq<PuzzleView> {
        views_of(self.puzzles@)
    }
}

impl Successors {
    /// How many boards are left.
    pub fn len(&self) -> (n: usize)
        ensures
            n == self@.len(),
    {
        self.puzzles.len()
    }

    /// The board at `index`, if there is one.
    pub fn get(&self, index: usize) -> (found: Option<&Puzzle>)
        ensures
            found is Some <==> index < self@.len(),
            found matches Some(p) ==> p@ == self@[index as int],
    {
        if index < self.puzzles.len() {
            Some(&self.puzzles[index])
        } else {
            None
        }
    }

    /// The boards in the order in which they were generated.
    pub fn iter(&self) -> (all: &Vec<Puzzle>)
        ensures
            views_of(all@) == self@,
    {
        &self.puzzles
    }

    /// Takes out the board that was generated last.
    pub fn next(&mut self) -> (taken: Option<Puzzle>)
        ensures
            taken is Some <==> old(self)@.len() > 0,
            taken matches Some(p) ==> p@ == old(self)@.last() && final(self)@ == old(
                self,
            )@.drop_last(),
            taken is None ==> final(self)@ == old(self)@,
    {
        let taken = self.puzzles.pop();
        proof {
            if taken is Some {
                assert(self@ =~= old(self)@.drop_last());
            }
        }
        taken
    }
}

} // verus!
