//! Cells of a board: their symbols, kinds and canonical ranks.

use vstd::prelude::*;

verus! {

/// The marker of the blank cell.
pub const BLANK_SYMBOL: char = '0';

/// The marker of a wall cell.
pub const WALL_SYMBOL: char = '=';

/// The kind of a cell.
#[derive(Debug, Clone, Copy, PartialEq, Eq, Hash, Structural)]
pub enum Rune {
    VALUE,
    SPACE,
    WALL,
}

/// The kind that a symbol denotes.
pub open spec fn rune_of(c: char) -> Rune {
    if c == '=' {
        Rune::WALL
    } else if c == '0' {
        Rune::SPACE
    } else {
        Rune::VALUE
    }
}

/// The canonical ordering key of a symbol: digits come first, then lower
/// case letters, then upper case letters, then the blank. Walls and every
/// other character have rank -1.
pub open spec fn rank_of(c: char) -> int {
    if '1' <= c <= '9' {
        c as int - '0' as int
    } else if 'a' <= c <= 'z' {
        c as int - 'a' as int + 10
    } else if 'A' <= c <= 'Z' {
        c as int - 'A' as int + 36
    } else if c == '0' {
        62
    } else {
        -1
    }
}

/// Whether a character is one of the 62 tile symbols.
pub open spec fn is_value_symbol(c: char) -> bool {
    ('1' <= c <= '9') || ('a' <= c <= 'z') || ('A' <= c <= 'Z')
}

/// Whether a character may occur in a board encoding at all.
pub open spec fn is_board_symbol(c: char) -> bool {
    is_value_symbol(c) || c == '0' || c == '='
}

impl Rune {
    /// The kind that a symbol denotes.
    pub fn from_char(char: char) -> (rune: Self)
        ensures
            rune == rune_of(char),
    {
        if char == '=' {
            Rune::WALL
        } else if char == '0' {
            Rune::SPACE
        } else {
            Rune::VALUE
        }
    }
}

/// One cell of a board.
#[derive(Debug, Clone, Copy, Hash, PartialEq)]
pub struct Tile {
    /// The symbol.
    pub raw: char,
    /// The kind.
    pub rune: Rune,
    /// The index at which the tile belongs, where it is known.
    pub solved_idx: Option<usize>,
}

/// The tile that `Tile::new` makes of a symbol.
pub open spec fn tile_of(c: char) -> Tile {
    Tile { raw: c, rune: rune_of(c), solved_idx: None }
}

/// The symbols of a run of tiles, in order.
pub open spec fn raw_symbols(tiles: Seq<Tile>) -> Seq<char> {
    Seq::new(tiles.len(), |i: int| tiles[i].raw)
}

/// The text of a run of tiles: one symbol per tile, in order.
pub fn serialize_tiles(tiles: &Vec<Tile>) -> (text: String)
    ensures
        text@ == raw_symbols(tiles@),
{
    let mut text = String::new();
    let mut i: usize = 0;
    while i < tiles.len()
        invariant
            i <= tiles.len(),
            text@ == raw_symbols(tiles@.take(i as int)),
        decreases tiles.len() - i,
    {
        text.push(tiles[i].raw);
        i += 1;
        assert(text@ =~= raw_symbols(tiles@.take(i as int)));
    }
    assert(tiles@.take(i as int) =~= tiles@);
    text
}

/// The part of `tiles` that row `r` of a grid of the given width holds when
/// the tiles are laid out row by row; rows past the end are empty.
pub open spec fn matrix_row(tiles: Seq<Tile>, width: nat, r: int) -> Seq<Tile> {
    let from = if r * width <= tiles.len() { r * width } else { tiles.len() as int };
    let to = if (r + 1) * width <= tiles.len() { (r + 1) * width } else { tiles.len() as int };
    tiles.subrange(from, to)
}

/// Lays a run of tiles out as `height` rows of up to `width` tiles each.
pub fn tiles_vec_to_matrix(width: u32, height: u32, tiles: Vec<Tile>) -> (matrix: Vec<Vec<Tile>>)
    ensures
        matrix@.len() == height,
        forall|r: int| 0 <= r < height ==> (#[trigger] matrix@[r])@ == matrix_row(tiles@, width as nat, r),
{
    let mut matrix: Vec<Vec<Tile>> = Vec::new();
    let mut idx: usize = 0;
    let mut r: u32 = 0;
    while r < height
        invariant
            r <= height,
            matrix@.len() == r,
            idx <= tiles@.len(),
            idx == (if r * width <= tiles@.len() { r * width } else { tiles@.len() as int }),
            forall|k: int| 0 <= k < r ==> (#[trigger] matrix@[k])@ == matrix_row(tiles@, width as nat, k),
        decreases height - r,
    {
        let mut row: Vec<Tile> = Vec::new();
        let mut c: u32 = 0;
        let ghost start: int = idx as int;
        while c < width
            invariant
                c <= width,
                0 <= start <= idx <= tiles@.len(),
                idx == (if start + c <= tiles@.len() { start + c } else { tiles@.len() as int }),
                row@ == tiles@.subrange(start, idx as int),
            decreases width - c,
        {
            if idx < tiles.len() {
                row.push(tiles[idx]);
                idx += 1;
                assert(row@ =~= tiles@.subrange(start, idx as int));
            }
            c += 1;
        }
        proof {
            assert((r + 1) * width == r * width + width) by (nonlinear_arith);
            if r * width > tiles@.len() {
                assert((r + 1) * width > tiles@.len());
            }
        }
        matrix.push(row);
        r += 1;
    }
    matrix
}

impl Tile {
    /// The tile of a symbol: its kind is that of the symbol, and it
    /// carries no target index.
    pub fn new(char: char) -> (tile: Self)
        ensures
            tile == tile_of(char),
    {
        Self { raw: char, rune: Rune::from_char(char), solved_idx: None }
    }

    /// The symbol of the tile.
    pub fn raw(&self) -> (c: char)
        ensures
            c == self.raw,
    {
        self.raw
    }

    /// The rank of the tile's symbol.
    pub fn rank(&self) -> (rank: i32)
        ensures
            rank == rank_of(self.raw),
    {
        let c = self.raw;
        if '1' <= c && c <= '9' {
            c as i32 - '0' as i32
        } else if 'a' <= c && c <= 'z' {
            c as i32 - 'a' as i32 + 10
        } else if 'A' <= c && c <= 'Z' {
            c as i32 - 'A' as i32 + 36
        } else if c == '0' {
            62
        } else {
            -1
        }
    }
}

} // verus!
