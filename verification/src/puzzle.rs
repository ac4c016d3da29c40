//! The board: its state, its text encoding and its content hash.

use crate::direction::{copy_moves, serialize_moves, Direction, moves_text};
use crate::error::PuzzleError;
use crate::hashing::{hash_tiles, tiles_hash};
use crate::tile::{raw_symbols, tile_of, Tile};
use vstd::prelude::*;
use vstd::string::StringExecFns;
use vstd::string::StrSliceExecFns;

verus! {

/// The mathematical content of a board.
pub struct PuzzleView {
    /// The number of columns.
    pub width: nat,
    /// The number of rows.
    pub height: nat,
    /// The symbols of the cells, row by row.
    pub cells: Seq<char>,
    /// The moves that led here.
    pub moves: Seq<Direction>,
    /// The accumulated path cost.
    pub g: nat,
}

/// The tiles that stand for a run of symbols.
pub open spec fn tiles_of(cells: Seq<char>) -> Seq<Tile> {
    Seq::new(cells.len(), |i: int| tile_of(cells[i]))
}

/// The content hash of a board with the given cells.
pub open spec fn board_hash(cells: Seq<char>) -> u64 {
    tiles_hash(tiles_of(cells))
}

/// The value of a decimal digit.
pub open spec fn digit_value(c: char) -> nat {
    (c as int - '0' as int) as nat
}

/// Whether a character is a decimal digit.
pub open spec fn is_digit(c: char) -> bool {
    '0' <= c <= '9'
}

/// The decimal digit that stands for a number below ten.
pub open spec fn digit_symbol(d: nat) -> char {
    (d + '0' as nat) as char
}

/// The symbols that a board text carries after its two dimensions.
pub open spec fn text_symbols(text: Seq<char>) -> Seq<char> {
    if text.len() >= 4 {
        text.skip(4)
    } else {
        Seq::empty()
    }
}

/// Whether a text can be read as a board: both dimension digits are
/// present and the number of symbols is the product of the dimensions.
/// The characters at the two separator positions are not examined.
pub open spec fn text_parses(text: Seq<char>) -> bool {
    &&& text.len() >= 3
    &&& is_digit(text[0])
    &&& is_digit(text[2])
    &&& text_symbols(text).len() == digit_value(text[0]) * digit_value(text[2])
}

/// The board that a text denotes.
pub open spec fn parsed_board(text: Seq<char>) -> PuzzleView {
    PuzzleView {
        width: digit_value(text[0]),
        height: digit_value(text[2]),
        cells: text_symbols(text),
        moves: Seq::empty(),
        g: 0,
    }
}

/// The text encoding of a board: width digit, comma, height digit, comma,
/// then the symbols row by row.
pub open spec fn board_text(v: PuzzleView) -> Seq<char> {
    seq![digit_symbol(v.width), ',', digit_symbol(v.height), ','] + v.cells
}

/// Whether a text is a board encoding in canonical form: it parses and its
/// two separators are commas.
pub open spec fn is_board_encoding(text: Seq<char>) -> bool {
    &&& text_parses(text)
    &&& text.len() >= 4
    &&& text[1] == ','
    &&& text[3] == ','
}

/// One puzzle configuration together with the path that led to it.
#[derive(Debug)]
pub struct Puzzle {
    pub(crate) width: u32,
    pub(crate) height: u32,
    pub(crate) tiles: Vec<Tile>,
    pub(crate) moves: Vec<Direction>,
    pub(crate) hash: u64,
    pub(crate) g: u32,
}

impl View for Puzzle {
    type V = PuzzleView;

    open(crate) spec fn view(&self) -> PuzzleView {
        PuzzleView {
            width: self.width as nat,
            height: self.height as nat,
            cells: raw_symbols(self.tiles@),
            moves: self.moves@,
            g: self.g as nat,
        }
    }
}

/// A copy of a run of tiles.
pub fn copy_tiles(tiles: &Vec<Tile>) -> (copy: Vec<Tile>)
    ensures
        copy@ == tiles@,
{
    let mut copy: Vec<Tile> = Vec::new();
    let mut i: usize = 0;
    while i < tiles.len()
        invariant
            i <= tiles.len(),
            copy@ == tiles@.take(i as int),
        decreases tiles.len() - i,
    {
        copy.push(tiles[i]);
        i += 1;
        assert(copy@ =~= tiles@.take(i as int));
    }
    assert(tiles@.take(i as int) =~= tiles@);
    copy
}

/// The value of a decimal digit, if the character is one.
fn digit_of(c: char) -> (d: Option<u32>)
    ensures
        d is Some <==> is_digit(c),
        d matches Some(v) ==> v == digit_value(c) && v <= 9,
{
    if '0' <= c && c <= '9' {
        Some(c as u32 - '0' as u32)
    } else {
        None
    }
}

/// The decimal digit that stands for a number below ten.
fn digit_char(d: u32) -> (c: char)
    requires
        d <= 9,
    ensures
        c == digit_symbol(d as nat),
        is_digit(c),
        digit_value(c) == d,
{
    (d as u8 + 48u8) as char
}

impl Clone for Puzzle {
    /// A copy with the same content.
    fn clone(&self) -> (copy: Self)
        ensures
            copy@ == self@,
    {
        proof {
            use_type_invariant(self);
        }
        Puzzle {
            width: self.width,
            height: self.height,
            tiles: copy_tiles(&self.tiles),
            moves: copy_moves(&self.moves),
            hash: self.hash,
            g: self.g,
        }
    }
}

impl Puzzle {
    /// What holds of every board: the dimensions are digits, there are as
    /// many tiles as the dimensions say, every tile is the tile of its
    /// symbol, and the cached hash is that of the tiles.
    #[verifier::type_invariant]
    pub open(crate) spec fn inv(self) -> bool {
        &&& self.width <= 9
        &&& self.height <= 9
        &&& self.tiles@.len() == self.width * self.height
        &&& self.tiles@ == tiles_of(self@.cells)
        &&& self.hash == board_hash(self@.cells)
    }

    /// Reads a board from its text encoding.
    ///
    /// The text is accepted exactly when `text_parses` holds of it, and the
    /// board then has the stated dimensions and symbols, no recorded moves
    /// and path cost zero.
    pub fn from_str(str: &str) -> (result: Result<Puzzle, PuzzleError>)
        ensures
            result is Ok <==> text_parses(str@),
            result matches Ok(p) ==> p@ == parsed_board(str@),
            result matches Err(e) ==> e is FormatError,
    {
        let n = str.unicode_len();
        if n < 3 {
            return Err(PuzzleError::FormatError(String::from_str("missing dimension digit")));
        }
        let width = match digit_of(str.get_char(0)) {
            Some(w) => w,
            None => {
                return Err(
                    PuzzleError::FormatError(String::from_str("width is not a decimal digit")),
                );
            },
        };
        let height = match digit_of(str.get_char(2)) {
            Some(h) => h,
            None => {
                return Err(
                    PuzzleError::FormatError(String::from_str("height is not a decimal digit")),
                );
            },
        };
        let count: usize = if n >= 4 {
            n - 4
        } else {
            0
        };
        assert(width * height <= 81) by (nonlinear_arith)
            requires
                width <= 9,
                height <= 9,
        ;
        if count != (width * height) as usize {
            return Err(
                PuzzleError::FormatError(
                    String::from_str("symbol count differs from width times height"),
                ),
            );
        }
        let mut tiles: Vec<Tile> = Vec::new();
        let mut i: usize = 0;
        while i < count
            invariant
                i <= count,
                count == text_symbols(str@).len(),
                n == str@.len(),
                tiles@ == tiles_of(text_symbols(str@).take(i as int)),
            decreases count - i,
        {
            let c = str.get_char(i + 4);
            tiles.push(Tile::new(c));
            i += 1;
            assert(tiles@ =~= tiles_of(text_symbols(str@).take(i as int)));
        }
        proof {
            assert(text_symbols(str@).take(i as int) =~= text_symbols(str@));
            assert(raw_symbols(tiles@) =~= text_symbols(str@));
        }
        let hash = hash_tiles(&tiles);
        Ok(Puzzle { width, height, tiles, moves: Vec::new(), hash, g: 0 })
    }

    /// The text encoding of the board.
    pub fn serialized(&self) -> (text: String)
        ensures
            text@ == board_text(self@),
    {
        proof {
            use_type_invariant(self);
        }
        let mut text = String::new();
        text.push(digit_char(self.width));
        text.push(',');
        text.push(digit_char(self.height));
        text.push(',');
        let mut i: usize = 0;
        while i < self.tiles.len()
            invariant
                i <= self.tiles.len(),
                text@ == seq![
                    digit_symbol(self@.width),
                    ',',
                    digit_symbol(self@.height),
                    ',',
                ] + self@.cells.take(i as int),
            decreases self.tiles.len() - i,
        {
            text.push(self.tiles[i].raw);
            i += 1;
            assert(text@ =~= seq![
                digit_symbol(self@.width),
                ',',
                digit_symbol(self@.height),
                ',',
            ] + self@.cells.take(i as int));
        }
        assert(self@.cells.take(i as int) =~= self@.cells);
        text
    }

    /// The number of columns.
    pub fn width(&self) -> (w: u32)
        ensures
            w == self@.width,
            w <= 9,
    {
        proof {
            use_type_invariant(self);
        }
        self.width
    }

    /// The number of rows.
    pub fn height(&self) -> (h: u32)
        ensures
            h == self@.height,
            h <= 9,
    {
        proof {
            use_type_invariant(self);
        }
        self.height
    }

    /// The cells of the board, row by row.
    pub fn tiles(&self) -> (tiles: &Vec<Tile>)
        ensures
            tiles@ == tiles_of(self@.cells),
            tiles@.len() == self@.width * self@.height,
    {
        proof {
            use_type_invariant(self);
        }
        &self.tiles
    }

    /// The moves recorded on the way to this board.
    pub fn moves(&self) -> (moves: &Vec<Direction>)
        ensures
            moves@ == self@.moves,
    {
        &self.moves
    }

    /// The accumulated path cost.
    pub fn g(&self) -> (g: u32)
        ensures
            g == self@.g,
    {
        self.g
    }

    /// The content hash of the board's cells.
    pub fn content_hash(&self) -> (h: u64)
        ensures
            h == board_hash(self@.cells),
    {
        proof {
            use_type_invariant(self);
        }
        self.hash
    }

    /// The recorded moves as text.
    pub fn moves_str(&self) -> (text: String)
        ensures
            text@ == moves_text(self@.moves),
    {
        serialize_moves(&self.moves)
    }

    /// Whether this board has the content hash of `solved_puzzle`.
    pub fn is_solved(&self, solved_puzzle: &Puzzle) -> (solved: bool)
        ensures
            solved == (board_hash(self@.cells) == board_hash(solved_puzzle@.cells)),
    {
        proof {
            use_type_invariant(self);
            use_type_invariant(solved_puzzle);
        }
        self.hash == solved_puzzle.hash
    }
}

/// Reading the encoding of a board and writing it again gives the same
/// text.
pub proof fn lemma_parse_then_serialize(text: Seq<char>)
    requires
        is_board_encoding(text),
    ensures
        text_parses(text),
        board_text(parsed_board(text)) == text,
{
    assert(board_text(parsed_board(text)) =~= text);
}

} // verus!
