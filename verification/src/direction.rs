//! The four ways the blank can move, and move lists as text.

use vstd::prelude::*;

verus! {

/// A move of the blank cell.
#[derive(Debug, Clone, Copy, PartialEq, Eq, Hash, PartialOrd, Ord, Structural)]
pub enum Direction {
    UP,
    DOWN,
    LEFT,
    RIGHT,
}

/// The letter that stands for a direction in a move list.
pub open spec fn direction_char(d: Direction) -> char {
    match d {
        Direction::UP => 'U',
        Direction::DOWN => 'D',
        Direction::LEFT => 'L',
        Direction::RIGHT => 'R',
    }
}

/// The direction that undoes `d`.
pub open spec fn opposite(d: Direction) -> Direction {
    match d {
        Direction::UP => Direction::DOWN,
        Direction::DOWN => Direction::UP,
        Direction::LEFT => Direction::RIGHT,
        Direction::RIGHT => Direction::LEFT,
    }
}

/// The text of a move list: one letter per move, in order.
pub open spec fn moves_text(moves: Seq<Direction>) -> Seq<char> {
    Seq::new(moves.len(), |i: int| direction_char(moves[i]))
}

impl Direction {
    /// The letter that stands for the direction in a move list.
    pub fn to_char(&self) -> (c: char)
        ensures
            c == direction_char(*self),
    {
        match self {
            Direction::UP => 'U',
            Direction::DOWN => 'D',
            Direction::LEFT => 'L',
            Direction::RIGHT => 'R',
        }
    }

    /// The direction that undoes this one.
    pub fn inverse(&self) -> (d: Direction)
        ensures
            d == opposite(*self),
    {
        match self {
            Direction::UP => Direction::DOWN,
            Direction::DOWN => Direction::UP,
            Direction::LEFT => Direction::RIGHT,
            Direction::RIGHT => Direction::LEFT,
        }
    }
}

/// Inverting a direction twice gives the direction back.
pub proof fn lemma_inverse_involution(d: Direction)
    ensures
        opposite(opposite(d)) == d,
{
}

/// Writes a move list as text, one of `U`, `D`, `L`, `R` per move.
pub fn serialize_moves(moves: &Vec<Direction>) -> (text: String)
    ensures
        text@ == moves_text(moves@),
{
    let mut text = String::new();
    let mut i: usize = 0;
    while i < moves.len()
        invariant
            i <= moves.len(),
            text@ == moves_text(moves@.take(i as int)),
        decreases moves.len() - i,
    {
        text.push(moves[i].to_char());
        i += 1;
        assert(text@ =~= moves_text(moves@.take(i as int)));
    }
    assert(moves@.take(i as int) =~= moves@);
    text
}

/// A copy of a move list.
pub fn copy_moves(moves: &Vec<Direction>) -> (copy: Vec<Direction>)
    ensures
        copy@ == moves@,
{
    let mut copy: Vec<Direction> = Vec::new();
    let mut i: usize = 0;
    while i < moves.len()
        invariant
            i <= moves.len(),
            copy@ == moves@.take(i as int),
        decreases moves.len() - i,
    {
        copy.push(moves[i]);
        i += 1;
        assert(copy@ =~= moves@.take(i as int));
    }
    assert(moves@.take(i as int) =~= moves@);
    copy
}

} // verus!
