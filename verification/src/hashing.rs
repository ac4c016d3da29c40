//! The content hash of a run of tiles.

use crate::tile::Tile;
use rustc_hash::FxHasher;
use std::hash::{Hash, Hasher};
use vstd::prelude::*;

verus! {

/// The 64-bit digest that the Fx hasher yields after it was fed the given
/// tiles in order. The digest is a fixed function of the tiles: the hasher
/// starts from a constant state and carries no seed. Nothing more is
/// known of it; in particular, different runs of tiles may have the same
/// digest.
pub uninterp spec fn tiles_hash(tiles: Seq<Tile>) -> u64;

/// Feeds every tile, in order, to a fresh `rustc_hash::FxHasher` and returns
/// what `finish` reports.
///
/// Trusted: the body is not verified. The contract claims only that the
/// outcome is determined by the tiles, which holds because
/// `FxHasher::default()` starts from a constant state, the derived
/// `Hash` impls of `Tile` and `Rune` write nothing but the fields, every
/// write folds its value into the state by wrapping arithmetic, and
/// `finish` reads only the state. The hasher works on machine words, so
/// the digest is the same on all targets of one pointer width.
#[verifier::external_body]
pub fn hash_tiles(tiles: &Vec<Tile>) -> (hash: u64)
    ensures
        hash == tiles_hash(tiles@),
{
    let mut hasher = FxHasher::default();
    for tile in tiles {
        tile.hash(&mut hasher);
    }
    hasher.finish()
}

} // verus!
