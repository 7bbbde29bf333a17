//! Reconstruction of rectangular cuboids ("cheeses") from a multiset of
//! unit-thickness rectangular slices.
//!
//! The library models slices as canonical [`cheese::Piece`] values, the pool of
//! remaining slices as a copy-on-write [`pieces_map::PiecesMap`], the slices a
//! search branch has consumed as a persistent [`prev_pieces::PrevPieces`]
//! history, and drives the branching search in [`cheese_builder`].

pub mod cheese;
pub mod pieces_map;
pub mod prepare;
pub mod cheese_builder;
pub mod prev_pieces;

pub use cheese::Piece;

use std::rc::Rc;
use vstd::prelude::*;

verus! {

/// Relies on std's `Rc::clone`: it returns another handle to the same
/// allocation, hence to the same value.
#[verifier::external_body]
pub(crate) fn rc_clone<T>(rc: &Rc<T>) -> (r: Rc<T>)
    ensures
        r == *rc,
{
    Rc::clone(rc)
}

} // verus!
