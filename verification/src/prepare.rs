//! Preparing an input piece list: canonicalizing raw records and the
//! synthetic removal ("eating") of slices for testing the inference.

use vstd::prelude::*;

use crate::cheese::Piece;

verus! {

/// The canonical pieces of a record list: each `(a, b)` pair in canonical
/// orientation, in record order.
pub open spec fn canon_records(rs: Seq<(u32, u32)>) -> Seq<Piece> {
    rs.map_values(|e: (u32, u32)| Piece::canon(e.0, e.1))
}

/// The pieces kept, and whether the last piece was removed, after the first
/// `n` removal draws: a drawn piece is removed, except that the piece right
/// after a removed one is always kept.
pub open spec fn eat_upto(s: Seq<Piece>, d: Seq<bool>, n: int) -> (Seq<Piece>, bool)
    decreases n,
{
    if n <= 0 {
        (Seq::empty(), false)
    } else {
        let (acc, last_eaten) = eat_upto(s, d, n - 1);
        if !d[n - 1] || last_eaten {
            (acc.push(s[n - 1]), false)
        } else {
            (acc, true)
        }
    }
}

/// Canonicalizes a list of raw `(a, b)` records into pieces, after checking it
/// against the declared record count: `None` exactly when the count is wrong.
pub fn pieces_from_records(records: &Vec<(u32, u32)>, declared: usize) -> (r: Option<Vec<Piece>>)
    ensures
        r matches Some(v) ==> records@.len() == declared && v@ == canon_records(records@),
        r is None <==> records@.len() != declared,
{
    if records.len() != declared {
        return None;
    }
    let mut v: Vec<Piece> = Vec::new();
    let mut i: usize = 0;
    while i < records.len()
        invariant
            i <= records@.len(),
            v@ == canon_records(records@).take(i as int),
        decreases records@.len() - i,
    {
        let (a, b) = records[i];
        v.push(Piece::new(a, b));
        proof {
            assert(v@ =~= canon_records(records@).take(i as int + 1));
        }
        i += 1;
    }
    proof {
        assert(canon_records(records@).take(records@.len() as int) =~= canon_records(records@));
    }
    Some(v)
}

/// Removes pieces according to the removal draws — one draw per piece — except
/// that the piece right after a removed one is always kept, so no two
/// neighbouring pieces disappear.
pub fn eat_pieces(pieces: Vec<Piece>, draws: &Vec<bool>) -> (r: Vec<Piece>)
    requires
        draws@.len() == pieces@.len(),
    ensures
        r@ == eat_upto(pieces@, draws@, pieces@.len() as int).0,
{
    let mut new_pieces: Vec<Piece> = Vec::new();
    let mut last_eaten = false;
    let mut i: usize = 0;
    while i < pieces.len()
        invariant
            draws@.len() == pieces@.len(),
            i <= pieces@.len(),
            (new_pieces@, last_eaten) == eat_upto(pieces@, draws@, i as int),
        decreases pieces@.len() - i,
    {
        if !draws[i] || last_eaten {
            new_pieces.push(pieces[i]);
            last_eaten = false;
        } else {
            last_eaten = true;
        }
        i += 1;
    }
    new_pieces
}

} // verus!
