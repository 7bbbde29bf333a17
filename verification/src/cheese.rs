//! The block being reconstructed and its geometry: canonical slices, faces,
//! and single-step growth.

use vstd::multiset::Multiset;
use vstd::prelude::*;

use crate::cheese_builder::PossPath;
use crate::pieces_map::{lemma_pm_count, lemma_wf_pool, pool_wf, PiecesMap};
use crate::prev_pieces::PrevPieces;

verus! {

/// A rectangular slice, kept in canonical orientation: the first (major)
/// dimension is never smaller than the second (minor) one, so a rectangle and
/// its 90-degree rotation are the same value.
#[derive(Debug, PartialEq, Eq, PartialOrd, Ord, Hash, Clone, Copy, Structural)]
pub struct Piece(pub u32, pub u32);

impl Piece {
    /// The canonical orientation of a raw `(a, b)` rectangle.
    pub open spec fn canon(a: u32, b: u32) -> Piece {
        if a >= b {
            Piece(a, b)
        } else {
            Piece(b, a)
        }
    }

    /// A piece that can actually occur in an inventory: canonical, with both
    /// dimensions positive.
    pub open spec fn wf(self) -> bool {
        self.0 >= self.1 >= 1
    }

    /// Builds the canonical piece for a raw rectangle.
    pub fn new(a: u32, b: u32) -> (r: Piece)
        ensures
            r == Piece::canon(a, b),
    {
        if a >= b {
            Piece(a, b)
        } else {
            Piece(b, a)
        }
    }
}

/// Canonicalization ignores the order of the two dimensions: a rectangle and
/// its rotated form yield the same piece.
pub proof fn lemma_canon_commutes(a: u32, b: u32)
    ensures
        Piece::canon(a, b) == Piece::canon(b, a),
{
}

/// The growing block: three dimensions, kept sorted in descending order so
/// that geometrically identical blocks compare equal.
#[derive(Debug, PartialEq, Eq, Hash, Clone, Copy)]
pub struct Cheese {
    pub size: [u32; 3],
}

/// The dimension pair that face `i` is made of: the two axes other than `i`.
pub open spec fn side_axes(i: int) -> (int, int) {
    if i == 0 {
        (1, 2)
    } else if i == 1 {
        (0, 2)
    } else {
        (0, 1)
    }
}

/// Face `i` of a block with the given dimensions: the canonical piece made of
/// the two dimensions other than `i`.
pub open spec fn side_of(size: Seq<u32>, i: int) -> Piece {
    Piece::canon(size[side_axes(i).0], size[side_axes(i).1])
}

/// The dimensions after one growth step along axis `n`, re-sorted.
pub open spec fn expand_of(size: Seq<u32>, n: int) -> Seq<u32> {
    sorted_desc3(
        if n == 0 {
            (size[0] + 1) as u32
        } else {
            size[0]
        },
        if n == 1 {
            (size[1] + 1) as u32
        } else {
            size[1]
        },
        if n == 2 {
            (size[2] + 1) as u32
        } else {
            size[2]
        },
    )
}

/// The triple `(x, y, z)` arranged in descending order.
pub open spec fn sorted_desc3(x: u32, y: u32, z: u32) -> Seq<u32> {
    if x >= y {
        if y >= z {
            seq![x, y, z]
        } else if x >= z {
            seq![x, z, y]
        } else {
            seq![z, x, y]
        }
    } else {
        if x >= z {
            seq![y, x, z]
        } else if y >= z {
            seq![y, z, x]
        } else {
            seq![z, y, x]
        }
    }
}

/// Sorting three values descending keeps their sum and is descending-sorted.
pub proof fn lemma_sorted_desc3(x: u32, y: u32, z: u32)
    ensures
        ({
            let s = sorted_desc3(x, y, z);
            &&& s.len() == 3
            &&& s[0] >= s[1] >= s[2]
            &&& s[0] + s[1] + s[2] == x + y + z
        }),
{
}

impl Cheese {
    /// Dimensions sorted in descending order.
    pub open spec fn wf(self) -> bool {
        self.size@[0] >= self.size@[1] >= self.size@[2]
    }

    /// The sum of the three dimensions; grows by exactly one per growth step.
    pub open spec fn dims_sum(self) -> int {
        self.size@[0] + self.size@[1] + self.size@[2]
    }

    /// Face `i`: the canonical piece made of the two dimensions other than `i`.
    pub open spec fn spec_side(self, i: int) -> Piece {
        side_of(self.size@, i)
    }

    /// The block after one growth step along axis `n`, re-sorted.
    pub open spec fn spec_expand(self, n: int) -> Seq<u32> {
        expand_of(self.size@, n)
    }

    /// Creates a block with the given dimensions.
    pub fn new(size: [u32; 3]) -> (r: Self)
        ensures
            r.size == size,
    {
        Self { size }
    }

    /// The axis pairs the three faces are built from, in face order.
    pub fn get_sides_n() -> (r: Vec<(usize, usize)>)
        ensures
            r@.len() == 3,
            forall|i: int|
                0 <= i < 3 ==> (#[trigger] r@[i]) == (side_axes(i).0 as usize, side_axes(
                    i,
                ).1 as usize),
    {
        let mut v: Vec<(usize, usize)> = Vec::new();
        v.push((1, 2));
        v.push((0, 2));
        v.push((0, 1));
        v
    }

    /// The three faces of the block, in face order.
    pub fn get_sides(&self) -> (r: Vec<Piece>)
        ensures
            r@.len() == 3,
            forall|i: int| 0 <= i < 3 ==> (#[trigger] r@[i]) == self.spec_side(i),
    {
        let mut v: Vec<Piece> = Vec::new();
        v.push(Piece::new(self.size[1], self.size[2]));
        v.push(Piece::new(self.size[0], self.size[2]));
        v.push(Piece::new(self.size[0], self.size[1]));
        v
    }

    /// Grows the block by one unit along axis `n` and re-sorts the dimensions,
    /// so the result is always descending-sorted. Never shrinks a dimension
    /// and raises the dimension total by exactly one.
    pub(crate) fn expand_side(&self, n: usize) -> (r: Cheese)
        requires
            n < 3,
            self.size@[n as int] < u32::MAX,
        ensures
            r.size@ == self.spec_expand(n as int),
            r.wf(),
            r.dims_sum() == self.dims_sum() + 1,
    {
        let mut size = self.size;
        size[n] = size[n] + 1;
        let x = size[0];
        let y = size[1];
        let z = size[2];
        let sorted: [u32; 3] = if x >= y {
            if y >= z {
                [x, y, z]
            } else if x >= z {
                [x, z, y]
            } else {
                [z, x, y]
            }
        } else {
            if x >= z {
                [y, x, z]
            } else if y >= z {
                [y, z, x]
            } else {
                [z, y, x]
            }
        };
        let r = Cheese { size: sorted };
        proof {
            assert(r.size@ =~= self.spec_expand(n as int));
        }
        r
    }
}

/// A growth candidate: the face index to grow along, the piece covering that
/// face, and whether the piece is only hypothesized ("added").
#[derive(Debug, Clone, Copy)]
pub struct NewSide {
    pub side_n: usize,
    pub piece: Piece,
    pub is_added: bool,
}

impl NewSide {
    fn new(side_n: usize, piece: Piece, is_added: bool) -> (r: Self)
        ensures
            r == (NewSide { side_n, piece, is_added }),
    {
        Self { side_n, piece, is_added }
    }
}

/// Face `i` repeats an earlier face of the same block; only the first
/// occurrence is used for branching.
pub open spec fn dup_side(size: Seq<u32>, i: int) -> bool {
    exists|j: int| 0 <= j < i && side_of(size, j) == side_of(size, i)
}

/// Face `i` is a real growth candidate: it is no repeat of an earlier face,
/// a slice covering it is available, and the axis can still grow.
pub open spec fn real_cand(size: Seq<u32>, inv: Multiset<Piece>, i: int) -> bool {
    &&& !dup_side(size, i)
    &&& inv.count(side_of(size, i)) > 0
    &&& size[i] < u32::MAX
}

/// A singleton candidate list, or nothing.
pub open spec fn opt_side(b: bool, ns: NewSide) -> Seq<NewSide> {
    if b {
        seq![ns]
    } else {
        Seq::empty()
    }
}

/// The real growth candidates of the first `n` faces, in face order.
pub open spec fn real_sides_upto(size: Seq<u32>, inv: Multiset<Piece>, n: int) -> Seq<NewSide>
    decreases n,
{
    if n <= 0 {
        Seq::empty()
    } else {
        real_sides_upto(size, inv, n - 1) + opt_side(
            real_cand(size, inv, n - 1),
            NewSide { side_n: (n - 1) as usize, piece: side_of(size, n - 1), is_added: false },
        )
    }
}

/// The real growth candidates of a block against an inventory.
pub open spec fn real_sides(size: Seq<u32>, inv: Multiset<Piece>) -> Seq<NewSide> {
    real_sides_upto(size, inv, 3)
}

/// Probe `a` of face `i`: the slice for the first other axis is hypothesized
/// missing; the probe holds when that axis was not already grown, can still
/// grow, and the slice that would follow such a growth step is available.
pub open spec fn miss_cand_a(size: Seq<u32>, upd: Seq<bool>, inv: Multiset<Piece>, i: int) -> bool {
    let (oa, ob) = side_axes(i);
    &&& !upd[oa]
    &&& size[oa] < u32::MAX
    &&& inv.count(Piece::canon((size[oa] + 1) as u32, size[ob])) > 0
}

/// The hypothesized slice of probe `a` of face `i`.
pub open spec fn miss_side_a(size: Seq<u32>, i: int) -> NewSide {
    let (oa, ob) = side_axes(i);
    NewSide { side_n: oa as usize, piece: Piece::canon(size[ob], size[i]), is_added: true }
}

/// Probe `b` of face `i`: as probe `a`, for the second other axis.
pub open spec fn miss_cand_b(size: Seq<u32>, upd: Seq<bool>, inv: Multiset<Piece>, i: int) -> bool {
    let (oa, ob) = side_axes(i);
    &&& !upd[ob]
    &&& size[ob] < u32::MAX
    &&& inv.count(Piece::canon(size[oa], (size[ob] + 1) as u32)) > 0
}

/// The hypothesized slice of probe `b` of face `i`.
pub open spec fn miss_side_b(size: Seq<u32>, i: int) -> NewSide {
    let (oa, ob) = side_axes(i);
    NewSide { side_n: ob as usize, piece: Piece::canon(size[oa], size[i]), is_added: true }
}

/// The hypothesized ("missing") candidates of the first `n` faces, probes `a`
/// then `b` per face, in face order.
pub open spec fn missing_sides_upto(
    size: Seq<u32>,
    upd: Seq<bool>,
    inv: Multiset<Piece>,
    n: int,
) -> Seq<NewSide>
    decreases n,
{
    if n <= 0 {
        Seq::empty()
    } else {
        missing_sides_upto(size, upd, inv, n - 1) + opt_side(
            miss_cand_a(size, upd, inv, n - 1),
            miss_side_a(size, n - 1),
        ) + opt_side(miss_cand_b(size, upd, inv, n - 1), miss_side_b(size, n - 1))
    }
}

/// All hypothesized candidates of a block, given which faces were already
/// grown this step.
pub open spec fn missing_sides(size: Seq<u32>, upd: Seq<bool>, inv: Multiset<Piece>) -> Seq<
    NewSide,
> {
    missing_sides_upto(size, upd, inv, 3)
}

impl Cheese {
    /// Finds the faces that can grow by consuming an available slice.
    /// Returns, per face, whether it was used as a growth candidate, and the
    /// candidates themselves in face order; a face equal to an earlier one is
    /// skipped so two branches never grow into the same block twice.
    pub fn find_new_sides(&self, pieces: &PiecesMap) -> (r: (Vec<bool>, Vec<NewSide>))
        requires
            pieces.wf(),
        ensures
            r.0@.len() == 3,
            forall|i: int| 0 <= i < 3 ==> r.0@[i] == real_cand(self.size@, pieces.ms(), i),
            r.1@ == real_sides(self.size@, pieces.ms()),
    {
        let sides = self.get_sides();
        let mut updated: [bool; 3] = [false, false, false];
        let mut new_sides: Vec<NewSide> = Vec::new();
        let mut i: usize = 0;
        while i < 3
            invariant
                sides@.len() == 3,
                forall|t: int| 0 <= t < 3 ==> (#[trigger] sides@[t]) == self.spec_side(t),
                i <= 3,
                pieces.wf(),
                forall|t: int| 0 <= t < i ==> updated@[t] == real_cand(self.size@, pieces.ms(), t),
                forall|t: int| i <= t < 3 ==> updated@[t] == false,
                new_sides@ == real_sides_upto(self.size@, pieces.ms(), i as int),
            decreases 3 - i,
        {
            let side = sides[i];
            let mut is_dup = false;
            let mut j: usize = 0;
            while j < i
                invariant
                    j <= i <= 3,
                    sides@.len() == 3,
                    forall|t: int| 0 <= t < 3 ==> (#[trigger] sides@[t]) == self.spec_side(t),
                    side == self.spec_side(i as int),
                    is_dup == exists|t: int|
                        0 <= t < j && side_of(self.size@, t) == side_of(self.size@, i as int),
                decreases i - j,
            {
                if sides[j] == side {
                    proof {
                        assert(side_of(self.size@, j as int) == side_of(self.size@, i as int));
                    }
                    is_dup = true;
                }
                j += 1;
            }
            let mut cand = false;
            if !is_dup && self.size[i] < u32::MAX {
                if let Some(n) = pieces.get(&side) {
                    if *n > 0 {
                        cand = true;
                    }
                }
            }
            proof {
                lemma_pm_count(*pieces, self.spec_side(i as int));
                assert(cand == real_cand(self.size@, pieces.ms(), i as int));
            }
            if cand {
                updated[i] = true;
                new_sides.push(NewSide::new(i, side, false));
            }
            proof {
                assert(new_sides@ =~= real_sides_upto(self.size@, pieces.ms(), i as int + 1));
            }
            i += 1;
        }
        let mut updated_vec: Vec<bool> = Vec::new();
        updated_vec.push(updated[0]);
        updated_vec.push(updated[1]);
        updated_vec.push(updated[2]);
        (updated_vec, new_sides)
    }

    /// Finds growth candidates whose own slice is hypothesized missing: for
    /// each face not already grown, the axis may still grow if the slice that
    /// would follow such a growth step is available — downstream evidence for
    /// the block's true shape.
    pub(crate) fn find_missing(&self, updated_sides: Vec<bool>, pieces: &PiecesMap) -> (r: Vec<
        NewSide,
    >)
        requires
            updated_sides@.len() == 3,
            pieces.wf(),
        ensures
            r@ == missing_sides(self.size@, updated_sides@, pieces.ms()),
    {
        let mut r: Vec<NewSide> = Vec::new();
        let pairs = Cheese::get_sides_n();
        let mut i: usize = 0;
        while i < 3
            invariant
                updated_sides@.len() == 3,
                pairs@.len() == 3,
                forall|t: int|
                    0 <= t < 3 ==> (#[trigger] pairs@[t]) == (
                        side_axes(t).0 as usize,
                        side_axes(t).1 as usize,
                    ),
                i <= 3,
                pieces.wf(),
                r@ == missing_sides_upto(self.size@, updated_sides@, pieces.ms(), i as int),
            decreases 3 - i,
        {
            let (other_a, other_b) = pairs[i];
            let len_x = self.size[other_a];
            let len_y = self.size[other_b];
            let len_z = self.size[i];
            if !updated_sides[other_a] && len_x < u32::MAX {
                let searched = Piece::new(len_x + 1, len_y);
                proof {
                    lemma_pm_count(*pieces, searched);
                }
                let available = match pieces.get(&searched) {
                    Some(n) => *n > 0,
                    None => false,
                };
                if available {
                    r.push(NewSide::new(other_a, Piece::new(len_y, len_z), true));
                }
            }
            proof {
                assert(r@ =~= missing_sides_upto(self.size@, updated_sides@, pieces.ms(), i as int)
                    + opt_side(
                    miss_cand_a(self.size@, updated_sides@, pieces.ms(), i as int),
                    miss_side_a(self.size@, i as int),
                ));
            }
            if !updated_sides[other_b] && len_y < u32::MAX {
                let searched = Piece::new(len_x, len_y + 1);
                proof {
                    lemma_pm_count(*pieces, searched);
                }
                let available = match pieces.get(&searched) {
                    Some(n) => *n > 0,
                    None => false,
                };
                if available {
                    r.push(NewSide::new(other_b, Piece::new(len_x, len_z), true));
                }
            }
            proof {
                assert(r@ =~= missing_sides_upto(
                    self.size@,
                    updated_sides@,
                    pieces.ms(),
                    i as int + 1,
                ));
            }
            i += 1;
        }
        r
    }
}

/// Which faces are real growth candidates, as the "updated" mask of one step.
pub open spec fn cand_bits(size: Seq<u32>, inv: Multiset<Piece>) -> Seq<bool> {
    seq![real_cand(size, inv, 0), real_cand(size, inv, 1), real_cand(size, inv, 2)]
}

/// The candidates one expansion step pursues: the real candidates, or — when
/// there are none and missing-piece inference is enabled — the hypothesized
/// ones.
pub open spec fn chosen_sides(size: Seq<u32>, inv: Multiset<Piece>, fm: bool) -> Seq<NewSide> {
    let rs = real_sides(size, inv);
    if rs.len() > 0 {
        rs
    } else if fm {
        missing_sides(size, cand_bits(size, inv), inv)
    } else {
        Seq::empty()
    }
}

/// Every real candidate names a face index below three, an axis that can still
/// grow, and an available, well-formed piece of exactly the face it grows.
proof fn lemma_real_sides_props(size: Seq<u32>, inv: Multiset<Piece>, n: int)
    requires
        pool_wf(inv),
        0 <= n <= 3,
    ensures
        forall|t: int|
            0 <= t < real_sides_upto(size, inv, n).len() ==> {
                let ns = #[trigger] real_sides_upto(size, inv, n)[t];
                &&& ns.side_n < 3
                &&& size[ns.side_n as int] < u32::MAX
                &&& !ns.is_added
                &&& inv.count(ns.piece) > 0
                &&& ns.piece.wf()
                &&& ns.piece == side_of(size, ns.side_n as int)
            },
    decreases n,
{
    if n > 0 {
        lemma_real_sides_props(size, inv, n - 1);
        let a = real_sides_upto(size, inv, n - 1);
        let b = opt_side(
            real_cand(size, inv, n - 1),
            NewSide { side_n: (n - 1) as usize, piece: side_of(size, n - 1), is_added: false },
        );
        assert forall|t: int| 0 <= t < real_sides_upto(size, inv, n).len() implies {
            let ns = #[trigger] real_sides_upto(size, inv, n)[t];
            &&& ns.side_n < 3
            &&& size[ns.side_n as int] < u32::MAX
            &&& !ns.is_added
            &&& inv.count(ns.piece) > 0
            &&& ns.piece.wf()
            &&& ns.piece == side_of(size, ns.side_n as int)
        } by {
            if t < a.len() {
                assert(real_sides_upto(size, inv, n)[t] == a[t]);
            } else {
                assert(real_sides_upto(size, inv, n)[t] == b[t - a.len()]);
            }
        }
    }
}

/// Every hypothesized candidate names a face index below three and an axis
/// that can still grow.
proof fn lemma_missing_sides_props(size: Seq<u32>, upd: Seq<bool>, inv: Multiset<Piece>, n: int)
    requires
        0 <= n <= 3,
        size.len() == 3,
    ensures
        forall|t: int|
            0 <= t < missing_sides_upto(size, upd, inv, n).len() ==> {
                let ns = #[trigger] missing_sides_upto(size, upd, inv, n)[t];
                &&& ns.side_n < 3
                &&& size[ns.side_n as int] < u32::MAX
                &&& ns.is_added
                &&& ns.piece == side_of(size, ns.side_n as int)
            },
    decreases n,
{
    if n > 0 {
        lemma_missing_sides_props(size, upd, inv, n - 1);
        let a = missing_sides_upto(size, upd, inv, n - 1);
        let ab = a + opt_side(miss_cand_a(size, upd, inv, n - 1), miss_side_a(size, n - 1));
        assert forall|t: int| 0 <= t < missing_sides_upto(size, upd, inv, n).len() implies {
            let ns = #[trigger] missing_sides_upto(size, upd, inv, n)[t];
            &&& ns.side_n < 3
            &&& size[ns.side_n as int] < u32::MAX
            &&& ns.is_added
            &&& ns.piece == side_of(size, ns.side_n as int)
        } by {
            let s = missing_sides_upto(size, upd, inv, n);
            if t < a.len() {
                assert(s[t] == a[t]);
            } else if t < ab.len() {
                assert(s[t] == miss_side_a(size, n - 1));
            } else {
                assert(s[t] == miss_side_b(size, n - 1));
            }
        }
    }
}

/// What holds of every candidate one step pursues: a face index below three
/// naming an axis that can still grow, a piece that is exactly the face it
/// grows, and — for a real candidate — that the piece is available and
/// well-formed. When any real candidate exists, every pursued candidate is
/// real.
pub proof fn lemma_chosen_sides_props(size: Seq<u32>, inv: Multiset<Piece>, fm: bool)
    requires
        pool_wf(inv),
        size.len() == 3,
    ensures
        forall|t: int|
            0 <= t < chosen_sides(size, inv, fm).len() ==> {
                let ns = #[trigger] chosen_sides(size, inv, fm)[t];
                &&& ns.side_n < 3
                &&& size[ns.side_n as int] < u32::MAX
                &&& ns.piece == side_of(size, ns.side_n as int)
                &&& (!ns.is_added ==> inv.count(ns.piece) > 0 && ns.piece.wf())
            },
        real_sides(size, inv).len() > 0 ==> forall|t: int|
            0 <= t < chosen_sides(size, inv, fm).len() ==> !(#[trigger] chosen_sides(
                size,
                inv,
                fm,
            )[t]).is_added,
{
    lemma_real_sides_props(size, inv, 3);
    lemma_missing_sides_props(size, cand_bits(size, inv), inv, 3);
}

/// A freshly seeded branch — block `[p, q, 0]` for a well-formed start piece
/// `(p, q)` still available in its inventory — always has a real growth
/// candidate: its top face is the start piece itself.
pub proof fn lemma_seed_real_candidate(size: Seq<u32>, inv: Multiset<Piece>, start: Piece)
    requires
        start.wf(),
        size == seq![start.0, start.1, 0u32],
        inv.count(start) > 0,
    ensures
        real_sides(size, inv).len() > 0,
{
    assert(side_of(size, 2) == start);
    assert(side_of(size, 0) == Piece::canon(start.1, 0));
    assert(side_of(size, 1) == Piece::canon(start.0, 0));
    assert(real_cand(size, inv, 2));
    assert(real_sides_upto(size, inv, 3).len() >= opt_side(
        real_cand(size, inv, 2),
        NewSide { side_n: 2, piece: side_of(size, 2), is_added: false },
    ).len());
}

impl Cheese {
    /// Builds the successor branch for one candidate: grows the block along
    /// the candidate's axis, extends the history, and — for a real candidate —
    /// consumes one unit of its piece from the given inventory view.
    fn make_branch(&self, new_side: NewSide, path: &PrevPieces, pieces: Box<PiecesMap>) -> (r:
        PossPath)
        requires
            path.wf(),
            pieces.wf(),
            path.len < usize::MAX,
            path.n_added < u32::MAX,
            new_side.side_n < 3,
            self.size@[new_side.side_n as int] < u32::MAX,
            !new_side.is_added ==> pieces.ms().count(new_side.piece) > 0 && new_side.piece.wf(),
        ensures
            r.is_succ(*self, *path, *pieces, new_side),
            r.pieces_left.wf(),
            r.prev_pieces.wf(),
    {
        let ghost pm0 = *pieces;
        let mut pieces = pieces;
        let new_path = if new_side.is_added {
            path.extend_added(new_side.piece)
        } else {
            proof {
                lemma_pm_count(pm0, new_side.piece);
            }
            let n = *pieces.get(&new_side.piece).unwrap();
            pieces.insert(new_side.piece, n - 1);
            path.extend_real(new_side.piece)
        };
        let new_cheese = self.expand_side(new_side.side_n);
        let r = PossPath::new(new_cheese, new_path, pieces);
        proof {
            assert(r.cheese.wf());
            broadcast use vstd::multiset::group_multiset_axioms;

            if !new_side.is_added {
                assert forall|q: Piece|
                    r.pieces_left.ms().count(q) == pm0.ms().remove(new_side.piece).count(q) by {
                    lemma_pm_count(pm0, q);
                    lemma_pm_count(*r.pieces_left, q);
                }
                assert(r.pieces_left.ms() =~= pm0.ms().remove(new_side.piece));
            }
        }
        r
    }

    /// Turns the candidates of one step into successor branches, in candidate
    /// order. The last candidate takes over the caller's inventory value — no
    /// further branch needs it — while each earlier one receives an
    /// independent branch copy.
    pub fn new_sides_to_poss_path(
        &self,
        sides: Vec<NewSide>,
        path: PrevPieces,
        pieces: Box<PiecesMap>,
    ) -> (r: Vec<PossPath>)
        requires
            path.wf(),
            pieces.wf(),
            path.len < usize::MAX,
            path.n_added < u32::MAX,
            forall|t: int|
                0 <= t < sides@.len() ==> {
                    let ns = #[trigger] sides@[t];
                    &&& ns.side_n < 3
                    &&& self.size@[ns.side_n as int] < u32::MAX
                    &&& (!ns.is_added ==> pieces.ms().count(ns.piece) > 0 && ns.piece.wf())
                },
        ensures
            r@.len() == sides@.len(),
            forall|t: int|
                0 <= t < r@.len() ==> (#[trigger] r@[t]).is_succ(*self, path, *pieces, sides@[t]),
    {
        let ghost pm0 = *pieces;
        let n_side = sides.len();
        let mut pieces = pieces;
        let mut r: Vec<PossPath> = Vec::new();
        let mut i: usize = 0;
        while i + 1 < n_side
            invariant
                n_side == sides@.len(),
                n_side > 0 ==> i < n_side,
                n_side == 0 ==> i == 0,
                path.wf(),
                pieces.wf(),
                path.len < usize::MAX,
                path.n_added < u32::MAX,
                pieces.ms() == pm0.ms(),
                pm0.wf(),
                forall|t: int|
                    0 <= t < sides@.len() ==> {
                        let ns = #[trigger] sides@[t];
                        &&& ns.side_n < 3
                        &&& self.size@[ns.side_n as int] < u32::MAX
                        &&& (!ns.is_added ==> pm0.ms().count(ns.piece) > 0 && ns.piece.wf())
                    },
                r@.len() == i,
                forall|t: int|
                    0 <= t < i ==> (#[trigger] r@[t]).is_succ(*self, path, pm0, sides@[t]),
            decreases n_side - i,
        {
            let new_side = sides[i];
            let copy = Box::new(pieces.make_copy());
            let b = self.make_branch(new_side, &path, copy);
            proof {
                assert(b.is_succ(*self, path, pm0, new_side));
            }
            r.push(b);
            i += 1;
        }
        if n_side > 0 {
            let new_side = sides[n_side - 1];
            let b = self.make_branch(new_side, &path, pieces);
            proof {
                assert(b.is_succ(*self, path, pm0, new_side));
            }
            r.push(b);
        }
        r
    }

    /// One expansion step of a branch: finds the real growth candidates — or,
    /// when there are none and inference is enabled, the hypothesized ones —
    /// and produces one successor branch per candidate. A branch whose history
    /// counters would overflow cannot be extended further.
    pub fn gen_poss_paths(&self, path: PrevPieces, pieces: Box<PiecesMap>, find_missing: bool) -> (r:
        Vec<PossPath>)
        requires
            path.wf(),
            pieces.wf(),
        ensures
            path.len < usize::MAX && path.n_added < u32::MAX ==> {
                let cs = chosen_sides(self.size@, pieces.ms(), find_missing);
                &&& r@.len() == cs.len()
                &&& forall|t: int|
                    0 <= t < r@.len() ==> (#[trigger] r@[t]).is_succ(*self, path, *pieces, cs[t])
            },
            !(path.len < usize::MAX && path.n_added < u32::MAX) ==> r@.len() == 0,
    {
        if path.len == usize::MAX || path.n_added == u32::MAX {
            return Vec::new();
        }
        let (updated_sides, new_sides) = self.find_new_sides(&pieces);
        let mut sides = new_sides;
        if sides.len() == 0 && find_missing {
            proof {
                assert(updated_sides@ =~= cand_bits(self.size@, pieces.ms()));
            }
            sides = self.find_missing(updated_sides, &pieces);
        }
        proof {
            assert(sides@ == chosen_sides(self.size@, pieces.ms(), find_missing));
            lemma_wf_pool(*pieces);
            lemma_real_sides_props(self.size@, pieces.ms(), 3);
            lemma_missing_sides_props(self.size@, cand_bits(self.size@, pieces.ms()), pieces.ms(), 3);
        }
        if sides.len() > 0 {
            self.new_sides_to_poss_path(sides, path, pieces)
        } else {
            Vec::new()
        }
    }
}

} // verus!
