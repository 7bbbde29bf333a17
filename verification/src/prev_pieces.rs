//! The persistent history of one search branch: an append-only chain of
//! consumed slices, shared structurally between branches that diverge late.

use std::rc::Rc;

use vstd::prelude::*;

use crate::cheese::Piece;
use crate::rc_clone;

verus! {

/// The pieces of the real (not hypothesized) entries of a history segment, in
/// segment order.
pub open spec fn real_values(s: Seq<(Piece, bool)>) -> Seq<Piece>
    decreases s.len(),
{
    if s.len() == 0 {
        Seq::empty()
    } else if !s.first().1 {
        seq![s.first().0] + real_values(s.drop_first())
    } else {
        real_values(s.drop_first())
    }
}

/// The pieces of all entries of a history segment, in segment order.
pub open spec fn all_values(s: Seq<(Piece, bool)>) -> Seq<Piece> {
    s.map_values(|e: (Piece, bool)| e.0)
}

/// There are never more real entries than entries.
pub proof fn lemma_real_values_len(s: Seq<(Piece, bool)>)
    ensures
        real_values(s).len() <= s.len(),
    decreases s.len(),
{
    if s.len() > 0 {
        lemma_real_values_len(s.drop_first());
    }
}

/// Appending one entry appends its piece to the real pieces exactly when the
/// entry is real.
pub proof fn lemma_real_values_push(s: Seq<(Piece, bool)>, e: (Piece, bool))
    ensures
        real_values(s.push(e)) == if !e.1 {
            real_values(s).push(e.0)
        } else {
            real_values(s)
        },
    decreases s.len(),
{
    if s.len() == 0 {
        assert(s.push(e).first() == e);
        assert(s.push(e).drop_first() =~= Seq::empty());
        assert(real_values(Seq::<(Piece, bool)>::empty()) =~= Seq::<Piece>::empty());
        if !e.1 {
            assert(real_values(s.push(e)) =~= real_values(s).push(e.0));
        } else {
            assert(real_values(s.push(e)) =~= real_values(s));
        }
    } else {
        assert(s.push(e).first() == s.first());
        assert(s.push(e).drop_first() =~= s.drop_first().push(e));
        lemma_real_values_push(s.drop_first(), e);
        if !e.1 {
            assert(real_values(s.push(e)) =~= real_values(s).push(e.0));
        } else {
            assert(real_values(s.push(e)) =~= real_values(s));
        }
    }
}

/// One node of the history chain: the appended piece, whether it was only
/// hypothesized ("added"), and a shared reference to its predecessor.
#[derive(Debug)]
pub struct HistPoint {
    pub prev: Option<Rc<HistPoint>>,
    pub value: Piece,
    pub is_added: bool,
}

impl HistPoint {
    /// Every entry from the root of the chain to this node, oldest first:
    /// the piece, and whether it was hypothesized.
    pub open spec fn entries(&self) -> Seq<(Piece, bool)>
        decreases self,
    {
        match self.prev {
            None => seq![(self.value, self.is_added)],
            Some(p) => p.entries().push((self.value, self.is_added)),
        }
    }

    /// A fresh root node holding the branch's start piece.
    fn new(value: Piece) -> (r: Self)
        ensures
            r.entries() == seq![(value, false)],
    {
        Self { prev: None, value, is_added: false }
    }

    /// A new head node extending this chain by one entry; the existing chain
    /// is shared, not copied.
    fn make_next(self: &Rc<Self>, value: Piece, is_added: bool) -> (r: Rc<Self>)
        ensures
            r.entries() == self.entries().push((value, is_added)),
    {
        Rc::new(Self { prev: Some(rc_clone(self)), value, is_added })
    }

    /// The real (consumed, not hypothesized) pieces of this chain, newest
    /// first; the root entry — the branch's start piece — is not part of it.
    pub fn get_real_pieces(self: &Rc<HistPoint>) -> (r: Vec<Piece>)
        ensures
            r@ == real_values(self.entries().drop_first()).reverse(),
    {
        let ghost full = self.entries();
        let mut r: Vec<Piece> = Vec::new();
        let mut node: &HistPoint = &**self;
        let ghost k = full.len() as int;
        loop
            invariant_except_break
                1 <= k <= full.len(),
                node.entries() == full.take(k),
                r@ == real_values(full.subrange(k, full.len() as int)).reverse(),
            ensures
                r@ == real_values(full.drop_first()).reverse(),
            decreases k,
        {
            match &node.prev {
                Some(p) => {
                    proof {
                        assert(node.entries() == p.entries().push((node.value, node.is_added)));
                        assert(full.take(k).drop_last() =~= full.take(k - 1));
                        assert(p.entries() == full.take(k - 1));
                        assert(full.take(k).last() == full[k - 1]);
                        assert(full[k - 1] == (node.value, node.is_added));
                    }
                    if !node.is_added {
                        r.push(node.value);
                    }
                    proof {
                        let lo = full.subrange(k - 1, full.len() as int);
                        let hi = full.subrange(k, full.len() as int);
                        assert(lo.drop_first() =~= hi);
                        assert(lo.first() == full[k - 1]);
                        if !node.is_added {
                            assert(real_values(lo) == seq![full[k - 1].0] + real_values(hi));
                            assert(real_values(lo).reverse() =~= real_values(hi).reverse().push(
                                full[k - 1].0,
                            ));
                        } else {
                            assert(real_values(lo) == real_values(hi));
                        }
                        k = k - 1;
                    }
                    node = &**p;
                },
                None => {
                    proof {
                        assert(node.entries() =~= seq![(node.value, node.is_added)]);
                        assert(full.take(k).len() == k);
                        assert(k == 1);
                        assert(full.subrange(1, full.len() as int) =~= full.drop_first());
                    }
                    break ;
                },
            }
        }
        r
    }

    /// All pieces of this chain — real and hypothesized — newest first; the
    /// root entry is not part of it.
    pub fn get_pieces(self: &Rc<HistPoint>) -> (r: Vec<Piece>)
        ensures
            r@ == all_values(self.entries().drop_first()).reverse(),
    {
        let ghost full = self.entries();
        let mut r: Vec<Piece> = Vec::new();
        let mut node: &HistPoint = &**self;
        let ghost k = full.len() as int;
        loop
            invariant_except_break
                1 <= k <= full.len(),
                node.entries() == full.take(k),
                r@ == all_values(full.subrange(k, full.len() as int)).reverse(),
            ensures
                r@ == all_values(full.drop_first()).reverse(),
            decreases k,
        {
            match &node.prev {
                Some(p) => {
                    proof {
                        assert(node.entries() == p.entries().push((node.value, node.is_added)));
                        assert(full.take(k).drop_last() =~= full.take(k - 1));
                        assert(p.entries() == full.take(k - 1));
                        assert(full.take(k).last() == full[k - 1]);
                        assert(full[k - 1] == (node.value, node.is_added));
                    }
                    r.push(node.value);
                    proof {
                        assert(all_values(full.subrange(k - 1, full.len() as int)).reverse() =~=
                            all_values(full.subrange(k, full.len() as int)).reverse().push(
                            full[k - 1].0,
                        ));
                        k = k - 1;
                    }
                    node = &**p;
                },
                None => {
                    proof {
                        assert(node.entries() =~= seq![(node.value, node.is_added)]);
                        assert(full.take(k).len() == k);
                        assert(k == 1);
                        assert(full.subrange(1, full.len() as int) =~= full.drop_first());
                    }
                    break ;
                },
            }
        }
        r
    }
}

/// A branch's history: the head of its chain plus summary fields — the start
/// piece, the number of real entries (the root counts as one), and the number
/// of hypothesized entries.
pub struct PrevPieces {
    pub curr: Rc<HistPoint>,
    pub start_piece: Piece,
    pub len: usize,
    pub n_added: u32,
}

impl View for PrevPieces {
    type V = Seq<(Piece, bool)>;

    /// The history as a sequence of entries, oldest first, root included.
    open spec fn view(&self) -> Seq<(Piece, bool)> {
        self.curr.entries()
    }
}

impl PrevPieces {
    /// The entries after the root: what the branch consumed or hypothesized.
    pub open spec fn tail(self) -> Seq<(Piece, bool)> {
        self@.drop_first()
    }

    /// The summary fields agree with the chain: `len` is one more than the
    /// number of real tail entries, `n_added` the number of hypothesized ones,
    /// and the root holds the start piece as a real entry.
    pub open spec fn wf(self) -> bool {
        &&& self@.len() >= 1
        &&& self@[0] == (self.start_piece, false)
        &&& self.len as int == 1 + real_values(self.tail()).len()
        &&& self.n_added as int == self.tail().len() - real_values(self.tail()).len()
    }

    /// A fresh one-entry history holding the start piece.
    pub fn new(value: Piece) -> (r: Self)
        ensures
            r.wf(),
            r@ == seq![(value, false)],
            r.start_piece == value,
            r.len == 1,
            r.n_added == 0,
    {
        let r = Self { curr: Rc::new(HistPoint::new(value)), start_piece: value, len: 1, n_added: 0 };
        proof {
            assert(r.tail() =~= Seq::empty());
        }
        r
    }

    /// The history extended by one real entry: `len` grows by one, `n_added`
    /// is unchanged. The existing chain is shared with this history.
    pub fn extend_real(&self, value: Piece) -> (r: Self)
        requires
            self.wf(),
            self.len < usize::MAX,
        ensures
            r.wf(),
            r@ == self@.push((value, false)),
            r.start_piece == self.start_piece,
            r.len == self.len + 1,
            r.n_added == self.n_added,
    {
        let r = Self {
            curr: self.curr.make_next(value, false),
            start_piece: self.start_piece,
            len: self.len + 1,
            n_added: self.n_added,
        };
        proof {
            assert(r.tail() =~= self.tail().push((value, false)));
            lemma_real_values_push(self.tail(), (value, false));
        }
        r
    }

    /// The history extended by one hypothesized entry: `n_added` grows by one,
    /// `len` is unchanged. The existing chain is shared with this history.
    pub fn extend_added(&self, value: Piece) -> (r: Self)
        requires
            self.wf(),
            self.n_added < u32::MAX,
        ensures
            r.wf(),
            r@ == self@.push((value, true)),
            r.start_piece == self.start_piece,
            r.len == self.len,
            r.n_added == self.n_added + 1,
    {
        let r = Self {
            curr: self.curr.make_next(value, true),
            start_piece: self.start_piece,
            len: self.len,
            n_added: self.n_added + 1,
        };
        proof {
            assert(r.tail() =~= self.tail().push((value, true)));
            lemma_real_values_push(self.tail(), (value, true));
            lemma_real_values_len(self.tail());
        }
        r
    }
}

/// Relies on std's `Rc::new`: the new handle holds exactly the given value.
/// vstd states the same, but without the unwind signature the destructor below
/// needs: on allocation failure Rust aborts, it does not unwind.
#[verifier::external_body]
fn rc_new_no_unwind<T>(t: T) -> (r: Rc<T>)
    ensures
        r == t,
    opens_invariants none
    no_unwind
{
    Rc::new(t)
}

/// Relies on std's `Rc::try_unwrap`: when this is the last handle it returns
/// the value, otherwise the handle comes back unchanged. vstd states the same,
/// but without the unwind signature the destructor below needs: the call
/// cannot panic.
#[verifier::external_body]
fn rc_try_unwrap_no_unwind<T>(rc: Rc<T>) -> (r: Result<T, Rc<T>>)
    ensures
        match r {
            Ok(t) => t == rc,
            Err(e) => e == rc,
        },
    opens_invariants none
    no_unwind
{
    Rc::try_unwrap(rc)
}

impl Drop for PrevPieces {
    /// Releases the history's chain iteratively: each node whose last handle
    /// this was is unlinked from its predecessor and dropped one at a time, so
    /// releasing a long unshared chain needs constant stack space instead of
    /// one recursive release per node.
    fn drop(&mut self)
        opens_invariants none
        no_unwind
    {
        let mut head = rc_new_no_unwind(HistPoint { prev: None, value: Piece(0, 0), is_added: false });
        core::mem::swap(&mut self.curr, &mut head);
        let mut maybe_node: Option<Rc<HistPoint>> = match rc_try_unwrap_no_unwind(head) {
            Ok(h) => h.prev,
            Err(_) => None,
        };
        loop
            invariant
                true,
            decreases
                    (match maybe_node {
                        Some(n) => n.entries().len(),
                        None => 0,
                    }),
        {
            match maybe_node {
                Some(node) => {
                    proof {
                        assert(match node.prev {
                            Some(p) => p.entries().len() < node.entries().len(),
                            None => true,
                        });
                    }
                    maybe_node = match rc_try_unwrap_no_unwind(node) {
                        Ok(h) => h.prev,
                        Err(_) => None,
                    };
                },
                None => {
                    break ;
                },
            }
        }
    }
}

impl Clone for PrevPieces {
    /// Another handle to the same history; the chain is shared, not copied.
    fn clone(&self) -> (r: Self)
        ensures
            r == *self,
    {
        Self {
            curr: rc_clone(&self.curr),
            start_piece: self.start_piece,
            len: self.len,
            n_added: self.n_added,
        }
    }
}

} // verus!
