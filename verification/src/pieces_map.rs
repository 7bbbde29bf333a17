//! The inventory of remaining slices: a multiset of pieces split into a
//! shared, immutable base layer and a per-branch overlay, so that branching
//! the search copies only the overlay.

use std::rc::Rc;

use rustc_hash::FxHashMap;
use vstd::multiset::Multiset;
use vstd::prelude::*;
use vstd::set_lib::lemma_len_subset;

use crate::cheese::Piece;

verus! {

#[verifier::external_type_specification]
#[verifier::external_body]
pub struct ExFxBuildHasher(rustc_hash::FxBuildHasher);

/// Relies on std's `HashMap::get` with rustc_hash's `FxBuildHasher`, keyed by
/// `Piece`'s derived structural `Eq`/`Hash`: returns the entry stored under
/// `k`, if any.
#[verifier::external_body]
fn fx_get<'a>(m: &'a FxHashMap<Piece, u32>, k: &Piece) -> (r: Option<&'a u32>)
    ensures
        match r {
            Some(v) => m@.contains_key(*k) && *v == m@[*k],
            None => !m@.contains_key(*k),
        },
{
    m.get(k)
}

/// Relies on std's `HashMap::insert` with rustc_hash's `FxBuildHasher`:
/// stores `v` under `k` and returns the value it replaced, if any.
#[verifier::external_body]
fn fx_insert(m: &mut FxHashMap<Piece, u32>, k: Piece, v: u32) -> (r: Option<u32>)
    ensures
        final(m)@ == old(m)@.insert(k, v),
        match r {
            Some(w) => old(m)@.contains_key(k) && w == old(m)@[k],
            None => !old(m)@.contains_key(k),
        },
{
    m.insert(k, v)
}

/// Relies on std's `HashMap::remove` with rustc_hash's `FxBuildHasher`:
/// removes the entry under `k` and returns its value, if any.
#[verifier::external_body]
fn fx_remove(m: &mut FxHashMap<Piece, u32>, k: &Piece) -> (r: Option<u32>)
    ensures
        final(m)@ == old(m)@.remove(*k),
        match r {
            Some(w) => old(m)@.contains_key(*k) && w == old(m)@[*k],
            None => !old(m)@.contains_key(*k),
        },
{
    m.remove(k)
}

/// Relies on std's `HashMap::len`: the number of entries in the map.
#[verifier::external_body]
fn fx_len(m: &FxHashMap<Piece, u32>) -> (n: usize)
    ensures
        n == m@.len(),
{
    m.len()
}

/// Relies on std's `HashMap::iter`: it visits every entry exactly once, in an
/// unspecified order. The returned vector holds exactly the map's entries.
#[verifier::external_body]
fn fx_entries(m: &FxHashMap<Piece, u32>) -> (r: Vec<(Piece, u32)>)
    ensures
        forall|i: int|
            0 <= i < r@.len() ==> m@.contains_key((#[trigger] r@[i]).0) && m@[r@[i].0] == r@[i].1,
        forall|i: int, j: int| 0 <= i < j < r@.len() ==> r@[i].0 != r@[j].0,
        forall|k: Piece| #[trigger]
            m@.contains_key(k) ==> exists|i: int| 0 <= i < r@.len() && (#[trigger] r@[i]).0 == k,
{
    m.iter().map(|(k, v)| (*k, *v)).collect()
}

/// Relies on uuid's `Uuid::new_v4`: a freshly generated random identifier.
/// Nothing is promised of its value.
#[verifier::external_body]
fn fresh_base_id() -> u128 {
    uuid::Uuid::new_v4().as_u128()
}

/// The multiset described by a count map: each key occurs as often as its
/// count says; zero counts and absent keys alike mean "not present".
pub open spec fn counts_ms(m: Map<Piece, u32>) -> Multiset<Piece> {
    Multiset::from_map(
        Map::new(|p: Piece| m.contains_key(p) && m[p] > 0, |p: Piece| m[p] as nat),
    )
}

/// What `counts_ms` counts for each piece.
pub broadcast proof fn lemma_counts_ms_count(m: Map<Piece, u32>, p: Piece)
    requires
        m.dom().finite(),
    ensures
        #[trigger] counts_ms(m).count(p) == if m.contains_key(p) && m[p] > 0 {
            m[p] as nat
        } else {
            0
        },
{
    broadcast use vstd::multiset::group_multiset_axioms;

    let g = Map::new(|q: Piece| m.contains_key(q) && m[q] > 0, |q: Piece| m[q] as nat);
    assert(g.dom().subset_of(m.dom()));
    lemma_len_subset(g.dom(), m.dom());
}

/// The pool of slices still available, as a copy-on-write layered multiset:
/// `base` is shared between branches and never mutated once published, while
/// `added` is a private overlay holding the entries that differ from `base`.
/// `base_id` tags the base layer so two inventories sharing it can be told
/// apart cheaply from ones that do not.
#[derive(Debug)]
pub struct PiecesMap {
    pub base: Rc<FxHashMap<Piece, u32>>,
    pub base_id: u128,
    pub added: FxHashMap<Piece, u32>,
}

impl PiecesMap {
    /// The merged per-piece count: the overlay wins, the base is the fallback,
    /// and an absent piece counts zero.
    pub open spec fn spec_count(self, p: Piece) -> u32 {
        if self.added@.contains_key(p) {
            self.added@[p]
        } else if self.base@.contains_key(p) {
            self.base@[p]
        } else {
            0u32
        }
    }

    /// The reconciled count map: every piece with a positive merged count.
    pub open spec fn merged(self) -> Map<Piece, u32> {
        Map::new(|p: Piece| self.spec_count(p) > 0, |p: Piece| self.spec_count(p))
    }

    /// The inventory as a multiset of slices.
    pub open spec fn ms(self) -> Multiset<Piece> {
        counts_ms(self.merged())
    }

    /// Internal invariant: both layers are finite, hold only canonical
    /// positive pieces, and the base stores no zero counts.
    pub open spec fn wf(self) -> bool {
        &&& self.base@.dom().finite()
        &&& self.added@.dom().finite()
        &&& forall|p: Piece| #[trigger]
            self.base@.contains_key(p) ==> p.wf() && self.base@[p] >= 1
        &&& forall|p: Piece| #[trigger] self.added@.contains_key(p) ==> p.wf()
    }
}

impl PiecesMap {
    /// Publishes a reconciled count map as the base layer of a fresh
    /// inventory, under a new base identity and with an empty overlay.
    pub fn new_from_map(map: FxHashMap<Piece, u32>) -> (r: Self)
        requires
            map@.dom().finite(),
            forall|p: Piece| #[trigger] map@.contains_key(p) ==> p.wf() && map@[p] >= 1,
        ensures
            r.wf(),
            r.base@ == map@,
            r.added@ == Map::<Piece, u32>::empty(),
            r.ms() == counts_ms(map@),
    {
        let base_id = fresh_base_id();
        let r = Self { base: Rc::new(map), base_id, added: FxHashMap::default() };
        proof {
            assert(r.added@ == Map::<Piece, u32>::empty());
            assert(r.base@ == map@);
            assert forall|q: Piece| counts_ms(r.merged()).count(q) == counts_ms(map@).count(q) by {
                lemma_merged_finite(r);
                lemma_counts_ms_count(r.merged(), q);
                lemma_counts_ms_count(map@, q);
            }
            assert(counts_ms(r.merged()) =~= counts_ms(map@)) by {
                broadcast use vstd::multiset::group_multiset_axioms;

            }
        }
        r
    }

    /// The stored count for `k`, the overlay taking precedence over the base;
    /// `None` means neither layer has an entry.
    pub fn get(&self, k: &Piece) -> (r: Option<&u32>)
        ensures
            match r {
                Some(v) => (self.added@.contains_key(*k) || self.base@.contains_key(*k)) && *v
                    == self.spec_count(*k),
                None => !self.added@.contains_key(*k) && !self.base@.contains_key(*k),
            },
    {
        if let Some(result) = fx_get(&self.added, k) {
            Some(result)
        } else {
            fx_get(&self.base, k)
        }
    }

    /// Sets the count of `k` to `v`, writing only into the overlay; the shared
    /// base layer is untouched. Returns the overlay value it replaced, if any.
    pub fn insert(&mut self, k: Piece, v: u32) -> (r: Option<u32>)
        requires
            old(self).wf(),
            k.wf(),
        ensures
            final(self).wf(),
            final(self).base == old(self).base,
            final(self).base_id == old(self).base_id,
            final(self).added@ == old(self).added@.insert(k, v),
            forall|p: Piece| #[trigger]
                final(self).spec_count(p) == if p == k {
                    v
                } else {
                    old(self).spec_count(p)
                },
            match r {
                Some(w) => old(self).added@.contains_key(k) && w == old(self).added@[k],
                None => !old(self).added@.contains_key(k),
            },
    {
        fx_insert(&mut self.added, k, v)
    }
}

impl PiecesMap {
    /// Builds the root inventory from a list of slices: each distinct piece is
    /// stored with the number of times it occurs in the list.
    pub fn new(pieces: &Vec<Piece>) -> (r: PiecesMap)
        requires
            forall|i: int| 0 <= i < pieces@.len() ==> (#[trigger] pieces@[i]).wf(),
            pieces@.len() <= u32::MAX,
        ensures
            r.wf(),
            r.added@ == Map::<Piece, u32>::empty(),
            r.ms() == pieces@.to_multiset(),
    {
        broadcast use vstd::multiset::group_multiset_axioms;

        let mut map: FxHashMap<Piece, u32> = FxHashMap::default();
        proof {
            assert(pieces@.subrange(0, 0).to_multiset() =~= Multiset::<Piece>::empty()) by {
                pieces@.subrange(0, 0).to_multiset_ensures();
                vstd::multiset::lemma_multiset_empty_len(pieces@.subrange(0, 0).to_multiset());
            }
            assert forall|q: Piece| counts_ms(map@).count(q) == 0 by {
                lemma_counts_ms_count(map@, q);
            }
            assert(counts_ms(map@) =~= pieces@.subrange(0, 0).to_multiset());
        }
        let mut i: usize = 0;
        while i < pieces.len()
            invariant
                forall|t: int| 0 <= t < pieces@.len() ==> (#[trigger] pieces@[t]).wf(),
                pieces@.len() <= u32::MAX,
                i <= pieces@.len(),
                map@.dom().finite(),
                forall|p: Piece| #[trigger] map@.contains_key(p) ==> p.wf() && 1 <= map@[p] <= i,
                counts_ms(map@) == pieces@.subrange(0, i as int).to_multiset(),
            decreases pieces@.len() - i,
        {
            broadcast use vstd::multiset::group_multiset_axioms;

            let ghost prev = map@;
            let piece = pieces[i];
            let n: u32 = match fx_get(&map, &piece) {
                Some(c) => *c + 1,
                None => 1,
            };
            fx_insert(&mut map, piece, n);
            proof {
                let pre = pieces@.subrange(0, i as int);
                let post = pieces@.subrange(0, i as int + 1);
                assert(post =~= pre.push(piece));
                pre.to_multiset_ensures();
                assert(post.to_multiset() =~= pre.to_multiset().insert(piece));
                assert forall|q: Piece|
                    counts_ms(map@).count(q) == post.to_multiset().count(q) by {
                    lemma_counts_ms_count(prev, q);
                    lemma_counts_ms_count(map@, q);
                }
                assert(counts_ms(map@) =~= post.to_multiset());
            }
            i += 1;
        }
        proof {
            assert(pieces@.subrange(0, pieces@.len() as int) =~= pieces@);
        }
        PiecesMap::new_from_map(map)
    }

    /// Reconciles the overlay into the base: the result maps exactly the
    /// pieces with a positive merged count to that count.
    fn merge_hashmaps(&self) -> (r: FxHashMap<Piece, u32>)
        requires
            self.wf(),
        ensures
            r@ == self.merged(),
    {
        let mut new_map: FxHashMap<Piece, u32> = FxHashMap::default();
        let added_entries = fx_entries(&self.added);
        let ghost ae = added_entries@;
        let mut i: usize = 0;
        while i < added_entries.len()
            invariant
                self.wf(),
                ae == added_entries@,
                i <= ae.len(),
                forall|t: int|
                    0 <= t < ae.len() ==> self.added@.contains_key((#[trigger] ae[t]).0)
                        && self.added@[ae[t].0] == ae[t].1,
                new_map@.dom().finite(),
                forall|p: Piece| #[trigger]
                    new_map@.contains_key(p) ==> self.added@.contains_key(p) && self.added@[p] > 0
                        && new_map@[p] == self.added@[p],
                forall|t: int|
                    0 <= t < i && (#[trigger] ae[t]).1 > 0 ==> new_map@.contains_key(ae[t].0),
            decreases ae.len() - i,
        {
            let (k, v) = added_entries[i];
            if v > 0 {
                fx_insert(&mut new_map, k, v);
            }
            i += 1;
        }
        let base_entries = fx_entries(&self.base);
        let ghost be = base_entries@;
        proof {
            assert forall|p: Piece|
                self.added@.contains_key(p) && self.added@[p] > 0 implies new_map@.contains_key(
                p,
            ) by {
                let t = choose|t: int| 0 <= t < ae.len() && (#[trigger] ae[t]).0 == p;
                assert(ae[t].1 > 0);
            }
        }
        let ghost after_added = new_map@;
        let mut j: usize = 0;
        while j < base_entries.len()
            invariant
                self.wf(),
                be == base_entries@,
                j <= be.len(),
                forall|t: int|
                    0 <= t < be.len() ==> self.base@.contains_key((#[trigger] be[t]).0)
                        && self.base@[be[t].0] == be[t].1,
                new_map@.dom().finite(),
                forall|p: Piece|
                    self.added@.contains_key(p) && self.added@[p] > 0
                        ==> new_map@.contains_key(p),
                forall|p: Piece| #[trigger]
                    new_map@.contains_key(p) ==> self.spec_count(p) > 0 && new_map@[p]
                        == self.spec_count(p),
                forall|t: int|
                    0 <= t < j && !self.added@.contains_key((#[trigger] be[t]).0) && be[t].1 > 0
                        ==> new_map@.contains_key(be[t].0),
            decreases be.len() - j,
        {
            let (k, v) = base_entries[j];
            if fx_get(&self.added, &k).is_none() && v > 0 {
                fx_insert(&mut new_map, k, v);
            }
            j += 1;
        }
        proof {
            assert forall|p: Piece| self.spec_count(p) > 0 implies new_map@.contains_key(p) by {
                if !self.added@.contains_key(p) {
                    assert(self.base@.contains_key(p));
                    let t = choose|t: int| 0 <= t < be.len() && (#[trigger] be[t]).0 == p;
                    assert(be[t].1 > 0);
                }
            }
            assert(new_map@ =~= self.merged());
        }
        new_map
    }

    /// Folds the overlay into a fresh base layer, published under a new base
    /// identity; the merged contents — and so the total slice count — are
    /// exactly what they were before the fold.
    fn merge(&mut self)
        requires
            old(self).wf(),
        ensures
            final(self).wf(),
            final(self).ms() == old(self).ms(),
            final(self).ms().len() == old(self).ms().len(),
            final(self).added@ == Map::<Piece, u32>::empty(),
            final(self).base@ == old(self).merged(),
    {
        let ghost before = *self;
        let base = self.merge_hashmaps();
        proof {
            lemma_merged_finite(*self);
        }
        self.base = Rc::new(base);
        self.base_id = fresh_base_id();
        self.added = FxHashMap::default();
        proof {
            assert forall|p: Piece| #[trigger]
                self.spec_count(p) == before.spec_count(p) by {}
            assert(self.merged() =~= before.merged());
        }
    }

    /// An independent copy for a new branch: the base layer is shared by
    /// reference — the copy and the source keep the same base and base
    /// identity, and only their private overlays can diverge afterwards. When
    /// the overlay has outgrown a fixed fraction of the base, the overlay is
    /// first folded into a fresh base. Neither the copy nor the folded
    /// original changes the merged contents.
    pub fn make_copy(&mut self) -> (r: Self)
        requires
            old(self).wf(),
        ensures
            final(self).wf(),
            r.wf(),
            final(self).ms() == old(self).ms(),
            final(self).ms().len() == old(self).ms().len(),
            r.ms() == old(self).ms(),
            r.base == final(self).base,
            r.base_id == final(self).base_id,
            r.added@ == final(self).added@,
    {
        if fx_len(&self.added) > fx_len(&self.base) / 10 {
            self.merge();
        }
        self.clone()
    }

    /// A fresh inventory with one unit of each listed piece subtracted from
    /// the fully reconciled contents; pieces that are not present are skipped,
    /// and counts that reach zero are dropped.
    pub fn clone_without(&self, removed: &Vec<Piece>) -> (r: Self)
        requires
            self.wf(),
        ensures
            r.wf(),
            r.added@ == Map::<Piece, u32>::empty(),
            r.ms() == self.ms().sub(removed@.to_multiset()),
    {
        broadcast use vstd::multiset::group_multiset_axioms;

        let mut new_map = self.merge_hashmaps();
        proof {
            lemma_merged_finite(*self);
            assert(removed@.subrange(0, 0).to_multiset() =~= Multiset::<Piece>::empty()) by {
                removed@.subrange(0, 0).to_multiset_ensures();
                vstd::multiset::lemma_multiset_empty_len(removed@.subrange(0, 0).to_multiset());
            }
            assert forall|q: Piece|
                counts_ms(new_map@).count(q) == self.ms().sub(
                    removed@.subrange(0, 0).to_multiset(),
                ).count(q) by {
                lemma_counts_ms_count(new_map@, q);
                lemma_counts_ms_count(self.merged(), q);
            }
            assert(counts_ms(new_map@) =~= self.ms().sub(removed@.subrange(0, 0).to_multiset()));
        }
        let mut i: usize = 0;
        while i < removed.len()
            invariant
                self.wf(),
                i <= removed@.len(),
                new_map@.dom().finite(),
                forall|p: Piece| #[trigger]
                    new_map@.contains_key(p) ==> p.wf() && new_map@[p] >= 1,
                counts_ms(new_map@) == self.ms().sub(removed@.subrange(0, i as int).to_multiset()),
            decreases removed@.len() - i,
        {
            broadcast use vstd::multiset::group_multiset_axioms;

            let ghost prev = new_map@;
            let piece = removed[i];
            match fx_get(&new_map, &piece) {
                Some(c) => {
                    let v = *c;
                    if v > 1 {
                        fx_insert(&mut new_map, piece, v - 1);
                    } else {
                        fx_remove(&mut new_map, &piece);
                    }
                },
                None => {},
            }
            proof {
                let pre = removed@.subrange(0, i as int);
                let post = removed@.subrange(0, i as int + 1);
                assert(post =~= pre.push(piece));
                pre.to_multiset_ensures();
                assert(post.to_multiset() =~= pre.to_multiset().insert(piece));
                assert forall|q: Piece|
                    counts_ms(new_map@).count(q) == self.ms().sub(post.to_multiset()).count(
                        q,
                    ) by {
                    lemma_counts_ms_count(prev, q);
                    lemma_counts_ms_count(new_map@, q);
                }
                assert(counts_ms(new_map@) =~= self.ms().sub(post.to_multiset()));
            }
            i += 1;
        }
        proof {
            assert(removed@.subrange(0, removed@.len() as int) =~= removed@);
        }
        Self::new_from_map(new_map)
    }

    /// The distinct pieces stored in the base layer, each exactly once, in no
    /// particular order.
    pub fn base_pieces(&self) -> (r: Vec<Piece>)
        ensures
            forall|i: int| 0 <= i < r@.len() ==> self.base@.contains_key(#[trigger] r@[i]),
            forall|i: int, j: int| 0 <= i < j < r@.len() ==> r@[i] != r@[j],
            forall|k: Piece| #[trigger] self.base@.contains_key(k) ==> r@.contains(k),
    {
        let entries = fx_entries(&self.base);
        let ghost es = entries@;
        let mut r: Vec<Piece> = Vec::new();
        let mut i: usize = 0;
        while i < entries.len()
            invariant
                es == entries@,
                i <= es.len(),
                r@.len() == i,
                forall|t: int|
                    0 <= t < es.len() ==> self.base@.contains_key((#[trigger] es[t]).0),
                forall|t: int, u: int| 0 <= t < u < es.len() ==> es[t].0 != es[u].0,
                forall|t: int| 0 <= t < i ==> r@[t] == (#[trigger] es[t]).0,
            decreases es.len() - i,
        {
            let (k, _) = entries[i];
            r.push(k);
            i += 1;
        }
        proof {
            assert forall|t: int| 0 <= t < r@.len() implies self.base@.contains_key(
                #[trigger] r@[t],
            ) by {
                assert(r@[t] == es[t].0);
            }
            assert forall|t: int, u: int| 0 <= t < u < r@.len() implies r@[t] != r@[u] by {
                assert(r@[t] == es[t].0 && r@[u] == es[u].0);
            }
            assert forall|k: Piece| #[trigger]
                self.base@.contains_key(k) implies r@.contains(k) by {
                let t = choose|t: int| 0 <= t < es.len() && (#[trigger] es[t]).0 == k;
                assert(r@[t] == k);
            }
        }
        r
    }
}

impl Clone for PiecesMap {
    /// A shallow copy: the base layer is shared by reference, only the
    /// overlay's entries are duplicated. The merged contents are unchanged.
    fn clone(&self) -> (r: Self)
        ensures
            r.base == self.base,
            r.base_id == self.base_id,
            r.added@ == self.added@,
            forall|p: Piece| #[trigger] r.spec_count(p) == self.spec_count(p),
            r.ms() == self.ms(),
            r.wf() == self.wf(),
    {
        let r = Self {
            base: crate::rc_clone(&self.base),
            base_id: self.base_id,
            added: self.added.clone(),
        };
        proof {
            assert(r.merged() =~= self.merged());
        }
        r
    }
}

/// The reconciled map of a well-formed inventory has finitely many entries.
pub broadcast proof fn lemma_merged_finite(m: PiecesMap)
    requires
        m.base@.dom().finite(),
        m.added@.dom().finite(),
    ensures
        #[trigger] m.merged().dom().finite(),
{
    assert(m.merged().dom().subset_of(m.base@.dom().union(m.added@.dom())));
    lemma_len_subset(m.merged().dom(), m.base@.dom().union(m.added@.dom()));
}

/// A pool of slices that holds only canonical positive pieces.
pub open spec fn pool_wf(inv: Multiset<Piece>) -> bool {
    forall|p: Piece| #[trigger] inv.count(p) > 0 ==> p.wf()
}

/// A well-formed inventory's multiset holds only canonical positive pieces.
pub proof fn lemma_wf_pool(m: PiecesMap)
    requires
        m.wf(),
    ensures
        pool_wf(m.ms()),
{
    assert forall|p: Piece| #[trigger] m.ms().count(p) > 0 implies p.wf() by {
        lemma_pm_count(m, p);
    }
}

/// A well-formed inventory holds each piece exactly as often as its merged
/// count says.
pub broadcast proof fn lemma_pm_count(m: PiecesMap, p: Piece)
    requires
        m.wf(),
    ensures
        #[trigger] m.ms().count(p) == m.spec_count(p) as nat,
{
    lemma_merged_finite(m);
    lemma_counts_ms_count(m.merged(), p);
}

} // verus!
