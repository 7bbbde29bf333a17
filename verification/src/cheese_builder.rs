//! The search engine: branches (block + history + inventory view), pruning,
//! and the round-based drivers that extract blocks from the shared inventory.

use vstd::multiset::Multiset;
use vstd::prelude::*;

use crate::cheese::{
    chosen_sides, expand_of, lemma_chosen_sides_props, lemma_seed_real_candidate,
    lemma_sorted_desc3, side_of, Cheese, NewSide, Piece,
};
use crate::pieces_map::{lemma_pm_count, lemma_wf_pool, PiecesMap};
use crate::prev_pieces::{
    lemma_real_values_len, lemma_real_values_push, real_values, HistPoint, PrevPieces,
};

verus! {

/// One candidate partial reconstruction: the block grown so far, the history
/// of slices it consumed or hypothesized, and its private view of the
/// remaining inventory.
pub struct PossPath {
    pub cheese: Cheese,
    pub prev_pieces: PrevPieces,
    pub pieces_left: Box<PiecesMap>,
}

/// The history describes a valid growth of the block: the block is reachable
/// from its start piece's degenerate block by growing, for each entry after
/// the root in order, one axis whose face is exactly the entry's piece.
pub open spec fn grows_to(hist: Seq<(Piece, bool)>, size: Seq<u32>) -> bool
    decreases hist.len(),
{
    if hist.len() == 0 {
        false
    } else if hist.len() == 1 {
        size == seq![hist[0].0.0, hist[0].0.1, 0u32]
    } else {
        exists|prev: Seq<u32>, n: int|
            #![trigger side_of(prev, n)]
            0 <= n < 3 && grows_to(hist.drop_last(), prev) && hist.last().0 == side_of(prev, n)
                && size == expand_of(prev, n)
    }
}

impl PossPath {
    /// The slices the branch has really consumed, as a multiset.
    pub open spec fn real_ms(self) -> Multiset<Piece> {
        real_values(self.prev_pieces.tail()).to_multiset()
    }

    /// The branch invariant, against the root inventory `root` the search was
    /// seeded from: all parts are well-formed, what the branch consumed plus
    /// what it still sees is exactly the root pool (conservation), a block
    /// dimension never exceeds the hypothesized-slice count budget, and the
    /// block has grown one unit per history entry after the root.
    pub open spec fn inv(self, root: Multiset<Piece>) -> bool {
        &&& self.cheese.wf()
        &&& self.prev_pieces.wf()
        &&& self.pieces_left.wf()
        &&& self.pieces_left.ms().add(self.real_ms()) == root
        &&& self.prev_pieces.n_added as int <= self.cheese.dims_sum()
        &&& self.cheese.dims_sum() == self.prev_pieces@[0].0.0 + self.prev_pieces@[0].0.1
            + self.prev_pieces.tail().len()
        &&& grows_to(self.prev_pieces@, self.cheese.size@)
    }

    /// `self` is the successor of the branch `(c, path, pm)` for candidate
    /// `ns`: the block grew along the candidate's axis, the history gained the
    /// candidate's entry, and the inventory lost one unit of the piece exactly
    /// when the candidate was real.
    pub open spec fn is_succ(self, c: Cheese, path: PrevPieces, pm: PiecesMap, ns: NewSide) -> bool {
        &&& self.cheese.size@ == c.spec_expand(ns.side_n as int)
        &&& self.cheese.wf()
        &&& self.prev_pieces@ == path@.push((ns.piece, ns.is_added))
        &&& self.prev_pieces.start_piece == path.start_piece
        &&& self.prev_pieces.wf()
        &&& self.pieces_left.wf()
        &&& self.pieces_left.ms() == if ns.is_added {
            pm.ms()
        } else {
            pm.ms().remove(ns.piece)
        }
    }

    /// Builds a branch from its parts.
    pub fn new(cheese: Cheese, path: PrevPieces, pieces: Box<PiecesMap>) -> (r: Self)
        ensures
            r.cheese == cheese,
            r.prev_pieces == path,
            r.pieces_left == pieces,
    {
        Self { cheese, prev_pieces: path, pieces_left: pieces }
    }
}

impl PossPath {
    /// Expands the branch by one step, consuming it: one successor per growth
    /// candidate (see `Cheese::gen_poss_paths`).
    fn gen_new_paths(self, find_missing: bool) -> (r: Vec<PossPath>)
        requires
            self.prev_pieces.wf(),
            self.pieces_left.wf(),
        ensures
            self.prev_pieces.len < usize::MAX && self.prev_pieces.n_added < u32::MAX ==> {
                let cs = chosen_sides(self.cheese.size@, self.pieces_left.ms(), find_missing);
                &&& r@.len() == cs.len()
                &&& forall|t: int|
                    0 <= t < r@.len() ==> (#[trigger] r@[t]).is_succ(
                        self.cheese,
                        self.prev_pieces,
                        *self.pieces_left,
                        cs[t],
                    )
            },
            !(self.prev_pieces.len < usize::MAX && self.prev_pieces.n_added < u32::MAX)
                ==> r@.len() == 0,
    {
        let PossPath { cheese, prev_pieces, pieces_left } = self;
        cheese.gen_poss_paths(prev_pieces, pieces_left, find_missing)
    }
}

/// A successor of a branch that satisfies the branch invariant satisfies it
/// too, with the history one entry longer and the counters moved as the
/// candidate's kind says.
proof fn lemma_succ_inv(
    child: PossPath,
    c: Cheese,
    path: PrevPieces,
    pm: PiecesMap,
    ns: NewSide,
    root: Multiset<Piece>,
)
    requires
        c.wf(),
        path.wf(),
        pm.wf(),
        pm.ms().add(real_values(path.tail()).to_multiset()) == root,
        path.n_added as int <= c.dims_sum(),
        c.dims_sum() == path@[0].0.0 + path@[0].0.1 + path.tail().len(),
        grows_to(path@, c.size@),
        child.is_succ(c, path, pm, ns),
        ns.side_n < 3,
        ns.piece == side_of(c.size@, ns.side_n as int),
        ns.side_n == 0 ==> c.size@[0] < u32::MAX,
        ns.side_n == 1 ==> c.size@[1] < u32::MAX,
        ns.side_n == 2 ==> c.size@[2] < u32::MAX,
        !ns.is_added ==> pm.ms().count(ns.piece) > 0,
    ensures
        child.inv(root),
        child.prev_pieces@.len() == path@.len() + 1,
        child.prev_pieces.len as int == path.len as int + (if ns.is_added {
            0int
        } else {
            1int
        }),
        child.prev_pieces.n_added as int == path.n_added as int + (if ns.is_added {
            1int
        } else {
            0int
        }),
        child.prev_pieces.start_piece == path.start_piece,
{
    broadcast use vstd::multiset::group_multiset_axioms;

    let n = ns.side_n as int;
    lemma_sorted_desc3(
        if n == 0 {
            (c.size@[0] + 1) as u32
        } else {
            c.size@[0]
        },
        if n == 1 {
            (c.size@[1] + 1) as u32
        } else {
            c.size@[1]
        },
        if n == 2 {
            (c.size@[2] + 1) as u32
        } else {
            c.size@[2]
        },
    );
    assert(child.cheese.wf());
    assert(child.cheese.dims_sum() == c.dims_sum() + 1);
    let e = (ns.piece, ns.is_added);
    assert(grows_to(child.prev_pieces@, child.cheese.size@)) by {
        assert(child.prev_pieces@.drop_last() =~= path@);
        assert(child.prev_pieces@.last() == e);
        assert(child.prev_pieces@.len() >= 2);
        assert(0 <= n < 3 && grows_to(child.prev_pieces@.drop_last(), c.size@)
            && child.prev_pieces@.last().0 == side_of(c.size@, n) && child.cheese.size@
            == expand_of(c.size@, n));
    }
    assert(child.prev_pieces.tail() =~= path.tail().push(e));
    lemma_real_values_push(path.tail(), e);
    lemma_real_values_len(path.tail());
    real_values(path.tail()).to_multiset_ensures();
    assert(child.prev_pieces@[0] == path@[0]);
    if ns.is_added {
        assert(child.real_ms() == real_values(path.tail()).to_multiset());
        assert(child.pieces_left.ms().add(child.real_ms()) == root);
    } else {
        assert(child.real_ms() =~= real_values(path.tail()).to_multiset().insert(ns.piece));
        assert forall|q: Piece|
            child.pieces_left.ms().add(child.real_ms()).count(q) == root.count(q) by {}
        assert(child.pieces_left.ms().add(child.real_ms()) =~= root);
    }
}

/// A branch that satisfies the invariant has a bounded history: each real
/// entry consumed one slice of the root pool, and the hypothesized entries
/// are bounded by the block's dimension total.
proof fn lemma_branch_len_bound(b: PossPath, root: Multiset<Piece>)
    requires
        b.inv(root),
    ensures
        b.prev_pieces@.len() <= 1 + root.len() + 3 * (u32::MAX as int),
{
    broadcast use vstd::multiset::group_multiset_axioms;

    let tail = b.prev_pieces.tail();
    lemma_real_values_len(tail);
    real_values(tail).to_multiset_ensures();
    assert(root.len() == b.pieces_left.ms().add(b.real_ms()).len());
    assert(real_values(tail).len() <= root.len());
    assert(b.prev_pieces.n_added as int <= 3 * (u32::MAX as int));
}

/// The smallest hypothesized-slice count among the branches, `u32::MAX` when
/// there are none.
pub open spec fn min_added(s: Seq<PossPath>) -> u32
    decreases s.len(),
{
    if s.len() == 0 {
        u32::MAX
    } else {
        let m = min_added(s.drop_last());
        if s.last().prev_pieces.n_added < m {
            s.last().prev_pieces.n_added
        } else {
            m
        }
    }
}

/// Every branch is at or above the minimum, and some branch attains it.
proof fn lemma_min_added(s: Seq<PossPath>)
    ensures
        forall|t: int| 0 <= t < s.len() ==> (#[trigger] s[t]).prev_pieces.n_added >= min_added(s),
        s.len() > 0 ==> exists|t: int|
            0 <= t < s.len() && (#[trigger] s[t]).prev_pieces.n_added == min_added(s),
    decreases s.len(),
{
    if s.len() > 0 {
        lemma_min_added(s.drop_last());
        assert forall|t: int| 0 <= t < s.len() implies (#[trigger] s[t]).prev_pieces.n_added
            >= min_added(s) by {
            if t < s.len() - 1 {
                assert(s.drop_last()[t] == s[t]);
            }
        }
        if min_added(s) == s.last().prev_pieces.n_added {
            assert(s[s.len() - 1].prev_pieces.n_added == min_added(s));
        } else {
            let t = choose|t: int|
                0 <= t < s.drop_last().len() && (#[trigger] s.drop_last()[t]).prev_pieces.n_added
                    == min_added(s.drop_last());
            assert(s[t].prev_pieces.n_added == min_added(s));
        }
    }
}

/// The pruning predicate: the branch hypothesizes no more than the given
/// number of slices.
pub open spec fn at_most_added(m: u32) -> spec_fn(PossPath) -> bool {
    |p: PossPath| p.prev_pieces.n_added <= m
}

/// Keeps, of a set of sibling branches, exactly those whose hypothesized-slice
/// count equals the minimum: the surviving branches all sit at the original
/// minimum, and at least one survives.
pub fn filter_sub_paths(paths: Vec<PossPath>) -> (r: Vec<PossPath>)
    ensures
        r@ == paths@.filter(at_most_added(min_added(paths@))),
        forall|t: int|
            0 <= t < r@.len() ==> (#[trigger] r@[t]).prev_pieces.n_added == min_added(paths@),
        paths@.len() > 0 ==> r@.len() > 0,
        min_added(r@) == min_added(paths@),
        forall|t: int| 0 <= t < r@.len() ==> paths@.contains(#[trigger] r@[t]),
{
    let ghost orig = paths@;
    let pred_min: u32 = min_added_of(&paths);
    proof {
        lemma_min_added(orig);
    }
    let mut out: Vec<PossPath> = Vec::new();
    let mut rest = paths;
    let ghost mut done: Seq<PossPath> = Seq::empty();
    proof {
        assert(done + rest@ =~= orig);
        assert(done.filter(at_most_added(pred_min)) =~= Seq::<PossPath>::empty()) by {
            reveal(Seq::filter);
        }
    }
    while rest.len() > 0
        invariant
            pred_min == min_added(orig),
            done + rest@ == orig,
            out@ == done.filter(at_most_added(pred_min)),
            forall|t: int|
                0 <= t < orig.len() ==> (#[trigger] orig[t]).prev_pieces.n_added >= pred_min,
            forall|t: int|
                0 <= t < out@.len() ==> (#[trigger] out@[t]).prev_pieces.n_added == pred_min,
            forall|t: int| 0 <= t < out@.len() ==> orig.contains(#[trigger] out@[t]),
        decreases rest@.len(),
    {
        proof {
            assert(rest@[0] == orig[done.len() as int]);
        }
        let p = rest.remove(0);
        let ghost prev_done = done;
        proof {
            done = done.push(p);
            assert(done + rest@ =~= orig);
            assert(done.drop_last() =~= prev_done);
            reveal(Seq::filter);
        }
        if p.prev_pieces.n_added <= pred_min {
            proof {
                assert(orig.contains(p)) by {
                    assert(orig[prev_done.len() as int] == p);
                }
            }
            out.push(p);
        }
    }
    proof {
        assert(done =~= orig);
        lemma_min_added(orig);
        broadcast use vstd::seq_lib::group_filter_ensures;

        if orig.len() > 0 {
            let w = choose|t: int|
                0 <= t < orig.len() && (#[trigger] orig[t]).prev_pieces.n_added == min_added(orig);
            orig.lemma_filter_contains(at_most_added(pred_min), w);
            assert(out@.len() > 0);
            lemma_min_added(out@);
            let a = choose|t: int|
                0 <= t < out@.len() && (#[trigger] out@[t]).prev_pieces.n_added == min_added(out@);
            assert(min_added(out@) == pred_min);
        }
    }
    out
}

/// The smallest hypothesized-slice count over whole groups of branches.
pub open spec fn groups_min_added(s: Seq<Vec<PossPath>>) -> u32
    decreases s.len(),
{
    if s.len() == 0 {
        u32::MAX
    } else {
        let m = groups_min_added(s.drop_last());
        if min_added(s.last()@) < m {
            min_added(s.last()@)
        } else {
            m
        }
    }
}

/// Collapses the whole search down to a single group: one whose best branch
/// hypothesizes no more slices than any branch of any group.
fn filter_top_paths(paths: Vec<Vec<PossPath>>) -> (r: Vec<Vec<PossPath>>)
    requires
        paths@.len() > 0,
    ensures
        r@.len() == 1,
        exists|t: int|
            0 <= t < paths@.len() && r@[0] == paths@[t] && min_added((#[trigger] paths@[t])@)
                == groups_min_added(paths@) && (forall|u: int|
                0 <= u < t ==> min_added((#[trigger] paths@[u])@) > groups_min_added(paths@)),
{
    let ghost orig = paths@;
    let mut best_idx: usize = 0;
    let mut best: u32 = min_added_of(&paths[0]);
    proof {
        assert(orig.take(1).drop_last() =~= Seq::<Vec<PossPath>>::empty());
        assert(orig.take(1).last() == orig[0]);
        assert(groups_min_added(Seq::<Vec<PossPath>>::empty()) == u32::MAX);
        assert(groups_min_added(orig.take(1)) == min_added(orig[0]@));
    }
    let mut i: usize = 1;
    while i < paths.len()
        invariant
            paths@ == orig,
            1 <= i <= orig.len(),
            best_idx < i,
            best == min_added(orig[best_idx as int]@),
            best == groups_min_added(orig.take(i as int)),
            forall|u: int| 0 <= u < best_idx ==> min_added((#[trigger] orig[u])@) > best,
        decreases orig.len() - i,
    {
        proof {
            assert(orig.take(i as int + 1).drop_last() =~= orig.take(i as int));
            assert(orig.take(i as int + 1).last() == orig[i as int]);
        }
        let m = min_added_of(&paths[i]);
        if m < best {
            proof {
                lemma_groups_min_added(orig.take(i as int));
                assert forall|u: int| 0 <= u < i implies min_added((#[trigger] orig[u])@) > m by {
                    assert(orig.take(i as int)[u] == orig[u]);
                    assert(min_added(orig.take(i as int)[u]@) >= groups_min_added(
                        orig.take(i as int),
                    ));
                }
            }
            best = m;
            best_idx = i;
        }
        i += 1;
    }
    proof {
        assert(orig.take(orig.len() as int) =~= orig);
    }
    let mut paths = paths;
    let chosen = paths.remove(best_idx);
    let mut r: Vec<Vec<PossPath>> = Vec::new();
    r.push(chosen);
    r
}

/// A branch as the search decides about it: the block's dimensions, the
/// history entries, and the multiset of slices the branch still sees. This is
/// the ghost model of one `PossPath`; the round-based driver is proved to
/// return exactly what the model search below returns.
pub ghost struct BranchState {
    pub size: Seq<u32>,
    pub hist: Seq<(Piece, bool)>,
    pub pool: Multiset<Piece>,
}

/// The model of one live branch.
pub open spec fn abs_branch(b: PossPath) -> BranchState {
    BranchState { size: b.cheese.size@, hist: b.prev_pieces@, pool: b.pieces_left.ms() }
}

/// The model of one group of branches.
pub open spec fn abs_group(g: Seq<PossPath>) -> Seq<BranchState> {
    g.map_values(|b: PossPath| abs_branch(b))
}

/// The model of the whole collection of groups.
pub open spec fn abs_groups(gs: Seq<Vec<PossPath>>) -> Seq<Seq<BranchState>> {
    gs.map_values(|g: Vec<PossPath>| abs_group(g@))
}

/// The number of real entries of a model branch, the root included.
pub open spec fn state_len(b: BranchState) -> int {
    1 + real_values(b.hist.drop_first()).len() as int
}

/// The number of hypothesized entries of a model branch.
pub open spec fn state_added(b: BranchState) -> int {
    b.hist.drop_first().len() - real_values(b.hist.drop_first()).len() as int
}

/// The model branch after one growth step for candidate `ns`.
pub open spec fn state_step(b: BranchState, ns: NewSide) -> BranchState {
    BranchState {
        size: expand_of(b.size, ns.side_n as int),
        hist: b.hist.push((ns.piece, ns.is_added)),
        pool: if ns.is_added {
            b.pool
        } else {
            b.pool.remove(ns.piece)
        },
    }
}

/// The successors of a model branch: one per candidate of the step, in
/// candidate order; a branch whose history counters would overflow is not
/// extended, as in the executable step.
pub open spec fn state_succs(b: BranchState, fm: bool) -> Seq<BranchState> {
    if state_len(b) == usize::MAX as int || state_added(b) == u32::MAX as int {
        Seq::empty()
    } else {
        Seq::new(
            chosen_sides(b.size, b.pool, fm).len(),
            |t: int| state_step(b, chosen_sides(b.size, b.pool, fm)[t]),
        )
    }
}

/// One group expanded by one step, in branch order.
pub open spec fn expand_states(g: Seq<BranchState>, fm: bool) -> Seq<BranchState>
    decreases g.len(),
{
    if g.len() == 0 {
        Seq::empty()
    } else {
        state_succs(g.first(), fm) + expand_states(g.drop_first(), fm)
    }
}

/// The smallest hypothesized count among model branches, `u32::MAX` when there
/// are none.
pub open spec fn min_added_states(s: Seq<BranchState>) -> int
    decreases s.len(),
{
    if s.len() == 0 {
        u32::MAX as int
    } else {
        let m = min_added_states(s.drop_last());
        if state_added(s.last()) < m {
            state_added(s.last())
        } else {
            m
        }
    }
}

/// Pruning a group of model branches: only those at the minimum hypothesized
/// count survive.
pub open spec fn prune_states(s: Seq<BranchState>) -> Seq<BranchState> {
    s.filter(|b: BranchState| state_added(b) <= min_added_states(s))
}

/// The smallest hypothesized count over whole groups of model branches.
pub open spec fn groups_min_states(gs: Seq<Seq<BranchState>>) -> int
    decreases gs.len(),
{
    if gs.len() == 0 {
        u32::MAX as int
    } else {
        let m = groups_min_states(gs.drop_first());
        if min_added_states(gs.first()) < m {
            min_added_states(gs.first())
        } else {
            m
        }
    }
}

/// The first group whose best branch attains the overall minimum; ties go to
/// the earlier group.
pub open spec fn first_min_state_group(gs: Seq<Seq<BranchState>>) -> int
    decreases gs.len(),
{
    if gs.len() <= 1 {
        0
    } else if min_added_states(gs.first()) <= groups_min_states(gs.drop_first()) {
        0
    } else {
        1 + first_min_state_group(gs.drop_first())
    }
}

/// One round over the groups, in group order: every group expands by one step
/// and — when more than one successor came out — is pruned. The first group
/// that cannot grow further yields its leading branch when `accept` holds (the
/// round counter reached the threshold); a group that dies earlier is dropped.
/// Returns the result, if any, and the surviving groups in order.
pub open spec fn round_states(gs: Seq<Seq<BranchState>>, accept: bool, fm: bool) -> (
    Option<BranchState>,
    Seq<Seq<BranchState>>,
)
    decreases gs.len(),
{
    if gs.len() == 0 {
        (None::<BranchState>, Seq::<Seq<BranchState>>::empty())
    } else {
        let g = gs.first();
        let stepped = expand_states(g, fm);
        let pruned = if stepped.len() > 1 {
            prune_states(stepped)
        } else {
            stepped
        };
        if pruned.len() == 0 && accept {
            (Some(g[0]), Seq::<Seq<BranchState>>::empty())
        } else {
            let (res, rest) = round_states(gs.drop_first(), accept, fm);
            if pruned.len() == 0 {
                (res, rest)
            } else {
                (res, seq![pruned] + rest)
            }
        }
    }
}

/// The round-based search itself, as a function of the seeded groups: once
/// half the threshold has passed (and inference is on), the search collapses
/// to the group with the fewest hypotheses; every round then expands and
/// prunes each group, and the first group that cannot grow further yields its
/// block — accepted only from round `min` on. `None` means every group died
/// before reaching the threshold. The fuel only bounds the recursion; the
/// drivers supply more fuel than any run can use.
pub open spec fn search_states(
    gs: Seq<Seq<BranchState>>,
    i: nat,
    min: nat,
    fm: bool,
    fuel: nat,
) -> Option<BranchState>
    decreases fuel,
{
    if gs.len() == 0 || fuel == 0 {
        None::<BranchState>
    } else {
        let gs1 = if i == min / 2 && i > 3 && fm {
            seq![gs[first_min_state_group(gs)]]
        } else {
            gs
        };
        let (res, nxt) = round_states(gs1, i >= min, fm);
        if res is Some {
            res
        } else {
            search_states(nxt, i + 1, min, fm, (fuel - 1) as nat)
        }
    }
}

/// Fuel no run of the search can use up: one unit per round, and the round
/// count is bounded by the pool size plus the hypothesized-slice budget.
pub open spec fn search_fuel(root: Multiset<Piece>) -> nat {
    (2 + root.len() + 3 * (u32::MAX as nat)) as nat
}

/// A live branch with a well-formed history models to the same counters.
proof fn lemma_abs_counters(b: PossPath)
    requires
        b.prev_pieces.wf(),
    ensures
        state_len(abs_branch(b)) == b.prev_pieces.len as int,
        state_added(abs_branch(b)) == b.prev_pieces.n_added as int,
{
}

/// The minimum hypothesized count is the same on branches and on their models.
proof fn lemma_min_added_abs(s: Seq<PossPath>)
    requires
        forall|t: int| 0 <= t < s.len() ==> (#[trigger] s[t]).prev_pieces.wf(),
    ensures
        min_added_states(abs_group(s)) == min_added(s) as int,
    decreases s.len(),
{
    if s.len() > 0 {
        lemma_min_added_abs(s.drop_last());
        assert(abs_group(s).drop_last() =~= abs_group(s.drop_last()));
        assert(abs_group(s).last() == abs_branch(s.last()));
        lemma_abs_counters(s.last());
    }
}

/// Filtering by a hypothesized-count bound commutes with taking models.
proof fn lemma_filter_abs(s: Seq<PossPath>, bound: u32)
    requires
        forall|t: int| 0 <= t < s.len() ==> (#[trigger] s[t]).prev_pieces.wf(),
    ensures
        abs_group(s.filter(at_most_added(bound))) == abs_group(s).filter(
            |b: BranchState| state_added(b) <= bound as int,
        ),
    decreases s.len(),
{
    reveal(Seq::filter);
    let q = |b: BranchState| state_added(b) <= bound as int;
    if s.len() == 0 {
        assert(abs_group(s.filter(at_most_added(bound))) =~= abs_group(s).filter(q));
    } else {
        lemma_filter_abs(s.drop_last(), bound);
        lemma_abs_counters(s.last());
        assert(abs_group(s).drop_last() =~= abs_group(s.drop_last()));
        assert(abs_group(s).last() == abs_branch(s.last()));
        if at_most_added(bound)(s.last()) {
            assert(abs_group(s.drop_last().filter(at_most_added(bound)).push(s.last())) =~=
                abs_group(s.drop_last().filter(at_most_added(bound))).push(abs_branch(s.last())));
            assert(abs_group(s.filter(at_most_added(bound))) =~= abs_group(s).filter(q));
        } else {
            assert(abs_group(s.filter(at_most_added(bound))) =~= abs_group(s).filter(q));
        }
    }
}

/// Pruning commutes with taking models.
proof fn lemma_prune_abs(s: Seq<PossPath>)
    requires
        forall|t: int| 0 <= t < s.len() ==> (#[trigger] s[t]).prev_pieces.wf(),
    ensures
        abs_group(s.filter(at_most_added(min_added(s)))) == prune_states(abs_group(s)),
{
    lemma_min_added_abs(s);
    lemma_filter_abs(s, min_added(s));
    let q1 = |b: BranchState| state_added(b) <= min_added(s) as int;
    let q2 = |b: BranchState| state_added(b) <= min_added_states(abs_group(s));
    assert(q1 =~= q2);
}

/// Every group's minimum is at or above the overall groups minimum.
proof fn lemma_groups_min_added(s: Seq<Vec<PossPath>>)
    ensures
        forall|t: int|
            0 <= t < s.len() ==> min_added((#[trigger] s[t])@) >= groups_min_added(s),
    decreases s.len(),
{
    if s.len() > 0 {
        lemma_groups_min_added(s.drop_last());
        assert forall|t: int|
            0 <= t < s.len() implies min_added((#[trigger] s[t])@) >= groups_min_added(s) by {
            if t < s.len() - 1 {
                assert(s.drop_last()[t] == s[t]);
            }
        }
    }
}

/// The index characterized by "attains the bound, everything before it is
/// strictly above" is exactly the first-minimum index of the model groups.
proof fn lemma_first_min_group(gs: Seq<Seq<BranchState>>, t: int, v: int)
    requires
        0 <= t < gs.len(),
        min_added_states(gs[t]) == v,
        forall|u: int| 0 <= u < gs.len() ==> min_added_states(#[trigger] gs[u]) >= v,
        forall|u: int| 0 <= u < t ==> min_added_states(#[trigger] gs[u]) > v,
    ensures
        first_min_state_group(gs) == t,
        gs[first_min_state_group(gs)] == gs[t],
    decreases gs.len(),
{
    lemma_min_added_states_le_max(gs[t]);
    lemma_groups_min_states_ge(gs, v);
    if t == 0 {
        if gs.len() > 1 {
            assert(min_added_states(gs.first()) <= groups_min_states(gs.drop_first())) by {
                lemma_groups_min_states_ge(gs.drop_first(), v);
                assert forall|u: int|
                    0 <= u < gs.drop_first().len() implies min_added_states(
                    #[trigger] gs.drop_first()[u],
                ) >= v by {
                    assert(gs.drop_first()[u] == gs[u + 1]);
                }
            }
        }
    } else {
        assert forall|u: int|
            0 <= u < gs.drop_first().len() implies min_added_states(
            #[trigger] gs.drop_first()[u],
        ) >= v by {
            assert(gs.drop_first()[u] == gs[u + 1]);
        }
        assert forall|u: int|
            0 <= u < t - 1 implies min_added_states(#[trigger] gs.drop_first()[u]) > v by {
            assert(gs.drop_first()[u] == gs[u + 1]);
        }
        assert(gs.drop_first()[t - 1] == gs[t]);
        lemma_first_min_group(gs.drop_first(), t - 1, v);
        assert(min_added_states(gs.first()) > v);
        assert(groups_min_states(gs.drop_first()) <= v) by {
            lemma_groups_min_states_le(gs.drop_first(), t - 1);
        }
    }
}

/// The minimum hypothesized count never exceeds its sentinel.
proof fn lemma_min_added_states_le_max(s: Seq<BranchState>)
    ensures
        min_added_states(s) <= u32::MAX as int,
    decreases s.len(),
{
    if s.len() > 0 {
        lemma_min_added_states_le_max(s.drop_last());
    }
}

/// The overall groups minimum is at or above any common lower bound.
proof fn lemma_groups_min_states_ge(gs: Seq<Seq<BranchState>>, v: int)
    requires
        forall|u: int| 0 <= u < gs.len() ==> min_added_states(#[trigger] gs[u]) >= v,
        v <= u32::MAX as int,
    ensures
        groups_min_states(gs) >= v,
    decreases gs.len(),
{
    if gs.len() > 0 {
        assert forall|u: int|
            0 <= u < gs.drop_first().len() implies min_added_states(
            #[trigger] gs.drop_first()[u],
        ) >= v by {
            assert(gs.drop_first()[u] == gs[u + 1]);
        }
        lemma_groups_min_states_ge(gs.drop_first(), v);
        assert(gs.first() == gs[0]);
    }
}

/// The overall groups minimum is at or below any one group's minimum.
proof fn lemma_groups_min_states_le(gs: Seq<Seq<BranchState>>, t: int)
    requires
        0 <= t < gs.len(),
    ensures
        groups_min_states(gs) <= min_added_states(gs[t]),
    decreases gs.len(),
{
    if t > 0 {
        lemma_groups_min_states_le(gs.drop_first(), t - 1);
        assert(gs.drop_first()[t - 1] == gs[t]);
    } else {
        assert(gs.first() == gs[0]);
    }
}

/// A freshly seeded branch: the degenerate block `[p, q, 0]` of its start
/// piece `(p, q)`, which is still available in its inventory view.
pub open spec fn seed_ok(b: PossPath) -> bool {
    &&& b.prev_pieces.start_piece.wf()
    &&& b.cheese.size@ == seq![
        b.prev_pieces.start_piece.0,
        b.prev_pieces.start_piece.1,
        0u32,
    ]
    &&& b.pieces_left.spec_count(b.prev_pieces.start_piece) > 0
}

/// Every branch of the group satisfies the branch invariant and has a history
/// of `hlen` entries; past the seeding round it has consumed at least one real
/// slice, at the seeding round it is a proper seed, and with inference off it
/// has hypothesized nothing.
pub open spec fn group_ok(g: Seq<PossPath>, root: Multiset<Piece>, hlen: int, fm: bool) -> bool {
    forall|t: int|
        0 <= t < g.len() ==> {
            let b = #[trigger] g[t];
            &&& b.inv(root)
            &&& b.prev_pieces@.len() == hlen
            &&& (hlen > 1 ==> b.prev_pieces.len >= 2)
            &&& (hlen == 1 ==> seed_ok(b))
            &&& (!fm ==> b.prev_pieces.n_added == 0)
        }
}

/// Every group is nonempty and in the state of round `hlen - 1`.
pub open spec fn groups_ok(gs: Seq<Vec<PossPath>>, root: Multiset<Piece>, hlen: int, fm: bool) -> bool {
    forall|g: int|
        0 <= g < gs.len() ==> (#[trigger] gs[g])@.len() > 0 && group_ok(gs[g]@, root, hlen, fm)
}

/// Assembles one block: expands every branch of every group by one growth step
/// per round, prunes each group down to its fewest-hypotheses branches, and —
/// once half the required length has passed — collapses the search to the best
/// group. A group that cannot grow further yields its block, accepted only
/// when at least `min_path_len` rounds have passed.
///
/// The returned value is exactly what the model search over the seeded groups
/// returns: `None` exactly when the model search yields no block — that is,
/// when every group stops before `min_path_len` rounds. A returned block is
/// sorted, its history is well-formed, longer than `min_path_len`, holds at
/// least one real slice, describes a valid growth of the block, hypothesized
/// nothing when inference was off, and consumed only slices of the root pool;
/// the ghost component is the branch's remaining pool, against which the
/// branch was stuck: no candidate was left (unless a history counter had
/// saturated, which no input of realistic size reaches).
#[verifier::loop_isolation(false)]
#[verifier::rlimit(60)]
fn construct_cheese(
    top_paths: Vec<Vec<PossPath>>,
    min_path_len: usize,
    find_missing: bool,
    Ghost(root): Ghost<Multiset<Piece>>,
) -> (r: Option<(Cheese, PrevPieces, Ghost<Multiset<Piece>>)>)
    requires
        min_path_len >= 1,
        root.len() <= usize::MAX,
        groups_ok(top_paths@, root, 1, find_missing),
    ensures
        ({
            let m = search_states(
                abs_groups(top_paths@),
                0,
                min_path_len as nat,
                find_missing,
                search_fuel(root),
            );
            &&& (r is Some <==> m is Some)
            &&& (r matches Some(res) ==> {
                &&& m == Some(BranchState { size: res.0.size@, hist: res.1@, pool: res.2@ })
                &&& res.0.wf()
                &&& res.1.wf()
                &&& res.1.len >= 2
                &&& res.1@.len() >= min_path_len + 1
                &&& grows_to(res.1@, res.0.size@)
                &&& real_values(res.1.tail()).to_multiset().subset_of(root)
                &&& res.2@.add(real_values(res.1.tail()).to_multiset()) == root
                &&& (res.1.len == usize::MAX || res.1.n_added == u32::MAX || chosen_sides(
                    res.0.size@,
                    res.2@,
                    find_missing,
                ).len() == 0)
                &&& (!find_missing ==> res.1.n_added == 0)
                &&& res.0.dims_sum() == res.1@[0].0.0 + res.1@[0].0.1 + (res.1@.len() - 1)
            })
        }),
{
    let ghost gs0 = abs_groups(top_paths@);
    let ghost fuel0 = search_fuel(root);
    let ghost bound: int = 1 + root.len() + 3 * (u32::MAX as int);
    let mut top_paths = top_paths;
    let mut i: u128 = 0;
    while top_paths.len() > 0
        invariant
            min_path_len >= 1,
            root.len() <= usize::MAX,
            bound == 1 + root.len() + 3 * (u32::MAX as int),
            fuel0 == search_fuel(root),
            i as int <= bound,
            top_paths@.len() > 0 ==> i as int + 1 <= bound,
            groups_ok(top_paths@, root, i as int + 1, find_missing),
            search_states(gs0, 0, min_path_len as nat, find_missing, fuel0) == search_states(
                abs_groups(top_paths@),
                i as nat,
                min_path_len as nat,
                find_missing,
                (fuel0 - i) as nat,
            ),
        decreases bound + 1 - i,
    {
        let ghost entry_gs = abs_groups(top_paths@);
        let collapse = i == (min_path_len / 2) as u128 && i > 3 && find_missing;
        if collapse {
            let ghost before = top_paths@;
            top_paths = filter_top_paths(top_paths);
            proof {
                let t = choose|t: int|
                    0 <= t < before.len() && top_paths@[0] == before[t] && min_added(
                        (#[trigger] before[t])@,
                    ) == groups_min_added(before) && (forall|u: int|
                        0 <= u < t ==> min_added((#[trigger] before[u])@) > groups_min_added(
                            before,
                        ));
                let v = groups_min_added(before) as int;
                lemma_groups_min_added(before);
                assert forall|u: int|
                    0 <= u < entry_gs.len() implies min_added_states(#[trigger] entry_gs[u])
                    >= v by {
                    assert(entry_gs[u] == abs_group(before[u]@));
                    lemma_min_added_abs(before[u]@);
                }
                assert forall|u: int|
                    0 <= u < t implies min_added_states(#[trigger] entry_gs[u]) > v by {
                    assert(entry_gs[u] == abs_group(before[u]@));
                    lemma_min_added_abs(before[u]@);
                }
                lemma_min_added_abs(before[t]@);
                assert(entry_gs[t] == abs_group(before[t]@));
                lemma_first_min_group(entry_gs, t, v);
                assert(abs_groups(top_paths@) =~= seq![entry_gs[first_min_state_group(entry_gs)]]);
            }
        }
        let ghost hlen: int = i as int + 1;
        let ghost round_pre = abs_groups(top_paths@);
        let ghost accept: bool = i >= min_path_len as u128;
        proof {
            assert(accept == (i as nat >= min_path_len as nat));
            assert(collapse == (i as nat == (min_path_len as nat) / 2 && i as nat > 3
                && find_missing));
            assert(entry_gs.len() > 0);
            assert((fuel0 - i) as nat > 0);
            assert(search_states(
                entry_gs,
                i as nat,
                min_path_len as nat,
                find_missing,
                (fuel0 - i) as nat,
            ) == {
                let (res, nxt) = round_states(round_pre, accept, find_missing);
                if res is Some {
                    res
                } else {
                    search_states(
                        nxt,
                        i as nat + 1,
                        min_path_len as nat,
                        find_missing,
                        (fuel0 - i - 1) as nat,
                    )
                }
            });
        }
        let mut new_top_paths: Vec<Vec<PossPath>> = Vec::new();
        let mut rest = top_paths;
        while rest.len() > 0
            invariant
                min_path_len >= 1,
                root.len() <= usize::MAX,
                hlen == i as int + 1,
                hlen >= 1,
                accept == (i >= min_path_len as u128),
                groups_ok(rest@, root, hlen, find_missing),
                groups_ok(new_top_paths@, root, hlen + 1, find_missing),
                round_states(round_pre, accept, find_missing).0 == round_states(
                    abs_groups(rest@),
                    accept,
                    find_missing,
                ).0,
                round_states(round_pre, accept, find_missing).1 == abs_groups(new_top_paths@)
                    + round_states(abs_groups(rest@), accept, find_missing).1,
                search_states(gs0, 0, min_path_len as nat, find_missing, fuel0) == ({
                    let (res, nxt) = round_states(round_pre, accept, find_missing);
                    if res is Some {
                        res
                    } else {
                        search_states(
                            nxt,
                            i as nat + 1,
                            min_path_len as nat,
                            find_missing,
                            (fuel0 - i - 1) as nat,
                        )
                    }
                }),
            decreases rest@.len(),
        {
            proof {
                assert(group_ok(rest@[0]@, root, hlen, find_missing));
            }
            let ghost rest_pre = abs_groups(rest@);
            let sub_paths = rest.remove(0);
            proof {
                assert(abs_groups(rest@) =~= rest_pre.drop_first());
                assert(rest_pre.first() == abs_group(sub_paths@));
            }
            let curr_cheese = sub_paths[0].cheese;
            let curr_path = sub_paths[0].prev_pieces.clone();
            let ghost curr = sub_paths@[0];
            let ghost g_pre = abs_group(sub_paths@);
            proof {
                assert(g_pre[0] == abs_branch(curr));
                assert(expand_states(g_pre, find_missing) == abs_group(
                    Seq::<PossPath>::empty(),
                ) + expand_states(abs_group(sub_paths@), find_missing)) by {
                    assert(abs_group(Seq::<PossPath>::empty()) =~= Seq::<BranchState>::empty());
                    assert(Seq::<BranchState>::empty() + expand_states(g_pre, find_missing)
                        =~= expand_states(g_pre, find_missing));
                }
            }
            let mut new_paths: Vec<PossPath> = Vec::new();
            let mut group = sub_paths;
            while group.len() > 0
                invariant
                    root.len() <= usize::MAX,
                    hlen >= 1,
                    group_ok(group@, root, hlen, find_missing),
                    group_ok(new_paths@, root, hlen + 1, find_missing),
                    expand_states(g_pre, find_missing) == abs_group(new_paths@) + expand_states(
                        abs_group(group@),
                        find_missing,
                    ),
                decreases group@.len(),
            {
                let ghost group_pre = abs_group(group@);
                let poss_path = group.remove(0);
                let ghost pb = abs_branch(poss_path);
                let ghost pc = poss_path.cheese;
                let ghost ppath = poss_path.prev_pieces;
                let ghost ppm = *poss_path.pieces_left;
                proof {
                    assert(abs_group(group@) =~= group_pre.drop_first());
                    assert(group_pre.first() == pb);
                    lemma_abs_counters(poss_path);
                }
                let mut paths = poss_path.gen_new_paths(find_missing);
                proof {
                    if ppath.len < usize::MAX && ppath.n_added < u32::MAX {
                        let cs = chosen_sides(pc.size@, ppm.ms(), find_missing);
                        lemma_wf_pool(ppm);
                        lemma_chosen_sides_props(pc.size@, ppm.ms(), find_missing);
                        if hlen == 1 {
                            lemma_pm_count(ppm, ppath.start_piece);
                            lemma_seed_real_candidate(pc.size@, ppm.ms(), ppath.start_piece);
                        }
                        assert forall|t: int| 0 <= t < paths@.len() implies {
                            let b = #[trigger] paths@[t];
                            &&& b.inv(root)
                            &&& b.prev_pieces@.len() == hlen + 1
                            &&& b.prev_pieces.len >= 2
                            &&& (!find_missing ==> b.prev_pieces.n_added == 0)
                            &&& abs_branch(b) == state_step(pb, cs[t])
                        } by {
                            let ns = cs[t];
                            if !ns.is_added {
                                lemma_pm_count(ppm, ns.piece);
                            }
                            lemma_succ_inv(paths@[t], pc, ppath, ppm, ns, root);
                            if hlen == 1 {
                                assert(!ns.is_added);
                                assert(ppath.len == 1);
                            }
                            if !find_missing {
                                assert(!ns.is_added);
                            }
                        }
                        assert(group_ok(paths@, root, hlen + 1, find_missing));
                        assert(abs_group(paths@) =~= state_succs(pb, find_missing));
                    } else {
                        assert(paths@.len() == 0);
                        assert(abs_group(paths@) =~= state_succs(pb, find_missing));
                    }
                    assert(expand_states(group_pre, find_missing) == state_succs(
                        pb,
                        find_missing,
                    ) + expand_states(group_pre.drop_first(), find_missing));
                }
                let ghost acc_pre = abs_group(new_paths@);
                new_paths.append(&mut paths);
                proof {
                    assert(abs_group(new_paths@) =~= acc_pre + state_succs(pb, find_missing));
                    assert(abs_group(new_paths@) + expand_states(
                        abs_group(group@),
                        find_missing,
                    ) =~= expand_states(g_pre, find_missing));
                }
            }
            proof {
                assert(abs_group(group@) =~= Seq::<BranchState>::empty());
                assert(expand_states(abs_group(group@), find_missing)
                    =~= Seq::<BranchState>::empty());
                assert(expand_states(g_pre, find_missing) =~= abs_group(new_paths@));
            }
            let ghost stepped = abs_group(new_paths@);
            if new_paths.len() > 1 {
                let ghost before = new_paths@;
                let filtered = filter_sub_paths(new_paths);
                proof {
                    assert forall|t: int| 0 <= t < filtered@.len() implies {
                        let b = #[trigger] filtered@[t];
                        &&& b.inv(root)
                        &&& b.prev_pieces@.len() == hlen + 1
                        &&& b.prev_pieces.len >= 2
                        &&& (!find_missing ==> b.prev_pieces.n_added == 0)
                    } by {
                        assert(before.contains(filtered@[t]));
                        let u = choose|u: int| 0 <= u < before.len() && before[u] == filtered@[t];
                        assert(before[u].inv(root));
                    }
                    lemma_prune_abs(before);
                    assert(abs_group(filtered@) == prune_states(stepped));
                }
                new_paths = filtered;
            }
            let ghost pruned = abs_group(new_paths@);
            proof {
                assert(stepped.len() > 1 ==> pruned == prune_states(stepped));
                assert(stepped.len() <= 1 ==> pruned == stepped);
                assert(round_states(rest_pre, accept, find_missing) == {
                    let (res, rest_r) = round_states(rest_pre.drop_first(), accept, find_missing);
                    if pruned.len() == 0 && accept {
                        (Some(g_pre[0]), Seq::<Seq<BranchState>>::empty())
                    } else if pruned.len() == 0 {
                        (res, rest_r)
                    } else {
                        (res, seq![pruned] + rest_r)
                    }
                });
            }
            if new_paths.len() == 0 {
                if i >= min_path_len as u128 {
                    proof {
                        broadcast use vstd::multiset::group_multiset_axioms;

                        assert(curr.inv(root));
                        assert forall|q: Piece|
                            real_values(curr.prev_pieces.tail()).to_multiset().count(q)
                                <= root.count(q) by {
                            assert(root.count(q) == curr.pieces_left.ms().count(q)
                                + curr.real_ms().count(q));
                        }
                        assert(round_states(round_pre, accept, find_missing).0 == Some(
                            abs_branch(curr),
                        ));
                        assert(search_states(
                            gs0,
                            0,
                            min_path_len as nat,
                            find_missing,
                            fuel0,
                        ) == Some(abs_branch(curr)));
                        lemma_abs_counters(curr);
                        assert(state_succs(abs_branch(curr), find_missing) =~= stepped.subrange(
                            0,
                            state_succs(abs_branch(curr), find_missing).len() as int,
                        ));
                        if curr.prev_pieces.len < usize::MAX && curr.prev_pieces.n_added
                            < u32::MAX {
                            assert(chosen_sides(
                                curr.cheese.size@,
                                curr.pieces_left.ms(),
                                find_missing,
                            ).len() == 0);
                        }
                    }
                    return Some((curr_cheese, curr_path, Ghost(curr.pieces_left.ms())));
                }
            } else {
                let ghost acc_groups = abs_groups(new_top_paths@);
                new_top_paths.push(new_paths);
                proof {
                    assert(abs_groups(new_top_paths@) =~= acc_groups.push(pruned));
                    assert(acc_groups.push(pruned) =~= acc_groups + seq![pruned]);
                    assert(abs_groups(new_top_paths@) + round_states(
                        abs_groups(rest@),
                        accept,
                        find_missing,
                    ).1 =~= acc_groups + (seq![pruned] + round_states(
                        abs_groups(rest@),
                        accept,
                        find_missing,
                    ).1));
                }
            }
        }
        proof {
            assert(abs_groups(rest@) =~= Seq::<Seq<BranchState>>::empty());
            assert(round_states(abs_groups(rest@), accept, find_missing).0
                is None);
            assert(round_states(round_pre, accept, find_missing).1 =~= abs_groups(
                new_top_paths@,
            ));
            if new_top_paths@.len() > 0 {
                assert(group_ok(new_top_paths@[0]@, root, hlen + 1, find_missing));
                lemma_branch_len_bound(new_top_paths@[0]@[0], root);
            }
        }
        top_paths = new_top_paths;
        i = i + 1;
    }
    proof {
        assert(abs_groups(top_paths@) =~= Seq::<Seq<BranchState>>::empty());
    }
    None
}

/// The real slices of the blocks assembled so far, as one multiset.
pub open spec fn used_real(rs: Seq<(Cheese, PrevPieces)>) -> Multiset<Piece>
    decreases rs.len(),
{
    if rs.len() == 0 {
        Multiset::empty()
    } else {
        used_real(rs.drop_last()).add(real_values(rs.last().1.tail()).to_multiset())
    }
}

/// What holds of every assembled block: sorted dimensions, a well-formed
/// history with at least one real slice, a block that grew one unit per
/// history entry, and a history that is a valid growth trace of the block —
/// every entry is the face of the block it grew.
pub open spec fn result_ok(e: (Cheese, PrevPieces)) -> bool {
    &&& e.0.wf()
    &&& e.1.wf()
    &&& e.1.len >= 2
    &&& grows_to(e.1@, e.0.size@)
    &&& e.0.dims_sum() == e.1@[0].0.0 + e.1@[0].0.1 + (e.1@.len() - 1)
}

/// The model of a freshly seeded branch for start piece `k` over `pool`.
pub open spec fn seed_state(k: Piece, pool: Multiset<Piece>) -> BranchState {
    BranchState { size: seq![k.0, k.1, 0u32], hist: seq![(k, false)], pool }
}

/// One singleton model group per start piece, in seeding order.
pub open spec fn seed_groups(ks: Seq<Piece>, pool: Multiset<Piece>) -> Seq<Seq<BranchState>> {
    ks.map_values(|k: Piece| seq![seed_state(k, pool)])
}

/// `ks` lists exactly the distinct pieces of the pool, each once.
pub open spec fn distinct_support(ks: Seq<Piece>, pool: Multiset<Piece>) -> bool {
    &&& forall|i: int, j: int| 0 <= i < j < ks.len() ==> ks[i] != ks[j]
    &&& forall|i: int| 0 <= i < ks.len() ==> pool.count(#[trigger] ks[i]) > 0
    &&& forall|p: Piece| #[trigger] pool.count(p) > 0 ==> ks.contains(p)
}

/// Extracts blocks from the shared inventory, one at a time: seeds one branch
/// group per distinct piece, runs the round-based search, removes a completed
/// block's real slices from the pool, and lowers the acceptance threshold when
/// no block was found. Returns the assembled blocks with their histories and
/// the slices left over.
///
/// Conservation holds unconditionally: the real slices of all blocks plus the
/// leftover pool are exactly the `n_pieces` slices that came in — consuming
/// more than existed is impossible, and a nonempty leftover pool reports an
/// unresolved partial decomposition. With inference off no result hypothesizes
/// anything. And success is owed: when no block at all is returned although the
/// initial threshold let the loop run, the model search over the seeds — in
/// the seeding order actually used, some ordering of the pool's distinct
/// pieces — found no block at the initial threshold either.
pub fn construct_cheeses(pieces: Box<PiecesMap>, n_pieces: usize, find_missing: bool) -> (r: (
    Vec<(Cheese, PrevPieces)>,
    Box<PiecesMap>,
))
    requires
        pieces.wf(),
        pieces.added@ == Map::<Piece, u32>::empty(),
        pieces.ms().len() == n_pieces,
    ensures
        forall|t: int| 0 <= t < r.0@.len() ==> result_ok(#[trigger] r.0@[t]),
        r.1.wf(),
        used_real(r.0@).add(r.1.ms()) == pieces.ms(),
        used_real(r.0@).len() + r.1.ms().len() == n_pieces,
        !find_missing ==> forall|t: int|
            0 <= t < r.0@.len() ==> (#[trigger] r.0@[t]).1.n_added == 0,
        r.0@.len() == 0 && n_pieces as int * 3 / 4 > n_pieces as int / 5 ==> exists|ks: Seq<Piece>|
            distinct_support(ks, pieces.ms()) && search_states(
                seed_groups(ks, pieces.ms()),
                0,
                (n_pieces as int * 3 / 4) as nat,
                find_missing,
                search_fuel(pieces.ms()),
            ) is None,
{
    broadcast use vstd::multiset::group_multiset_axioms;

    let ghost original = pieces.ms();
    let mut pieces_map = pieces;
    let mut results: Vec<(Cheese, PrevPieces)> = Vec::new();
    let mut used_pieces: Vec<Piece> = Vec::new();
    let mut min_path_len: usize = ((n_pieces as u128) * 3 / 4) as usize;
    proof {
        used_pieces@.to_multiset_ensures();
        vstd::multiset::lemma_multiset_empty_len(used_pieces@.to_multiset());
        assert(used_real(results@).add(pieces_map.ms()) =~= original);
        assert(used_pieces@.to_multiset() =~= used_real(results@));
        assert(min_path_len as int == n_pieces as int * 3 / 4);
    }
    while min_path_len > (n_pieces - used_pieces.len()) / 5
        invariant
            n_pieces == original.len(),
            pieces_map.wf(),
            pieces_map.added@ == Map::<Piece, u32>::empty(),
            used_real(results@).add(pieces_map.ms()) == original,
            used_pieces@.to_multiset() == used_real(results@),
            used_pieces@.len() <= n_pieces,
            forall|t: int| 0 <= t < results@.len() ==> result_ok(#[trigger] results@[t]),
            !find_missing ==> forall|t: int|
                0 <= t < results@.len() ==> (#[trigger] results@[t]).1.n_added == 0,
            results@.len() == 0 ==> min_path_len as int == n_pieces as int * 3 / 4 || (
            exists|ks: Seq<Piece>|
                distinct_support(ks, original) && search_states(
                    seed_groups(ks, original),
                    0,
                    (n_pieces as int * 3 / 4) as nat,
                    find_missing,
                    search_fuel(original),
                ) is None),
        decreases n_pieces - used_pieces@.len(), min_path_len,
    {
        let ghost root0 = pieces_map.ms();
        proof {
            assert(root0.len() <= original.len());
            if results@.len() == 0 {
                assert forall|q: Piece| root0.count(q) == original.count(q) by {}
                assert(root0 =~= original);
            }
        }
        let keys = pieces_map.base_pieces();
        let mut top_paths: Vec<Vec<PossPath>> = Vec::new();
        let mut ki: usize = 0;
        while ki < keys.len()
            invariant
                pieces_map.wf(),
                pieces_map.added@ == Map::<Piece, u32>::empty(),
                root0 == pieces_map.ms(),
                ki <= keys@.len(),
                forall|t: int|
                    0 <= t < keys@.len() ==> pieces_map.base@.contains_key(#[trigger] keys@[t]),
                groups_ok(top_paths@, root0, 1, find_missing),
                abs_groups(top_paths@) == seed_groups(keys@.take(ki as int), root0),
            decreases keys@.len() - ki,
        {
            let piece = keys[ki];
            let cheese = Cheese::new([piece.0, piece.1, 0]);
            let start_hist = PrevPieces::new(piece);
            let branch_map = Box::new(PiecesMap::clone(&*pieces_map));
            let start = PossPath::new(cheese, start_hist, branch_map);
            proof {
                broadcast use vstd::multiset::group_multiset_axioms;

                assert(cheese.size@ =~= seq![piece.0, piece.1, 0u32]);
                assert(start.prev_pieces.tail() =~= Seq::<(Piece, bool)>::empty());
                real_values(start.prev_pieces.tail()).to_multiset_ensures();
                vstd::multiset::lemma_multiset_empty_len(
                    real_values(start.prev_pieces.tail()).to_multiset(),
                );
                assert(start.pieces_left.ms().add(start.real_ms()) =~= root0);
                assert(grows_to(start.prev_pieces@, start.cheese.size@));
                assert(start.inv(root0));
                assert(seed_ok(start));
                assert(group_ok(seq![start], root0, 1, find_missing));
            }
            let mut group: Vec<PossPath> = Vec::new();
            group.push(start);
            proof {
                assert(group@ =~= seq![start]);
            }
            let ghost pre_groups = abs_groups(top_paths@);
            top_paths.push(group);
            proof {
                assert(abs_group(group@) =~= seq![seed_state(piece, root0)]);
                assert(abs_groups(top_paths@) =~= pre_groups.push(seq![seed_state(piece, root0)]));
                assert(abs_groups(top_paths@) =~= seed_groups(keys@.take(ki as int + 1), root0));
            }
            ki += 1;
        }
        proof {
            assert(keys@.take(keys@.len() as int) =~= keys@);
        }
        let ghost entry_min = min_path_len;
        match construct_cheese(top_paths, min_path_len, find_missing, Ghost(root0)) {
            Some((cheese, path, _)) => {
                let mut new_used = HistPoint::get_real_pieces(&path.curr);
                proof {
                    assert(new_used@ == real_values(path.tail()).reverse());
                    real_values(path.tail()).lemma_reverse_to_multiset();
                    assert(new_used@.to_multiset() == real_values(path.tail()).to_multiset());
                    assert(new_used@.len() >= 1) by {
                        assert(real_values(path.tail()).len() == path.len - 1);
                    }
                }
                let new_map = Box::new(pieces_map.clone_without(&new_used));
                let ghost up = used_pieces@;
                let ghost nu = new_used@;
                let ghost real_ms = real_values(path.tail()).to_multiset();
                proof {
                    let rs = results@.push((cheese, path));
                    assert(rs.drop_last() =~= results@);
                    assert(used_real(rs) == used_real(results@).add(real_ms));
                    assert forall|q: Piece|
                        used_real(rs).add(new_map.ms()).count(q) == original.count(q) by {
                        assert(real_ms.count(q) <= root0.count(q));
                    }
                    assert(used_real(rs).add(new_map.ms()) =~= original);
                    vstd::seq_lib::lemma_multiset_commutative(up, nu);
                    up.to_multiset_ensures();
                    (up + nu).to_multiset_ensures();
                }
                pieces_map = new_map;
                used_pieces.append(&mut new_used);
                proof {
                    assert(used_pieces@ == up + nu);
                    assert(used_pieces@.to_multiset() =~= used_real(results@.push((cheese, path))));
                }
                min_path_len = (((n_pieces - used_pieces.len()) as u128) * 3 / 4) as usize;
                results.push((cheese, path));
            },
            None => {
                proof {
                    if results@.len() == 0 && entry_min as int == n_pieces as int * 3 / 4 {
                        assert(distinct_support(keys@, original)) by {
                            assert forall|t: int|
                                0 <= t < keys@.len() implies original.count(#[trigger] keys@[t])
                                > 0 by {
                                lemma_pm_count(*pieces_map, keys@[t]);
                            }
                            assert forall|p: Piece| #[trigger]
                                original.count(p) > 0 implies keys@.contains(p) by {
                                lemma_pm_count(*pieces_map, p);
                                assert(pieces_map.base@.contains_key(p));
                            }
                        }
                        assert(search_states(
                            seed_groups(keys@, original),
                            0,
                            (n_pieces as int * 3 / 4) as nat,
                            find_missing,
                            search_fuel(original),
                        ) is None);
                    }
                }
                min_path_len = min_path_len / 2;
            },
        }
    }
    (results, pieces_map)
}

/// The smallest hypothesized-slice count among the branches of one group.
fn min_added_of(paths: &Vec<PossPath>) -> (r: u32)
    ensures
        r == min_added(paths@),
{
    let mut min_val: u32 = u32::MAX;
    let mut i: usize = 0;
    while i < paths.len()
        invariant
            i <= paths@.len(),
            min_val == min_added(paths@.take(i as int)),
        decreases paths@.len() - i,
    {
        proof {
            assert(paths@.take(i as int + 1).drop_last() =~= paths@.take(i as int));
            assert(paths@.take(i as int + 1).last() == paths@[i as int]);
        }
        let n = paths[i].prev_pieces.n_added;
        if n < min_val {
            min_val = n;
        }
        i += 1;
    }
    proof {
        assert(paths@.take(paths@.len() as int) =~= paths@);
    }
    min_val
}

} // verus!
