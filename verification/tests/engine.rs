use cheese_rebuild::cheese::{Cheese, Piece};
use cheese_rebuild::cheese_builder::{construct_cheeses, filter_sub_paths, PossPath};
use cheese_rebuild::pieces_map::PiecesMap;
use cheese_rebuild::prev_pieces::PrevPieces;

fn pool(pieces: &[(u32, u32)]) -> (Box<PiecesMap>, usize) {
    let v: Vec<Piece> = pieces.iter().map(|&(a, b)| Piece::new(a, b)).collect();
    let n = v.len();
    (Box::new(PiecesMap::new(&v)), n)
}

fn leftover_is_empty(m: &PiecesMap) -> bool {
    m.base_pieces().is_empty()
}

#[test]
fn complete_inventory_rebuilds_the_cube() {
    // the slices of a 2x2x2 block, cut down to its 2x2 seed slice
    let (m, n) = pool(&[(2, 2), (2, 2)]);
    let (results, leftover) = construct_cheeses(m, n, false);
    assert_eq!(results.len(), 1);
    let (cheese, path) = &results[0];
    assert_eq!(cheese.size, [2, 2, 2]);
    assert_eq!(path.n_added, 0);
    assert_eq!(path.curr.get_real_pieces().len(), 2);
    assert!(leftover_is_empty(&leftover));
}

#[test]
fn missing_slice_is_inferred_from_downstream_evidence() {
    // as the cube above grown from a 1x1 seed, with the 2x1 slice removed
    let (m, n) = pool(&[(1, 1), (1, 1), (2, 2)]);
    let (results, leftover) = construct_cheeses(m, n, true);
    assert_eq!(results.len(), 1);
    let (cheese, path) = &results[0];
    assert_eq!(cheese.size, [2, 2, 2]);
    assert_eq!(path.n_added, 1);
    let mut real = path.curr.get_real_pieces();
    real.sort();
    assert_eq!(real, vec![Piece(1, 1), Piece(1, 1), Piece(2, 2)]);
    assert!(leftover_is_empty(&leftover));
}

#[test]
fn without_inference_a_gapped_inventory_stays_partial() {
    let (m, n) = pool(&[(1, 1), (1, 1), (2, 2)]);
    let (results, leftover) = construct_cheeses(m, n, false);
    // the cube cannot be completed: whatever was assembled, it is not 2x2x2,
    // and the run ends as an unresolved partial decomposition
    assert!(results.iter().all(|(c, _)| c.size != [2, 2, 2]));
    assert!(!leftover_is_empty(&leftover));
}

#[test]
fn conservation_across_blocks() {
    let (m, n) = pool(&[(2, 2), (2, 2), (1, 1), (1, 1), (2, 1), (2, 2)]);
    let (results, leftover) = construct_cheeses(m, n, false);
    let used: usize = results
        .iter()
        .map(|(_, path)| path.curr.get_real_pieces().len())
        .sum();
    let left: usize = leftover
        .base_pieces()
        .iter()
        .map(|p| *leftover.get(p).unwrap() as usize)
        .sum();
    assert_eq!(used + left, n);
}

#[test]
fn blocks_with_the_largest_dimension_are_handled() {
    let (m, n) = pool(&[(u32::MAX, 1), (u32::MAX, 1)]);
    let (results, leftover) = construct_cheeses(m, n, false);
    assert_eq!(results.len(), 1);
    assert_eq!(results[0].0.size, [u32::MAX, 2, 1]);
    assert!(leftover_is_empty(&leftover));
}

#[test]
fn empty_inventory_yields_no_blocks() {
    let (m, n) = pool(&[]);
    let (results, leftover) = construct_cheeses(m, n, true);
    assert!(results.is_empty());
    assert!(leftover_is_empty(&leftover));
}

#[test]
fn expansion_consumes_the_matched_slice_and_keeps_blocks_sorted() {
    let (m, _) = pool(&[(2, 1), (2, 2)]);
    let c = Cheese::new([2, 1, 1]);
    let paths: Vec<PossPath> = c.gen_poss_paths(PrevPieces::new(Piece(9, 9)), m, false);
    // only the 2x1 faces match; the two equal faces are deduplicated
    assert_eq!(paths.len(), 1);
    let branch = &paths[0];
    assert_eq!(branch.cheese.size, [2, 2, 1]);
    assert_eq!(branch.prev_pieces.len, 2);
    assert_eq!(*branch.pieces_left.get(&Piece(2, 1)).unwrap(), 0);
    let s = branch.cheese.size;
    assert!(s[0] >= s[1] && s[1] >= s[2]);
}

#[test]
fn pruning_keeps_exactly_the_fewest_hypotheses_branches() {
    let branch = |n_added: u32, tag: u32| -> PossPath {
        let mut h = PrevPieces::new(Piece(tag, 1));
        for _ in 0..n_added {
            h = h.extend_added(Piece(1, 1));
        }
        let (m, _) = pool(&[]);
        PossPath::new(Cheese::new([tag, 1, 1]), h, m)
    };
    let siblings = vec![branch(2, 10), branch(1, 11), branch(3, 12), branch(1, 13)];
    let survivors = filter_sub_paths(siblings);
    // the minimum hypothesized count of the input was 1; exactly the branches
    // at that minimum survive, in their original order
    assert_eq!(survivors.len(), 2);
    assert!(survivors.iter().all(|b| b.prev_pieces.n_added == 1));
    assert_eq!(survivors[0].cheese.size, [11, 1, 1]);
    assert_eq!(survivors[1].cheese.size, [13, 1, 1]);
}

#[test]
fn hypothesized_candidates_need_the_following_slice() {
    // no face of [2,1,1] is available, but growing the middle or the last axis
    // would next expose a 2x2 face, and a 2x2 slice is available: two
    // hypothesized candidates, none consuming anything
    let (m, _) = pool(&[(2, 2)]);
    let c = Cheese::new([2, 1, 1]);
    let paths: Vec<PossPath> = c.gen_poss_paths(PrevPieces::new(Piece(9, 9)), m, true);
    assert_eq!(paths.len(), 2);
    for branch in &paths {
        assert_eq!(branch.cheese.size, [2, 2, 1]);
        assert_eq!(branch.prev_pieces.n_added, 1);
        assert_eq!(branch.prev_pieces.len, 1);
        assert_eq!(*branch.pieces_left.get(&Piece(2, 2)).unwrap(), 1);
    }
    // with inference disabled the same branch is stuck
    let (m2, _) = pool(&[(2, 2)]);
    let stuck = c.gen_poss_paths(PrevPieces::new(Piece(9, 9)), m2, false);
    assert!(stuck.is_empty());
}

#[test]
fn candidate_faces_report_the_updated_mask() {
    let (m, _) = pool(&[(2, 1), (2, 2)]);
    let c = Cheese::new([2, 1, 1]);
    let (updated, sides) = c.find_new_sides(&m);
    // face 0 is (1, 1): absent; face 1 is (2, 1): present; face 2 repeats it
    assert_eq!(updated, vec![false, true, false]);
    assert_eq!(sides.len(), 1);
    assert_eq!(sides[0].side_n, 1);
    assert_eq!(sides[0].piece, Piece(2, 1));
    assert!(!sides[0].is_added);
}
