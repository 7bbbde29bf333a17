use cheese_rebuild::cheese::Piece;
use cheese_rebuild::pieces_map::PiecesMap;

fn counts(m: &PiecesMap, p: Piece) -> u32 {
    m.get(&p).copied().unwrap_or(0)
}

#[test]
fn new_counts_multiplicities() {
    let pieces = vec![Piece(2, 1), Piece(2, 1), Piece(3, 3), Piece(2, 1)];
    let m = PiecesMap::new(&pieces);
    assert_eq!(counts(&m, Piece(2, 1)), 3);
    assert_eq!(counts(&m, Piece(3, 3)), 1);
    assert_eq!(m.get(&Piece(4, 1)), None);
}

#[test]
fn insert_writes_only_the_overlay() {
    let pieces = vec![Piece(2, 1), Piece(2, 1)];
    let mut m = PiecesMap::new(&pieces);
    let old = m.insert(Piece(2, 1), 1);
    assert_eq!(old, None);
    assert_eq!(counts(&m, Piece(2, 1)), 1);
    assert_eq!(*m.base.get(&Piece(2, 1)).unwrap(), 2);
}

#[test]
fn fold_preserves_merged_counts() {
    let pieces = vec![Piece(2, 1), Piece(2, 1), Piece(3, 1), Piece(4, 4)];
    let mut m = PiecesMap::new(&pieces);
    m.insert(Piece(2, 1), 1);
    m.insert(Piece(3, 1), 0);
    // the overlay now outgrows a tenth of the base, so the copy folds it
    let copy = m.make_copy();
    for v in [&m, &copy] {
        assert_eq!(counts(v, Piece(2, 1)), 1);
        assert_eq!(counts(v, Piece(3, 1)), 0);
        assert_eq!(counts(v, Piece(4, 4)), 1);
    }
    // the fold reconciled the overlay into a fresh base and cleared it
    assert!(m.added.is_empty());
    assert_eq!(*m.base.get(&Piece(2, 1)).unwrap(), 1);
    assert_eq!(m.base.get(&Piece(3, 1)), None);
}

#[test]
fn branch_copies_are_independent() {
    let pieces = vec![Piece(2, 2), Piece(2, 2)];
    let mut m = PiecesMap::new(&pieces);
    let mut copy = m.make_copy();
    copy.insert(Piece(2, 2), 1);
    assert_eq!(counts(&m, Piece(2, 2)), 2);
    assert_eq!(counts(&copy, Piece(2, 2)), 1);
}

#[test]
fn clone_without_subtracts_one_unit_each() {
    let pieces = vec![Piece(2, 1), Piece(2, 1), Piece(3, 3)];
    let m = PiecesMap::new(&pieces);
    let removed = vec![Piece(2, 1), Piece(3, 3), Piece(9, 9)];
    let r = m.clone_without(&removed);
    assert_eq!(counts(&r, Piece(2, 1)), 1);
    // the count reached zero, so the entry is gone entirely
    assert_eq!(r.get(&Piece(3, 3)), None);
    assert_eq!(r.get(&Piece(9, 9)), None);
    // the source is untouched
    assert_eq!(counts(&m, Piece(3, 3)), 1);
}

#[test]
fn base_pieces_lists_each_distinct_piece_once() {
    let pieces = vec![Piece(2, 1), Piece(2, 1), Piece(3, 3)];
    let m = PiecesMap::new(&pieces);
    let mut keys = m.base_pieces();
    keys.sort();
    assert_eq!(keys, vec![Piece(2, 1), Piece(3, 3)]);
}
