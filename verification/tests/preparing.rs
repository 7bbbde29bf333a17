use cheese_rebuild::cheese::Piece;
use cheese_rebuild::prepare::{eat_pieces, pieces_from_records};

#[test]
fn records_are_canonicalized() {
    let records = vec![(2, 3), (4, 1), (5, 5)];
    let pieces = pieces_from_records(&records, 3).unwrap();
    assert_eq!(pieces, vec![Piece(3, 2), Piece(4, 1), Piece(5, 5)]);
}

#[test]
fn wrong_declared_count_is_rejected() {
    let records = vec![(2, 3), (4, 1)];
    assert!(pieces_from_records(&records, 3).is_none());
    assert!(pieces_from_records(&records, 1).is_none());
    assert!(pieces_from_records(&vec![], 0).is_some());
}

#[test]
fn eating_skips_drawn_pieces() {
    let pieces = vec![Piece(1, 1), Piece(2, 2), Piece(3, 3), Piece(4, 4)];
    let draws = vec![false, true, false, true];
    assert_eq!(
        eat_pieces(pieces, &draws),
        vec![Piece(1, 1), Piece(3, 3)]
    );
}

#[test]
fn the_piece_after_an_eaten_one_survives() {
    let pieces = vec![Piece(1, 1), Piece(2, 2), Piece(3, 3)];
    let draws = vec![true, true, true];
    // the first draw removes, the second is overridden, the third removes
    assert_eq!(eat_pieces(pieces, &draws), vec![Piece(2, 2)]);
}
