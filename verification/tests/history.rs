use cheese_rebuild::cheese::Piece;
use cheese_rebuild::prev_pieces::PrevPieces;

#[test]
fn extend_real_grows_len_only() {
    let h = PrevPieces::new(Piece(2, 2));
    assert_eq!((h.len, h.n_added), (1, 0));
    let h2 = h.extend_real(Piece(2, 1));
    assert_eq!((h2.len, h2.n_added), (2, 0));
    // the shared prefix is untouched
    assert_eq!((h.len, h.n_added), (1, 0));
}

#[test]
fn extend_added_grows_n_added_only() {
    let h = PrevPieces::new(Piece(2, 2));
    let h2 = h.extend_added(Piece(2, 1));
    assert_eq!((h2.len, h2.n_added), (1, 1));
    let h3 = h2.extend_real(Piece(1, 1));
    assert_eq!((h3.len, h3.n_added), (2, 1));
}

#[test]
fn get_pieces_walks_newest_first_without_the_root() {
    let h = PrevPieces::new(Piece(9, 9))
        .extend_real(Piece(2, 1))
        .extend_added(Piece(3, 1))
        .extend_real(Piece(4, 1));
    assert_eq!(
        h.curr.get_pieces(),
        vec![Piece(4, 1), Piece(3, 1), Piece(2, 1)]
    );
}

#[test]
fn get_real_pieces_skips_hypothesized_entries() {
    let h = PrevPieces::new(Piece(9, 9))
        .extend_real(Piece(2, 1))
        .extend_added(Piece(3, 1))
        .extend_real(Piece(4, 1));
    assert_eq!(h.curr.get_real_pieces(), vec![Piece(4, 1), Piece(2, 1)]);
}

#[test]
fn long_histories_are_released_iteratively() {
    // releasing the last handle to a long unshared chain must not recurse
    // once per node
    let mut h = PrevPieces::new(Piece(2, 1));
    for _ in 0..200_000 {
        h = h.extend_real(Piece(2, 1));
    }
    assert_eq!(h.len, 200_001);
    drop(h);
}

#[test]
fn histories_share_structure() {
    let h = PrevPieces::new(Piece(5, 5)).extend_real(Piece(5, 1));
    let a = h.extend_real(Piece(5, 2));
    let b = h.extend_added(Piece(5, 3));
    assert_eq!(a.curr.get_pieces(), vec![Piece(5, 2), Piece(5, 1)]);
    assert_eq!(b.curr.get_pieces(), vec![Piece(5, 3), Piece(5, 1)]);
    assert_eq!(h.curr.get_pieces(), vec![Piece(5, 1)]);
}
