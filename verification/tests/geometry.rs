use cheese_rebuild::cheese::{Cheese, Piece};

#[test]
fn canonical_orientation_sorts_dimensions() {
    assert_eq!(Piece::new(2, 3), Piece(3, 2));
    assert_eq!(Piece::new(3, 2), Piece(3, 2));
    assert_eq!(Piece::new(5, 5), Piece(5, 5));
}

#[test]
fn canonicalize_commutes() {
    for a in 0..6u32 {
        for b in 0..6u32 {
            assert_eq!(Piece::new(a, b), Piece::new(b, a));
        }
    }
}

#[test]
fn sides_are_canonical_faces() {
    let c = Cheese::new([4, 3, 2]);
    let sides = c.get_sides();
    assert_eq!(sides, vec![Piece(3, 2), Piece(4, 2), Piece(4, 3)]);
}

#[test]
fn sides_n_names_the_axis_pairs() {
    assert_eq!(Cheese::get_sides_n(), vec![(1, 2), (0, 2), (0, 1)]);
}

#[test]
fn degenerate_block_top_face_is_the_seed() {
    let c = Cheese::new([2, 2, 0]);
    let sides = c.get_sides();
    assert_eq!(sides[2], Piece(2, 2));
    assert_eq!(sides[0], Piece(2, 0));
}
