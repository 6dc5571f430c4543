use gomoku_engine::piece::{Piece, PieceWrap};
use gomoku_engine::position::Position;

#[test]
fn position_new_and_index() {
    let p = Position::new(3, 4);
    assert_eq!(p.x, 3);
    assert_eq!(p.y, 4);
    assert_eq!(p.to_u64(), 4 * 19 + 3);
}

#[test]
fn position_from_u64_round_trip() {
    for c in 0..361usize {
        let p = Position::from_u64(c);
        assert_eq!(p.to_u64() as usize, c);
        assert!(p.x < 19 && p.y < 19);
    }
}

#[test]
fn position_check_pos_bounds() {
    assert!(Position { x: 18, y: 18 }.check_pos().is_ok());
    assert!(Position { x: 19, y: 0 }.check_pos().is_err());
    assert!(Position { x: 0, y: 19 }.check_pos().is_err());
}

#[test]
fn relocate_moves_and_rejects_walls() {
    let mut p = Position::new(0, 0);
    assert!(p.relocate(1, 1).is_ok());
    assert_eq!((p.x, p.y), (1, 1));
    assert!(p.relocate(-2, 0).is_err());
    // A failed move leaves the position where it was.
    assert_eq!((p.x, p.y), (1, 1));
}

#[test]
fn relocate_n_walks_and_stops() {
    let mut p = Position::new(2, 2);
    assert!(p.relocate_n(1, 1, 3).is_ok());
    assert_eq!((p.x, p.y), (5, 5));
    let mut q = Position::new(17, 5);
    assert!(q.relocate_n(1, 0, 3).is_err());
}

#[test]
fn piece_predicates() {
    assert!(Piece::Max.is_max());
    assert!(!Piece::Max.is_min());
    assert!(Piece::Min.is_min());
    assert!(Piece::Empty.is_empty());
    assert!(!Piece::Empty.is_piece());
    assert!(Piece::Max.is_piece());
}

#[test]
fn piece_opposite_rules() {
    // Empty counts as opposite to both colors.
    assert!(Piece::Empty.is_opposite(&Piece::Max));
    assert!(Piece::Empty.is_opposite(&Piece::Min));
    assert!(Piece::Max.is_opposite(&Piece::Min));
    assert!(!Piece::Max.is_opposite(&Piece::Max));
    assert_eq!(Piece::Max.get_opposite(), Piece::Min);
    assert_eq!(Piece::Min.get_opposite(), Piece::Max);
}

#[test]
fn piece_equality_rules() {
    assert!(Piece::Max.is_equal(&Piece::Max));
    assert!(!Piece::Empty.is_equal(&Piece::Empty));
    assert!(!Piece::Min.is_equal(&Piece::Max));
}

#[test]
fn piece_wire_codes() {
    assert_eq!(Piece::try_from(0), Ok(Piece::Max));
    assert_eq!(Piece::try_from(1), Ok(Piece::Min));
    assert_eq!(Piece::try_from(7), Err(()));
    assert_eq!(Piece::from_code(2), Piece::Empty);
    assert_eq!(Piece::default(), Piece::Empty);
}
