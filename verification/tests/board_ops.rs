use gomoku_engine::board::{Board, BoardIterator};
use gomoku_engine::piece::Piece;
use gomoku_engine::position::Position;

fn cell(x: usize, y: usize) -> u64 {
    (y * 19 + x) as u64
}

#[test]
fn new_board_is_empty() {
    let b = Board::new();
    assert_eq!(b.len(), 361);
    for y in 0..19 {
        for x in 0..19 {
            assert_eq!(b.get(x, y), Piece::Empty);
        }
    }
}

#[test]
fn from_map_decodes_codes() {
    let entries = vec![(cell(1, 2), 0u64), (cell(3, 4), 1u64), (cell(5, 6), 9u64)];
    let b = Board::from_map(&entries);
    assert_eq!(b.get(1, 2), Piece::Max);
    assert_eq!(b.get(3, 4), Piece::Min);
    // An unknown code decodes to an empty cell.
    assert_eq!(b.get(5, 6), Piece::Empty);
    assert_eq!(b.get(0, 0), Piece::Empty);
}

#[test]
fn from_map_later_entry_wins() {
    let entries = vec![(cell(7, 7), 0u64), (cell(7, 7), 1u64)];
    let b = Board::from_map(&entries);
    assert_eq!(b.get(7, 7), Piece::Min);
}

#[test]
fn get_diff_lists_disagreements_in_order() {
    let b1 = Board::from_map(&vec![(cell(2, 0), 0u64), (cell(5, 5), 1u64)]);
    let b2 = Board::from_map(&vec![(cell(2, 0), 0u64), (cell(9, 3), 0u64)]);
    let diff = Board::get_diff(&b1, &b2);
    assert_eq!(diff.len(), 2);
    assert_eq!((diff[0].x, diff[0].y), (9, 3));
    assert_eq!((diff[1].x, diff[1].y), (5, 5));
}

#[test]
fn get_captures_flags_each_ray() {
    // Two capturable Min pairs around (9, 9): to the left (ray 0) and
    // downward (ray 3).
    let b = Board::from_map(&vec![
        (cell(8, 9), 1u64),
        (cell(7, 9), 1u64),
        (cell(6, 9), 0u64),
        (cell(9, 10), 1u64),
        (cell(9, 11), 1u64),
        (cell(9, 12), 0u64),
    ]);
    let mask = Board::get_captures(&b, Position::new(9, 9), Piece::Max);
    assert_eq!(mask, (1 << 0) | (1 << 3));
}

#[test]
fn get_captures_requires_own_stone_behind() {
    // Two Min stones with an empty cell behind them: no capture.
    let b = Board::from_map(&vec![(cell(8, 9), 1u64), (cell(7, 9), 1u64)]);
    let mask = Board::get_captures(&b, Position::new(9, 9), Piece::Max);
    assert_eq!(mask, 0);
}

#[test]
fn capture_application() {
    // Max at (5,5); Min at (6,5),(7,5); Max plays (8,5): the pair is
    // removed and one captured pair is reported.
    let mut b = Board::from_map(&vec![
        (cell(5, 5), 0u64),
        (cell(6, 5), 1u64),
        (cell(7, 5), 1u64),
    ]);
    let applied = b.set_move(Position::new(8, 5), Piece::Max, None);
    assert_eq!(applied, 1);
    assert_eq!(b.get(8, 5), Piece::Max);
    assert_eq!(b.get(6, 5), Piece::Empty);
    assert_eq!(b.get(7, 5), Piece::Empty);
    assert_eq!(b.get(5, 5), Piece::Max);
}

#[test]
fn set_move_with_explicit_mask_matches_detection() {
    let entries = vec![
        (cell(5, 5), 0u64),
        (cell(6, 5), 1u64),
        (cell(7, 5), 1u64),
    ];
    let mut b1 = Board::from_map(&entries);
    let mut b2 = Board::from_map(&entries);
    let pos = Position::new(8, 5);

    let n1 = b1.set_move(pos, Piece::Max, None);

    // Detect first, then hand the bitfield in, as the search does.
    let mut probe = Board::from_map(&entries);
    probe.set_move(pos, Piece::Max, Some(0));
    let mask = Board::get_captures(&probe, pos, Piece::Max);
    let n2 = b2.set_move(pos, Piece::Max, Some(mask));

    assert_eq!(n1, n2);
    for y in 0..19 {
        for x in 0..19 {
            assert_eq!(b1.get(x, y), b2.get(x, y));
        }
    }
}

#[test]
fn set_move_zero_mask_skips_detection() {
    let mut b = Board::from_map(&vec![
        (cell(5, 5), 0u64),
        (cell(6, 5), 1u64),
        (cell(7, 5), 1u64),
    ]);
    let applied = b.set_move(Position::new(8, 5), Piece::Max, Some(0));
    assert_eq!(applied, 0);
    assert_eq!(b.get(6, 5), Piece::Min);
    assert_eq!(b.get(7, 5), Piece::Min);
}

#[test]
fn board_iterator_walks_all_cells_once() {
    let b = Board::new();
    let mut it: BoardIterator = b.into_iter();
    let mut count = 0usize;
    while let Some(p) = it.next() {
        assert_eq!(p.to_u64() as usize, count);
        count += 1;
    }
    assert_eq!(count, 361);
    assert!(it.next().is_none());
}

#[test]
fn board_clone_is_equal() {
    let b = Board::from_map(&vec![(cell(4, 4), 0u64), (cell(5, 4), 1u64)]);
    let c = b.clone();
    for y in 0..19 {
        for x in 0..19 {
            assert_eq!(b.get(x, y), c.get(x, y));
        }
    }
}
