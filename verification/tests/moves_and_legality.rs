use gomoku_engine::board::Board;
use gomoku_engine::heuristic::Heuristic;
use gomoku_engine::piece::Piece;
use gomoku_engine::position::Position;
use gomoku_engine::score::Score;

fn cell(x: usize, y: usize) -> u64 {
    (y * 19 + x) as u64
}

#[test]
fn candidates_touch_a_stone() {
    let b = Board::from_map(&vec![(cell(9, 9), 0u64), (cell(3, 3), 1u64)]);
    let mut h = Heuristic::from_board(&b, &[0, 0]);
    h.get_heuristic();
    let moves = h.get_moves(Piece::Max);
    assert!(!moves.is_empty());
    for (p, _) in &moves {
        assert_eq!(b.get(p.x, p.y), Piece::Empty);
        let mut adjacent = false;
        for dy in -1i64..2 {
            for dx in -1i64..2 {
                if dx == 0 && dy == 0 {
                    continue;
                }
                let nx = p.x as i64 + dx;
                let ny = p.y as i64 + dy;
                if (0..19).contains(&nx) && (0..19).contains(&ny)
                    && b.get(nx as usize, ny as usize) != Piece::Empty
                {
                    adjacent = true;
                }
            }
        }
        assert!(adjacent, "candidate must touch a stone");
    }
    // Two isolated stones have 8 empty neighbors each.
    assert_eq!(moves.len(), 16);
}

#[test]
fn candidates_are_ordered_and_unique() {
    let b = Board::from_map(&vec![
        (cell(9, 9), 0u64),
        (cell(10, 9), 0u64),
        (cell(12, 9), 1u64),
    ]);
    let mut h = Heuristic::from_board(&b, &[0, 0]);
    h.get_heuristic();
    let moves = h.get_moves(Piece::Max);
    for w in moves.windows(2) {
        let (a, b2) = (&w[0], &w[1]);
        // Capture count descending, then score descending for Max, then
        // row-major cell order.
        assert!(a.1.capture_count >= b2.1.capture_count);
        if a.1.capture_count == b2.1.capture_count && a.1.score == b2.1.score {
            assert!(a.0.to_u64() < b2.0.to_u64());
        }
    }
    for i in 0..moves.len() {
        for j in (i + 1)..moves.len() {
            assert_ne!(moves[i].0.to_u64(), moves[j].0.to_u64());
        }
    }
}

#[test]
fn capture_moves_sort_first() {
    let b = Board::from_map(&vec![
        (cell(10, 10), 0u64),
        (cell(11, 10), 1u64),
        (cell(12, 10), 1u64),
    ]);
    let mut h = Heuristic::from_board(&b, &[0, 0]);
    h.get_heuristic();
    let moves = h.get_moves(Piece::Max);
    assert_eq!((moves[0].0.x, moves[0].0.y), (13, 10));
    assert_eq!(moves[0].1.capture_count, 1);
}

#[test]
fn double_free_three_refused() {
    // Max open twos at (7,9),(8,9) and (9,7),(9,8): playing (9,9) would
    // complete two free threes at once.
    let b = Board::from_map(&vec![
        (cell(7, 9), 0u64),
        (cell(8, 9), 0u64),
        (cell(9, 7), 0u64),
        (cell(9, 8), 0u64),
    ]);
    let mut h = Heuristic::from_board(&b, &[0, 0]);
    h.get_heuristic();

    assert!(!h.validate_move(Position::new(9, 9), Piece::Max));
    let inv = h.get_invalid_moves(Piece::Max);
    assert!(inv.iter().any(|p| p.x == 9 && p.y == 9));

    // A plain extension elsewhere stays legal, and the same cell is legal
    // for the opponent.
    assert!(h.validate_move(Position::new(6, 9), Piece::Max));
    assert!(h.validate_move(Position::new(9, 9), Piece::Min));
}

#[test]
fn single_free_three_allowed() {
    let b = Board::from_map(&vec![(cell(7, 9), 0u64), (cell(8, 9), 0u64)]);
    let mut h = Heuristic::from_board(&b, &[0, 0]);
    h.get_heuristic();
    assert!(h.validate_move(Position::new(9, 9), Piece::Max));
    assert!(h.get_invalid_moves(Piece::Max).is_empty());
}

#[test]
fn legality_is_color_symmetric() {
    let entries = vec![
        (cell(7, 9), 0u64),
        (cell(8, 9), 0u64),
        (cell(9, 7), 0u64),
        (cell(9, 8), 0u64),
        (cell(3, 3), 1u64),
    ];
    let flipped: Vec<(u64, u64)> = entries.iter().map(|e| (e.0, 1 - e.1)).collect();
    let b1 = Board::from_map(&entries);
    let b2 = Board::from_map(&flipped);
    let h1 = Heuristic::from_board(&b1, &[0, 0]);
    let h2 = Heuristic::from_board(&b2, &[0, 0]);
    for c in 0..361usize {
        let p = Position::from_u64(c);
        if b1.get(p.x, p.y) != Piece::Empty {
            continue;
        }
        assert_eq!(
            h1.validate_move(p, Piece::Max),
            h2.validate_move(p, Piece::Min),
            "legality must be color-symmetric at ({}, {})",
            p.x,
            p.y
        );
    }
}

#[test]
fn virtual_scores_break_ties_by_position() {
    // On an empty-ish board all plain extensions tie in capture count;
    // scores and the positional quarter-bonus order them for Max.
    let b = Board::from_map(&vec![(cell(9, 9), 0u64)]);
    let mut h = Heuristic::from_board(&b, &[0, 0]);
    h.get_heuristic();
    let moves = h.get_moves(Piece::Max);
    assert_eq!(moves.len(), 8);
    for w in moves.windows(2) {
        match (&w[0].1.score, &w[1].1.score) {
            (Score::Fin(a), Score::Fin(b2)) => assert!(a >= b2),
            _ => panic!("expected finite candidate scores"),
        }
    }
}

#[test]
fn triple_free_three_refused() {
    // Open Max pairs on three axes around (9,9): the move would create
    // three free threes at once, which the rule also forbids.
    let b = Board::from_map(&vec![
        (cell(7, 9), 0u64),
        (cell(8, 9), 0u64),
        (cell(9, 7), 0u64),
        (cell(9, 8), 0u64),
        (cell(7, 7), 0u64),
        (cell(8, 8), 0u64),
    ]);
    let mut h = Heuristic::from_board(&b, &[0, 0]);
    h.get_heuristic();
    assert!(!h.validate_move(Position::new(9, 9), Piece::Max));
    let inv = h.get_invalid_moves(Piece::Max);
    assert!(inv.iter().any(|p| p.x == 9 && p.y == 9));
}
