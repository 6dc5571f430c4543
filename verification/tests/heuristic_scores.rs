use gomoku_engine::board::Board;
use gomoku_engine::heuristic::{Heuristic, Line};
use gomoku_engine::piece::Piece;
use gomoku_engine::position::Position;
use gomoku_engine::score::Score;

fn cell(x: usize, y: usize) -> u64 {
    (y * 19 + x) as u64
}

#[test]
fn line_score_tables() {
    // Open-table values, in internal units (one table unit is 152).
    assert_eq!(Line::calculate(0, 1, Piece::Max), Score::Fin(304));
    assert_eq!(Line::calculate(0, 2, Piece::Max), Score::Fin(608));
    assert_eq!(Line::calculate(0, 3, Piece::Max), Score::Fin(2432));
    assert_eq!(Line::calculate(0, 4, Piece::Max), Score::Fin(9728));
    assert_eq!(Line::calculate(0, 5, Piece::Max), Score::PosInf);
    // A half-open pair scores zero: one capture removes it.
    assert_eq!(Line::calculate(1, 2, Piece::Max), Score::Fin(0));
    assert_eq!(Line::calculate(2, 2, Piece::Max), Score::Fin(0));
    assert_eq!(Line::calculate(1, 3, Piece::Max), Score::Fin(1216));
    assert_eq!(Line::calculate(1, 4, Piece::Max), Score::Fin(2432));
    // Sealed lines are worthless short of five.
    assert_eq!(Line::calculate(3, 4, Piece::Max), Score::Fin(0));
    assert_eq!(Line::calculate(3, 5, Piece::Max), Score::PosInf);
    // Min lines carry the negated score.
    assert_eq!(Line::calculate(0, 3, Piece::Min), Score::Fin(-2432));
    assert_eq!(Line::calculate(0, 5, Piece::Min), Score::NegInf);
}

#[test]
fn empty_board_scores_zero() {
    let b = Board::new();
    let mut h = Heuristic::from_board(&b, &[0, 0]);
    assert_eq!(h.get_heuristic(), Score::Fin(0));
}

#[test]
fn single_stone_scores_positional_bonus() {
    // One Max stone near the center: no line, only the positional bonus
    // 4 * (38 - |19-2y| - |19-2x|) = 4 * 36.
    let b = Board::from_map(&vec![(cell(9, 9), 0u64)]);
    let mut h = Heuristic::from_board(&b, &[0, 0]);
    assert_eq!(h.get_heuristic(), Score::Fin(144));
}

#[test]
fn open_pair_scores_table_plus_bonuses() {
    // Max at (9,9) and (10,9): one open two (4 units = 608) plus two
    // positional bonuses of 144 each.
    let b = Board::from_map(&vec![(cell(9, 9), 0u64), (cell(10, 9), 0u64)]);
    let mut h = Heuristic::from_board(&b, &[0, 0]);
    assert_eq!(h.get_heuristic(), Score::Fin(608 + 144 + 144));
    // The pair is one line, not one per stone.
    assert_eq!(h.lines.len(), 1);
    assert_eq!(h.lines[0].length, 2);
    assert_eq!(h.lines[0].block_pos, 0);
}

#[test]
fn capture_counters_score() {
    let b = Board::new();
    let mut h = Heuristic::from_board(&b, &[1, 0]);
    assert_eq!(h.get_heuristic(), Score::Fin(1216));
    let mut h2 = Heuristic::from_board(&b, &[0, 2]);
    assert_eq!(h2.get_heuristic(), Score::Fin(-2432));
}

#[test]
fn five_captures_win_outright() {
    let b = Board::from_map(&vec![(cell(3, 3), 1u64)]);
    let mut h = Heuristic::from_board(&b, &[5, 0]);
    assert_eq!(h.get_heuristic(), Score::PosInf);
    let mut h2 = Heuristic::from_board(&b, &[0, 5]);
    assert_eq!(h2.get_heuristic(), Score::NegInf);
}

#[test]
fn five_in_a_row_is_infinite() {
    let b = Board::from_map(&vec![
        (cell(5, 5), 0u64),
        (cell(6, 5), 0u64),
        (cell(7, 5), 0u64),
        (cell(8, 5), 0u64),
        (cell(9, 5), 0u64),
    ]);
    let mut h = Heuristic::from_board(&b, &[0, 0]);
    assert_eq!(h.get_heuristic(), Score::PosInf);
}

#[test]
fn score_negates_under_color_swap() {
    // Swapping every stone's color and the capture counters negates the
    // full score.
    let entries = vec![
        (cell(4, 4), 0u64),
        (cell(5, 4), 0u64),
        (cell(6, 4), 0u64),
        (cell(9, 9), 1u64),
        (cell(9, 10), 1u64),
        (cell(2, 12), 0u64),
        (cell(3, 13), 1u64),
    ];
    let flipped: Vec<(u64, u64)> = entries.iter().map(|e| (e.0, 1 - e.1)).collect();
    let b1 = Board::from_map(&entries);
    let b2 = Board::from_map(&flipped);
    let s1 = Heuristic::from_board(&b1, &[3, 1]).get_heuristic();
    let s2 = Heuristic::from_board(&b2, &[1, 3]).get_heuristic();
    match (s1, s2) {
        (Score::Fin(a), Score::Fin(b)) => assert_eq!(a, -b),
        _ => panic!("expected finite scores"),
    }
}

#[test]
fn line_coverage_after_build() {
    // Every stone with a same-color axis neighbor is covered by a line of
    // the store in that axis, and the line's span contains the cell.
    let entries = vec![
        (cell(4, 4), 0u64),
        (cell(5, 4), 0u64),
        (cell(6, 4), 0u64),
        (cell(6, 5), 0u64),
        (cell(6, 6), 0u64),
        (cell(9, 9), 1u64),
        (cell(10, 10), 1u64),
        (cell(11, 11), 1u64),
        (cell(2, 12), 1u64),
    ];
    let b = Board::from_map(&entries);
    let h = Heuristic::from_board(&b, &[0, 0]);
    let deltas = [(1i64, 0i64), (0, 1), (1, 1), (1, -1)];
    for y in 0..19i64 {
        for x in 0..19i64 {
            let piece = b.get(x as usize, y as usize);
            if piece == Piece::Empty {
                continue;
            }
            for (a, (dx, dy)) in deltas.iter().enumerate() {
                let mut has_same = false;
                for s in [-1i64, 1i64] {
                    let nx = x + s * dx;
                    let ny = y + s * dy;
                    if (0..19).contains(&nx) && (0..19).contains(&ny)
                        && b.get(nx as usize, ny as usize) == piece
                    {
                        has_same = true;
                    }
                }
                let id = h.line_pos[(y * 19 + x) as usize][a];
                let resolved = h.lines.iter().find(|l| l.id == id);
                if has_same {
                    let line = resolved.expect("covered cell must resolve to a line");
                    assert_eq!(line.player, piece);
                    assert_eq!(line.direction as usize, a);
                    // The cell lies within the line's span.
                    let sx = line.start.x as i64;
                    let sy = line.start.y as i64;
                    let on = (0..line.length as i64)
                        .any(|k| sx + k * dx == x && sy + k * dy == y);
                    assert!(on, "cell must lie on its covering line");
                } else {
                    assert!(resolved.is_none(), "isolated cell must not resolve");
                }
            }
        }
    }
}

#[test]
fn virtual_move_predicts_extension() {
    // Board: one Max stone at (5,5), whose positional bonus is
    // 4 * (38 - 9 - 9) = 80. Playing Max at (6,5) makes an open two
    // (608) plus three singleton axes (304 each).
    let b = Board::from_map(&vec![(cell(5, 5), 0u64)]);
    let mut h = Heuristic::from_board(&b, &[0, 0]);
    h.get_heuristic();
    let e = h
        .evaluate_virtual_move(Position::new(6, 5), Piece::Max)
        .unwrap();
    assert_eq!(e.score, Score::Fin(80 + 608 + 3 * 304));
    assert_eq!(e.capture_map, 0);
    assert_eq!(e.capture_count, 0);
}

#[test]
fn virtual_move_flags_capture() {
    // Max at (10,10); Min pair at (11,10),(12,10): Max playing (13,10)
    // completes the capture pattern through the backward horizontal ray.
    let b = Board::from_map(&vec![
        (cell(10, 10), 0u64),
        (cell(11, 10), 1u64),
        (cell(12, 10), 1u64),
    ]);
    let mut h = Heuristic::from_board(&b, &[0, 0]);
    h.get_heuristic();
    let e = h
        .evaluate_virtual_move(Position::new(13, 10), Piece::Max)
        .unwrap();
    assert_eq!(e.capture_map, 1);
    assert_eq!(e.capture_count, 1);
}

#[test]
fn virtual_move_flags_both_side_captures() {
    // Max-Min-Min-gap-Min-Min-Max along one row: playing the gap captures
    // through both sides of the axis, so both bits are set and both pairs
    // are counted.
    let b = Board::from_map(&vec![
        (cell(6, 5), 0u64),
        (cell(7, 5), 1u64),
        (cell(8, 5), 1u64),
        (cell(10, 5), 1u64),
        (cell(11, 5), 1u64),
        (cell(12, 5), 0u64),
    ]);
    let mut h = Heuristic::from_board(&b, &[0, 0]);
    h.get_heuristic();
    let e = h
        .evaluate_virtual_move(Position::new(9, 5), Piece::Max)
        .unwrap();
    assert_eq!(e.capture_map, 0b11);
    assert_eq!(e.capture_count, 2);

    // Applying that bitfield removes all four stones.
    let mut b2 = b.clone();
    let taken = b2.set_move(Position::new(9, 5), Piece::Max, Some(e.capture_map));
    assert_eq!(taken, 2);
    for x in [7usize, 8, 10, 11] {
        assert_eq!(b2.get(x, 5), Piece::Empty);
    }
}
