use gomoku_engine::board::Board;
use gomoku_engine::heuristic::Heuristic;
use gomoku_engine::minimax::GameState;
use gomoku_engine::piece::Piece;
use gomoku_engine::position::Position;

#[test]
fn derive_matches_rebuild_over_a_long_game() {
    // A scripted 40-ply game: the score of the heuristic derived ply by
    // ply from its parent must match a from-scratch rebuild at every ply.
    let mut board = Board::new();
    let mut captures = [0usize, 0usize];
    let mut chained = Heuristic::from_board(&board, &captures);

    for k in 0..40usize {
        let player = if k % 2 == 0 { Piece::Max } else { Piece::Min };
        let x = 2 + (k * 7) % 15;
        let y = 2 + (k * 5) % 13;
        let pos = Position::new(x, y);
        if board.get(x, y) != Piece::Empty {
            continue;
        }
        let taken = board.set_move(pos, player, None);
        if player == Piece::Max {
            captures[0] += taken;
        } else {
            captures[1] += taken;
        }

        let state = GameState {
            board: board.clone(),
            captures,
            player,
        };
        let mut derived = chained.from_new_state(&state);
        let mut rebuilt = Heuristic::from_board(&board, &captures);
        assert_eq!(
            derived.get_heuristic(),
            rebuilt.get_heuristic(),
            "derive and rebuild disagree at ply {}",
            k
        );
        chained = derived;
    }
}

#[test]
fn derive_after_captures_matches_rebuild() {
    // A move that removes stones changes several cells at once; the
    // derived evaluator must still match a rebuild.
    let mut board = Board::new();
    board.set_move(Position::new(5, 5), Piece::Max, None);
    board.set_move(Position::new(6, 5), Piece::Min, None);
    board.set_move(Position::new(7, 5), Piece::Min, None);
    let parent = Heuristic::from_board(&board, &[0, 0]);

    let mut board2 = board.clone();
    let taken = board2.set_move(Position::new(8, 5), Piece::Max, None);
    assert_eq!(taken, 1);

    let state = GameState {
        board: board2.clone(),
        captures: [1, 0],
        player: Piece::Max,
    };
    let mut derived = parent.from_new_state(&state);
    let mut rebuilt = Heuristic::from_board(&board2, &[1, 0]);
    assert_eq!(derived.get_heuristic(), rebuilt.get_heuristic());
}
