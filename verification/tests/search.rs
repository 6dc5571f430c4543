use gomoku_engine::minimax::{get_moves, resolve_mate_depth, GomokuSolver, Move, MoveFlat};
use gomoku_engine::piece::Piece;
use gomoku_engine::position::Position;
use gomoku_engine::score::Score;
use gomoku_engine::CalculateRequest;

fn cell(x: usize, y: usize) -> u64 {
    (y * 19 + x) as u64
}

#[test]
fn opening_move_is_center() {
    // Empty board, hint for Max at depth two: the principal move is the
    // injected center, the score is finite and small, no mate distance.
    let request = CalculateRequest {
        board: vec![],
        depth: 2,
        in_move: None,
        player: Piece::Max,
        captures: [0, 0],
        is_hint: Some(true),
    };
    let mut solver = GomokuSolver::from_request(&request);
    let res = solver.solve().unwrap();
    assert_eq!((res.position.x, res.position.y), (10, 10));
    let flat = get_moves(&res);
    assert_eq!(resolve_mate_depth(&res.score, &flat), None);
    match res.score {
        Score::Fin(v) => assert!(v.abs() < 10_000),
        _ => panic!("opening score must be finite"),
    }
}

#[test]
fn immediate_win_by_five() {
    // Max has an open four on row 10; Max to move (the request names Min
    // as the side that just moved). The search completes the five.
    let request = CalculateRequest {
        board: vec![
            (cell(7, 10), 0),
            (cell(8, 10), 0),
            (cell(9, 10), 0),
            (cell(10, 10), 0),
            (cell(5, 5), 1),
            (cell(6, 6), 1),
        ],
        depth: 4,
        in_move: None,
        player: Piece::Min,
        captures: [0, 0],
        is_hint: None,
    };
    let mut solver = GomokuSolver::from_request(&request);
    let res = solver.solve().unwrap();
    let winning = (res.position.x, res.position.y);
    assert!(winning == (6, 10) || winning == (11, 10), "got {:?}", winning);
    assert_eq!(res.score, Score::PosInf);
    let flat = get_moves(&res);
    assert_eq!(resolve_mate_depth(&res.score, &flat), Some(0));
}

#[test]
fn capture_race_override_wins_by_fifth_capture() {
    // Min already shows a won position (a five on the board), but Max
    // holds four captured pairs and can take a fifth: the search must not
    // stop at the infinite evaluation and must return the capture.
    let request = CalculateRequest {
        board: vec![
            // Min five in column 5: heuristically lost for Max.
            (cell(5, 5), 1),
            (cell(5, 6), 1),
            (cell(5, 7), 1),
            (cell(5, 8), 1),
            (cell(5, 9), 1),
            // A capturable Min pair next to a Max stone.
            (cell(10, 10), 0),
            (cell(11, 10), 1),
            (cell(12, 10), 1),
        ],
        depth: 3,
        in_move: None,
        player: Piece::Min,
        captures: [4, 2],
        is_hint: None,
    };
    let mut solver = GomokuSolver::from_request(&request);
    let res = solver.solve().unwrap();
    assert_eq!((res.position.x, res.position.y), (13, 10));
    assert_eq!(res.score, Score::PosInf);
}

#[test]
fn in_move_is_applied_before_search() {
    // The request carries the move Min just played; the solver applies it
    // with capture detection before searching.
    let request = CalculateRequest {
        board: vec![
            (cell(5, 5), 1),
            (cell(6, 5), 0),
            (cell(7, 5), 0),
        ],
        depth: 1,
        in_move: Some(Position::new(8, 5)),
        player: Piece::Min,
        captures: [0, 0],
        is_hint: None,
    };
    let solver = GomokuSolver::from_request(&request);
    assert_eq!(solver.captures, [0, 1]);
    assert_eq!(solver.board.get(8, 5), Piece::Min);
    assert_eq!(solver.board.get(6, 5), Piece::Empty);
    assert_eq!(solver.board.get(7, 5), Piece::Empty);
}

#[test]
fn principal_variation_scores_are_consistent() {
    let request = CalculateRequest {
        board: vec![(cell(9, 9), 0), (cell(10, 9), 1)],
        depth: 2,
        in_move: None,
        player: Piece::Min,
        captures: [0, 0],
        is_hint: None,
    };
    let mut solver = GomokuSolver::from_request(&request);
    let res = solver.solve().unwrap();
    // Every node's backed-up score equals its child's score, down to the
    // leaf, whose score is its own evaluation.
    let mut node: &Move = &res;
    while let Some(child) = &node.child {
        assert_eq!(node.score, child.score);
        node = child;
    }
    assert_eq!(node.score, node.depth_score);
}

#[test]
fn depth_entries_count_nodes_per_level() {
    let request = CalculateRequest {
        board: vec![(cell(9, 9), 0)],
        depth: 1,
        in_move: None,
        player: Piece::Min,
        captures: [0, 0],
        is_hint: None,
    };
    let mut solver = GomokuSolver::from_request(&request);
    let _ = solver.solve().unwrap();
    assert_eq!(solver.depth_entries.len(), 2);
    // One root entry; one child per legal candidate around the stone.
    assert_eq!(solver.depth_entries[0], 1);
    assert_eq!(solver.depth_entries[1], 8);
}

#[test]
fn flatten_walks_the_chain() {
    let leaf = Move {
        score: Score::Fin(3),
        depth_score: Score::Fin(3),
        depth_hit: 0,
        position: Position::new(4, 4),
        capture_map: 0,
        captures: [0, 0],
        order_idx: 0,
        cutoff_at: 0,
        child: None,
    };
    let root = Move {
        score: Score::Fin(3),
        depth_score: Score::Fin(7),
        depth_hit: 0,
        position: Position::new(2, 2),
        capture_map: 0,
        captures: [0, 0],
        order_idx: 5,
        cutoff_at: 9,
        child: Some(Box::new(leaf)),
    };
    let flat = get_moves(&root);
    assert_eq!(flat.len(), 1);
    assert_eq!((flat[0].position.x, flat[0].position.y), (2, 2));
    assert_eq!(flat[0].order_idx, 5);
    assert_eq!(flat[0].cutoff_at, 9);
    assert_eq!(flat[0].score, Score::Fin(3));
}

#[test]
fn mate_depth_from_score_and_variation() {
    let mk = |x: usize| MoveFlat {
        score: Score::PosInf,
        position: Position::new(x, 0),
        order_idx: 0,
        cutoff_at: 0,
    };
    let moves = vec![mk(1), mk(2), mk(3)];
    assert_eq!(resolve_mate_depth(&Score::Fin(55), &moves), None);
    assert_eq!(resolve_mate_depth(&Score::PosInf, &moves), Some(2));
    assert_eq!(resolve_mate_depth(&Score::NegInf, &moves), Some(-2));
    let empty: Vec<MoveFlat> = vec![];
    assert_eq!(resolve_mate_depth(&Score::PosInf, &empty), Some(0));
}
