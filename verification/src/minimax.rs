//! Fixed-depth alpha-beta search over (board, captures, side-to-move)
//! states, threading an incrementally derived heuristic through recursion
//! and recording the principal variation.

use vstd::prelude::*;
use crate::board::{Board, spec_after_move_auto, spec_ray_count, lemma_popcount_bound, lemma_ray_count_bound};
use crate::heuristic::{Heuristic, EvaluationScore, spec_candidate, spec_index_sound, spec_slots_bounded, spec_lines_exact, lemma_index_props_congruence, lemma_capture_win_max, lemma_capture_win_min, lemma_no_lines_on_empty_board, lemma_full_score_no_lines};
use crate::piece::{Piece, PieceWrap};
use crate::CalculateRequest;
use crate::position::Position;
use crate::score::Score;

verus! {

/// One search node: a board, the capture counters and the side to move.
pub struct GameState {
    pub board: Board,
    pub captures: [usize; 2],
    pub player: Piece,
}

/// One ply of the principal variation. `score` is the minimax value
/// backed up from the child, `depth_score` the leaf evaluation of this
/// node itself, `depth_hit` how deep the leaf landed.
pub struct Move {
    pub score: Score,
    pub depth_score: Score,
    pub depth_hit: usize,
    pub position: Position,
    pub capture_map: u8,
    pub captures: [usize; 2],
    pub order_idx: usize,
    pub cutoff_at: usize,
    pub child: Option<Box<Move>>,
}

/// The backed-up score of every node in the chain is the score of its
/// child, and a leaf's score is its own evaluation.
pub open spec fn pv_consistent(m: Move) -> bool
    decreases m,
{
    match m.child {
        None => m.score == m.depth_score,
        Some(c) => m.score == c.score && pv_consistent(*c),
    }
}

/// The chain part alone: every node's score is its child's score. A
/// chain whose leaf also evaluates to its own score is `pv_consistent`.
pub open spec fn pv_chain_ok(m: Move) -> bool
    decreases m,
{
    match m.child {
        None => true,
        Some(c) => m.score == c.score && pv_chain_ok(*c),
    }
}

/// Along a consistent chain the root's score is the leaf's score.
pub proof fn lemma_pv_chain_score(m: Move)
    requires
        pv_chain_ok(m),
    ensures
        m.score == pv_leaf(m).score,
    decreases m,
{
    match m.child {
        None => {}
        Some(c) => {
            lemma_pv_chain_score(*c);
        }
    }
}

/// A chain whose leaf evaluation equals its score is consistent.
pub proof fn lemma_pv_chain_consistent(m: Move)
    requires
        pv_chain_ok(m),
        pv_leaf(m).score == pv_leaf(m).depth_score,
    ensures
        pv_consistent(m),
    decreases m,
{
    match m.child {
        None => {}
        Some(c) => {
            lemma_pv_chain_consistent(*c);
        }
    }
}

/// Search sanity: whenever the recorded principal variation ends in a
/// leaf that carries its own evaluation (every terminal except the
/// no-candidate sentinel), the root's backed-up score is exactly that
/// leaf evaluation.
pub proof fn lemma_root_score_is_leaf_evaluation(m: Move)
    requires
        pv_chain_ok(m),
        pv_leaf(m).score == pv_leaf(m).depth_score,
    ensures
        m.score == pv_leaf(m).depth_score,
{
    lemma_pv_chain_consistent(m);
    lemma_pv_score_is_leaf_depth_score(m);
}

/// Length of the child chain below a move.
pub open spec fn pv_height(m: Move) -> nat
    decreases m,
{
    match m.child {
        None => 0,
        Some(c) => 1 + pv_height(*c),
    }
}

/// The leaf at the end of the principal variation.
pub open spec fn pv_leaf(m: Move) -> Move
    decreases m,
{
    match m.child {
        None => m,
        Some(c) => pv_leaf(*c),
    }
}

/// The minimax value backed up to the root of a consistent principal
/// variation is exactly the leaf evaluation at its end.
pub proof fn lemma_pv_score_is_leaf_depth_score(m: Move)
    requires
        pv_consistent(m),
    ensures
        m.score == pv_leaf(m).depth_score,
    decreases m,
{
    match m.child {
        None => {}
        Some(c) => {
            lemma_pv_score_is_leaf_depth_score(*c);
        }
    }
}

impl Move {
    /// A leaf record: no chosen position yet, both scores filled in.
    pub fn make_half_empty(score: Score, depth_hit: usize, depth_score: Score, captures: &[usize; 2]) -> (r: Move)
        ensures
            r.score == score,
            r.depth_score == depth_score,
            r.depth_hit == depth_hit,
            r.capture_map == 0,
            r.captures == *captures,
            r.order_idx == 0,
            r.cutoff_at == 0,
            r.child is None,
            r.position == (Position { x: 0, y: 0 }),
    {
        Move {
            child: None,
            cutoff_at: 0,
            score,
            depth_score,
            depth_hit,
            order_idx: 0,
            capture_map: 0,
            captures: *captures,
            position: Position::new(0, 0),
        }
    }

    /// Adopt a child continuation: the node takes the child's backed-up
    /// score and depth hit, and records the chosen move.
    pub fn update(&mut self, order: usize, child_move: Move, pos_move: &(Position, EvaluationScore))
        ensures
            final(self).score == child_move.score,
            final(self).position == pos_move.0,
            final(self).order_idx == order,
            final(self).capture_map == pos_move.1.capture_map,
            final(self).depth_hit == child_move.depth_hit,
            final(self).child matches Some(c) && *c == child_move,
            final(self).depth_score == old(self).depth_score,
            final(self).captures == old(self).captures,
            final(self).cutoff_at == old(self).cutoff_at,
            pv_consistent(child_move) ==> pv_consistent(*final(self)),
            pv_chain_ok(child_move) ==> pv_chain_ok(*final(self)),
            pv_leaf(*final(self)) == pv_leaf(child_move),
    {
        self.score = child_move.score;
        self.position = pos_move.0;
        self.order_idx = order;
        self.capture_map = pos_move.1.capture_map;
        self.depth_hit = child_move.depth_hit;
        self.child = Some(Box::new(child_move));
    }
}

/// A flattened principal-variation entry for the response.
#[derive(Clone, Copy, Debug)]
pub struct MoveFlat {
    pub score: Score,
    pub position: Position,
    pub order_idx: usize,
    pub cutoff_at: usize,
}

/// The flattened form of the chain: one entry per node that has a child,
/// root first.
pub open spec fn spec_flat_chain(m: Move) -> Seq<MoveFlat>
    decreases m,
{
    match m.child {
        None => Seq::empty(),
        Some(c) => seq![MoveFlat {
            score: m.score,
            position: m.position,
            order_idx: m.order_idx,
            cutoff_at: m.cutoff_at,
        }] + spec_flat_chain(*c),
    }
}

/// Flatten a principal variation for the response: every node except the
/// trailing leaf, root first.
pub fn get_moves(res: &Move) -> (r: Vec<MoveFlat>)
    ensures
        r@ == spec_flat_chain(*res),
{
    let mut moves: Vec<MoveFlat> = Vec::new();
    let mut iter: &Move = res;
    proof {
        assert(moves@ + spec_flat_chain(*iter) =~= spec_flat_chain(*res));
    }
    loop
        invariant_except_break
            spec_flat_chain(*res) == moves@ + spec_flat_chain(*iter),
        ensures
            moves@ == spec_flat_chain(*res),
        decreases pv_height(*iter),
    {
        match &iter.child {
            None => {
                proof {
                    assert(moves@ + spec_flat_chain(*iter) =~= moves@);
                }
                break;
            }
            Some(c) => {
                let ghost prev = moves@;
                moves.push(MoveFlat {
                    order_idx: iter.order_idx,
                    position: iter.position,
                    score: iter.score,
                    cutoff_at: iter.cutoff_at,
                });
                proof {
                    assert(moves@ =~= prev + seq![MoveFlat {
                        score: iter.score,
                        position: iter.position,
                        order_idx: iter.order_idx,
                        cutoff_at: iter.cutoff_at,
                    }]);
                    assert(moves@ + spec_flat_chain(**c) =~= prev + spec_flat_chain(*iter));
                }
                iter = &**c;
            }
        }
    }
    moves
}

/// The mate distance derived from an infinite score: the length of the
/// principal variation less one, clamped at zero, signed by the winner.
/// A finite score carries no mate distance.
pub fn resolve_mate_depth(score: &Score, moves: &Vec<MoveFlat>) -> (r: Option<i32>)
    requires
        moves@.len() <= 0x7fff_ffff,
    ensures
        *score is Fin ==> r is None,
        *score is PosInf ==> r == Some((if moves@.len() >= 1 { moves@.len() - 1 } else { 0int }) as i32),
        *score is NegInf ==> r == Some((0 - (if moves@.len() >= 1 { moves@.len() - 1 } else { 0int })) as i32),
{
    match score {
        Score::Fin(_) => None,
        Score::PosInf => {
            let len = if moves.len() >= 1 { moves.len() - 1 } else { 0 };
            Some(len as i32)
        }
        Score::NegInf => {
            let len = if moves.len() >= 1 { moves.len() - 1 } else { 0 };
            Some(-(len as i32))
        }
    }
}

/// Apply one move for `player`: write the stone, remove every captured
/// pair, and credit the pair count to the mover's counter.
pub fn apply_move(board: &mut Board, captures: [usize; 2], pos: Position, player: Piece) -> (r: [usize; 2])
    requires
        old(board).wf(),
        pos.wf(),
        player.is_piece_spec(),
        old(board)@[pos.index()] is Empty,
        captures[0] <= usize::MAX - 8,
        captures[1] <= usize::MAX - 8,
    ensures
        final(board).wf(),
        final(board)@ == spec_after_move_auto(old(board)@, pos, player),
        r[player.spec_capture_index()] == captures[player.spec_capture_index()]
            + spec_ray_count(old(board)@, pos, player, 8),
        r[1 - player.spec_capture_index()] == captures[1 - player.spec_capture_index()],
{
    let ghost b0 = board@;
    proof {
        lemma_ray_count_bound(b0, pos, player, 8);
    }
    let capture_count = board.set_move(pos, player, None);
    let idx = player.capture_index();
    let mut out = captures;
    out[idx] = out[idx] + capture_count;
    out
}

/// The search driver for one request: the root position, the search
/// depth, the side that moved, and the per-depth node counters.
pub struct GomokuSolver {
    pub board: Board,
    pub captures: [usize; 2],
    pub depth: usize,
    pub player: Piece,
    pub depth_entries: Vec<usize>,
    pub is_hint: Option<bool>,
}

impl GomokuSolver {
    /// The side the root node searches for: the requesting side when the
    /// request asks for a hint, otherwise its opponent.
    pub open spec fn spec_root_player(self) -> Piece {
        if self.is_hint == Some(true) {
            self.player
        } else {
            self.player.opposite_spec()
        }
    }

    /// The solver fields a search relies on: a full board, a real mover,
    /// one node counter per depth, and counters small enough that eight
    /// captured pairs per ply cannot overflow them.
    pub open spec fn wf(self) -> bool {
        &&& self.board.wf()
        &&& self.player.is_piece_spec()
        &&& self.depth <= 1000
        &&& self.depth_entries@.len() == self.depth + 1
        &&& self.captures[0] <= 1_000_008
        &&& self.captures[1] <= 1_000_008
    }

    /// Build a solver from a request: decode the sparse board and, when
    /// the request carries the move just played, apply it first.
    pub fn from_request(msg: &CalculateRequest) -> (r: GomokuSolver)
        requires
            msg.depth <= 1000,
            msg.player.is_piece_spec(),
            msg.captures[0] <= 1_000_000,
            msg.captures[1] <= 1_000_000,
            forall|i: int| 0 <= i < msg.board@.len() ==> (#[trigger] msg.board@[i]).0 < 361,
            msg.in_move matches Some(p) ==> p.wf()
                && Board::spec_sparse_cell(msg.board@, p.index()) is Empty,
        ensures
            r.wf(),
            r.depth == msg.depth,
            r.player == msg.player,
            r.is_hint == msg.is_hint,
            r.depth_entries@.len() == msg.depth + 1,
            forall|i: int| 0 <= i < r.depth_entries@.len() ==> r.depth_entries@[i] == 0,
            msg.in_move is None ==> r.captures == msg.captures
                && (forall|c: int| 0 <= c < 361
                    ==> r.board@[c] == Board::spec_sparse_cell(msg.board@, c)),
            msg.in_move matches Some(p) ==> {
                let sparse = Seq::new(361, |c: int| Board::spec_sparse_cell(msg.board@, c));
                &&& r.board@ == spec_after_move_auto(sparse, p, msg.player)
                &&& r.captures[msg.player.spec_capture_index()]
                    == msg.captures[msg.player.spec_capture_index()]
                        + spec_ray_count(sparse, p, msg.player, 8)
                &&& r.captures[1 - msg.player.spec_capture_index()]
                    == msg.captures[1 - msg.player.spec_capture_index()]
            },
    {
        let mut solver = GomokuSolver {
            board: Board::from_map(&msg.board),
            captures: msg.captures,
            depth_entries: vec![0usize; msg.depth + 1],
            depth: msg.depth,
            player: msg.player,
            is_hint: msg.is_hint,
        };
        proof {
            assert(forall|i: int| 0 <= i < solver.depth_entries@.len()
                ==> cloned(0usize, #[trigger] solver.depth_entries@[i]));
        }

        if let Some(mv) = msg.in_move {
            let ghost sparse = solver.board@;
            proof {
                assert(sparse =~= Seq::new(361, |c: int| Board::spec_sparse_cell(msg.board@, c)));
                lemma_ray_count_bound(sparse, mv, msg.player, 8);
            }
            solver.captures = apply_move(&mut solver.board, solver.captures, mv, msg.player);
        }
        solver
    }

    /// One alpha-beta node. The returned move's backed-up score runs down
    /// the recorded principal variation, whose trailing leaf carries its
    /// own evaluation unless no candidate was accepted, in which case the
    /// record holds the mover's worst score.
    #[verifier::loop_isolation(false)]
    #[verifier::rlimit(100)]
    #[verifier::spinoff_prover]
    fn minimax(&mut self, depth: usize, old_heuristic: &Heuristic, state: &GameState, alpha: Score, beta: Score) -> (r: Move)
        requires
            old(self).wf(),
            depth <= old(self).depth,
            old_heuristic.wf(),
            spec_index_sound(*old_heuristic),
            spec_slots_bounded(*old_heuristic),
            spec_lines_exact(old_heuristic.board@, old_heuristic.lines@),
            old_heuristic.lines_idx <= 1445 + (old(self).depth - depth) * 2888,
            state.board.wf(),
            state.player.is_piece_spec(),
            state.captures[0] + 8 * depth <= 1_100_000,
            state.captures[1] + 8 * depth <= 1_100_000,
        ensures
            final(self).wf(),
            final(self).board == old(self).board,
            final(self).captures == old(self).captures,
            final(self).depth == old(self).depth,
            final(self).player == old(self).player,
            final(self).is_hint == old(self).is_hint,
            r.position.wf(),
            r.captures == state.captures,
            r.depth_hit <= depth,
            r.child is Some ==> spec_candidate(state.board@, r.position)
                || (r.position == (Position { x: 10, y: 10 })
                    && state.board@[r.position.index()] is Empty),
            r.child is Some ==> state.board@[r.position.index()] is Empty,
            pv_chain_ok(r),
            pv_leaf(r).score == pv_leaf(r).depth_score
                || pv_leaf(r).score is PosInf || pv_leaf(r).score is NegInf,
            // A depth-zero node is a leaf carrying its own evaluation.
            depth == 0 ==> r.child is None && r.score == r.depth_score,
            // On an empty board with undecided captures, the search plays
            // the injected center opening.
            (forall|i: int| 0 <= i < 361 ==> state.board@[i] is Empty)
                && state.captures[0] < 5 && state.captures[1] < 5 && depth > 0
                ==> r.child is Some && r.position == (Position { x: 10, y: 10 }),
            // Five captured pairs decide the node outright, except in the
            // capture-race override where the trailing side searches on.
            state.captures[0] >= 5 && state.captures[1] < 5
                && !(state.player is Min && state.captures[1] == 4)
                ==> r.child is None && r.score == Score::PosInf && r.depth_score == Score::PosInf,
            state.captures[1] >= 5 && state.captures[0] < 5
                && !(state.player is Max && state.captures[0] == 4)
                ==> r.child is None && r.score == Score::NegInf && r.depth_score == Score::NegInf,
            // Node accounting: this node bumps its own depth counter
            // (saturating), children only deeper ones.
            final(self).depth_entries@.len() == old(self).depth_entries@.len(),
            forall|i: int| 0 <= i < old(self).depth_entries@.len()
                ==> final(self).depth_entries@[i] >= old(self).depth_entries@[i],
            forall|i: int| 0 <= i < old(self).depth - depth
                ==> final(self).depth_entries@[i] == old(self).depth_entries@[i],
            final(self).depth_entries@[old(self).depth - depth]
                == if old(self).depth_entries@[old(self).depth - depth] < usize::MAX {
                    old(self).depth_entries@[old(self).depth - depth] + 1
                } else {
                    old(self).depth_entries@[old(self).depth - depth] as int
                },
        decreases depth,
    {
        let mut heuristic = old_heuristic.from_new_state(state);
        let ghost h_fresh = heuristic;
        let mut found_move = false;

        let entry_idx = self.depth - depth;
        let cur = self.depth_entries[entry_idx];
        if cur < usize::MAX {
            self.depth_entries[entry_idx] = cur + 1;
        }

        let ghost e1 = self.depth_entries@;
        proof {
            let idx = old(self).depth - depth;
            assert(e1.len() == old(self).depth_entries@.len());
            assert(forall|i2: int| 0 <= i2 < e1.len()
                ==> e1[i2] >= old(self).depth_entries@[i2]);
            assert(forall|i2: int| 0 <= i2 < e1.len() && i2 != idx
                ==> e1[i2] == old(self).depth_entries@[i2]);
            assert(e1[idx] == if old(self).depth_entries@[idx] < usize::MAX {
                old(self).depth_entries@[idx] + 1
            } else {
                old(self).depth_entries@[idx] as int
            });
        }

        let ghost opening = (forall|i: int| 0 <= i < 361 ==> state.board@[i] is Empty)
            && state.captures[0] < 5 && state.captures[1] < 5 && depth > 0;

        let heuristical_score = heuristic.get_heuristic();
        proof {
            lemma_index_props_congruence(h_fresh, heuristic);
            if opening {
                lemma_no_lines_on_empty_board(heuristic.board@, heuristic.lines@,
                    heuristic.lines_idx as int);
                lemma_full_score_no_lines(heuristic.lines@, heuristic.board@, state.captures);
            }
            if state.captures[0] >= 5 && state.captures[1] < 5 {
                lemma_capture_win_max(heuristic.lines@, heuristic.board@, state.captures);
            }
            if state.captures[1] >= 5 && state.captures[0] < 5 {
                lemma_capture_win_min(heuristic.lines@, heuristic.board@, state.captures);
            }
        }

        let mut move_store = Move::make_half_empty(
            if state.player.is_max() { Score::NegInf } else { Score::PosInf },
            depth, heuristical_score, &heuristic.captures);

        let mut eff_depth = depth;
        if depth == 0 || heuristical_score.is_infinite() {
            // Capture-race override: with four pairs already taken, a
            // single capture converts a position the evaluator already
            // calls lost into a five-capture win, so search one more ply.
            if depth != 0 && state.captures[state.player.capture_index()] == 4 && (
                (state.player.is_min() && heuristical_score == Score::PosInf)
                || (state.player.is_max() && heuristical_score == Score::NegInf))
            {
                eff_depth = 1;
            } else {
                return Move::make_half_empty(heuristical_score, depth, heuristical_score, &heuristic.captures);
            }
        }

        let mut possible_moves = heuristic.get_moves(state.player);
        proof {
            if opening && possible_moves@.len() > 0 {
                let p0 = possible_moves@[0].0;
                assert(spec_candidate(state.board@, p0));
                let (dx, dy): (int, int) = choose|dx: int, dy: int|
                    -1 <= dx <= 1 && -1 <= dy <= 1 && !(dx == 0 && dy == 0)
                        && #[trigger] crate::board::spec_in_bounds(p0.x + dx, p0.y + dy)
                        && state.board@[(p0.y + dy) * 19 + (p0.x + dx)].is_piece_spec();
                assert(false);
            }
        }

        if possible_moves.len() == 0 {
            let center = Position::new(10, 10);
            if self.board_cell_empty(&state.board, &center) {
                possible_moves.push((center, EvaluationScore {
                    capture_count: 0,
                    capture_map: 0,
                    score: Score::Fin(0),
                }));
            } else {
                // A saturated board leaves nothing to search; report the
                // mover's worst score rather than aborting.
                return move_store;
            }
        }

        move_store.cutoff_at = possible_moves.len();

        let mut alpha = alpha;
        let mut beta = beta;
        let mut i: usize = 0;
        #[verifier::loop_isolation(true)]
        while i < possible_moves.len()
            invariant
                i <= possible_moves@.len(),
                opening == ((forall|i2: int| 0 <= i2 < 361 ==> state.board@[i2] is Empty)
                    && state.captures[0] < 5 && state.captures[1] < 5 && depth > 0),
                opening ==> heuristic.lines@.len() == 0,
                opening ==> possible_moves@.len() == 1
                    && possible_moves@[0].0 == (Position { x: 10, y: 10 }),
                opening ==> (found_move ==> move_store.child is Some
                    && move_store.position == (Position { x: 10, y: 10 })),
                opening ==> (i >= 1 ==> found_move),
                self.wf(),
                self.board == old(self).board,
                self.captures == old(self).captures,
                self.depth == old(self).depth,
                self.player == old(self).player,
                self.is_hint == old(self).is_hint,
                depth <= self.depth,
                1 <= eff_depth <= depth,
                heuristic.wf(),
                spec_index_sound(heuristic),
                spec_slots_bounded(heuristic),
                spec_lines_exact(heuristic.board@, heuristic.lines@),
                heuristic.board@ == state.board@,
                heuristic.captures == state.captures,
                heuristic.lines_idx <= 1445 + (self.depth - depth + 1) * 2888,
                state.board.wf(),
                state.player.is_piece_spec(),
                state.captures[0] + 8 * depth <= 1_100_000,
                state.captures[1] + 8 * depth <= 1_100_000,
                forall|j: int| 0 <= j < possible_moves@.len()
                    ==> (#[trigger] possible_moves@[j]).0.wf()
                        && state.board@[possible_moves@[j].0.index()] is Empty
                        && (spec_candidate(state.board@, possible_moves@[j].0)
                            || possible_moves@[j].0 == (Position { x: 10, y: 10 })),
                move_store.position.wf(),
                move_store.captures == state.captures,
                move_store.depth_hit <= depth,
                move_store.child is Some ==> state.board@[move_store.position.index()] is Empty,
                move_store.child is Some ==> spec_candidate(state.board@, move_store.position)
                    || (move_store.position == (Position { x: 10, y: 10 })
                        && state.board@[move_store.position.index()] is Empty),
                self.depth_entries@.len() == e1.len(),
                e1.len() == old(self).depth_entries@.len(),
                forall|i2: int| 0 <= i2 < e1.len()
                    ==> self.depth_entries@[i2] >= e1[i2],
                forall|i2: int| 0 <= i2 <= old(self).depth - depth
                    ==> self.depth_entries@[i2] == e1[i2],
                pv_chain_ok(move_store),
                pv_leaf(move_store).score == pv_leaf(move_store).depth_score
                    || pv_leaf(move_store).score is PosInf || pv_leaf(move_store).score is NegInf,
            ensures
                opening ==> move_store.child is Some
                    && move_store.position == (Position { x: 10, y: 10 }),
            decreases possible_moves@.len() - i,
        {
            let pos_move = possible_moves[i];
            proof {
                if opening {
                    crate::move_calculator::lemma_validate_no_lines(heuristic, pos_move.0, state.player);
                }
            }

            if !heuristic.validate_move(pos_move.0, state.player) {
                i = i + 1;
                continue;
            }

            let mut new_board = state.board.clone();

            // The generator's capture bitfield is applied verbatim when
            // the board confirms it; otherwise captures are re-detected.
            let hint_ok = Board::check_capture_map(&new_board, pos_move.0, state.player, pos_move.1.capture_map);
            let capture_count = if hint_ok {
                new_board.set_move(pos_move.0, state.player, Some(pos_move.1.capture_map))
            } else {
                new_board.set_move(pos_move.0, state.player, None)
            };
            proof {
                lemma_popcount_bound(pos_move.1.capture_map, 8);
                lemma_ray_count_bound(state.board@, pos_move.0, state.player, 8);
            }

            let is_max_turn = state.player.is_max();
            let child_state = GameState {
                board: new_board,
                captures: [
                    if is_max_turn { heuristic.captures[0] + capture_count } else { heuristic.captures[0] },
                    if !is_max_turn { heuristic.captures[1] + capture_count } else { heuristic.captures[1] },
                ],
                player: state.player.get_opposite(),
            };

            let node_result = self.minimax(eff_depth - 1, &heuristic, &child_state, alpha, beta);

            if is_max_turn {
                if node_result.score.gt(&move_store.score) || !found_move
                    || (move_store.score == Score::PosInf && node_result.depth_hit > move_store.depth_hit)
                {
                    found_move = true;
                    move_store.update(i, node_result, &pos_move);
                }
                alpha = alpha.maxs(move_store.score);
                if move_store.score.gt(&beta)
                    || (eff_depth != self.depth && move_store.score == Score::PosInf)
                {
                    move_store.cutoff_at = i;
                    break;
                }
            } else {
                if node_result.score.lt(&move_store.score) || !found_move
                    || (move_store.score == Score::NegInf && node_result.depth_hit > move_store.depth_hit)
                {
                    found_move = true;
                    move_store.update(i, node_result, &pos_move);
                }
                beta = beta.mins(move_store.score);
                if move_store.score.lt(&alpha)
                    || (eff_depth != self.depth && move_store.score == Score::NegInf)
                {
                    move_store.cutoff_at = i;
                    break;
                }
            }
            i = i + 1;
        }
        proof {
            let idx = old(self).depth - depth;
            assert forall|i2: int| 0 <= i2 < old(self).depth_entries@.len()
                implies self.depth_entries@[i2] >= old(self).depth_entries@[i2] by {
                assert(self.depth_entries@[i2] >= e1[i2]);
            }
            assert forall|i2: int| 0 <= i2 < idx
                implies self.depth_entries@[i2] == old(self).depth_entries@[i2] by {
                assert(self.depth_entries@[i2] == e1[i2]);
            }
            assert(self.depth_entries@[idx] == e1[idx]);
            assert(opening ==> move_store.child is Some
                && move_store.position == (Position { x: 10, y: 10 }));
        }
        move_store
    }

    /// The cell test the search uses before injecting the center opening
    /// move.
    fn board_cell_empty(&self, board: &Board, pos: &Position) -> (r: bool)
        requires
            board.wf(),
            pos.wf(),
        ensures
            r == (board@[pos.index()] is Empty),
    {
        board.at(pos).is_empty()
    }

    /// Run the search: from the requesting side in hint mode, otherwise
    /// from its opponent. Always returns a move record.
    pub fn solve(&mut self) -> (r: Result<Move, ()>)
        requires
            old(self).wf(),
        ensures
            final(self).wf(),
            final(self).board == old(self).board,
            final(self).captures == old(self).captures,
            final(self).depth == old(self).depth,
            final(self).player == old(self).player,
            final(self).is_hint == old(self).is_hint,
            r matches Ok(m) && m.position.wf()
                && m.captures == old(self).captures
                && m.depth_hit <= old(self).depth
                && (m.child is Some ==> spec_candidate(old(self).board@, m.position)
                    || (m.position == (Position { x: 10, y: 10 })
                        && old(self).board@[m.position.index()] is Empty))
                && (m.child is Some ==> old(self).board@[m.position.index()] is Empty)
                && pv_chain_ok(m)
                && (pv_leaf(m).score == pv_leaf(m).depth_score
                    || pv_leaf(m).score is PosInf || pv_leaf(m).score is NegInf)
                && (old(self).depth == 0 ==> m.child is None && m.score == m.depth_score)
                && (old(self).captures[0] >= 5 && old(self).captures[1] < 5
                    && !(old(self).spec_root_player() is Min && old(self).captures[1] == 4)
                    ==> m.child is None && m.score == Score::PosInf && m.depth_score == Score::PosInf)
                && (old(self).captures[1] >= 5 && old(self).captures[0] < 5
                    && !(old(self).spec_root_player() is Max && old(self).captures[0] == 4)
                    ==> m.child is None && m.score == Score::NegInf && m.depth_score == Score::NegInf)
                && ((forall|i: int| 0 <= i < 361 ==> old(self).board@[i] is Empty)
                    && old(self).captures[0] < 5 && old(self).captures[1] < 5 && old(self).depth > 0
                    ==> m.child is Some && m.position == (Position { x: 10, y: 10 })),
            final(self).depth_entries@.len() == old(self).depth_entries@.len(),
            forall|i: int| 0 <= i < old(self).depth_entries@.len()
                ==> final(self).depth_entries@[i] >= old(self).depth_entries@[i],
            old(self).depth_entries@.len() > 0
                ==> final(self).depth_entries@[0] == if old(self).depth_entries@[0] < usize::MAX {
                    old(self).depth_entries@[0] + 1
                } else {
                    old(self).depth_entries@[0] as int
                },
    {
        let is_hint = match self.is_hint {
            Some(true) => true,
            _ => false,
        };
        let root_player = if is_hint { self.player } else { self.player.get_opposite() };
        proof {
            assert(root_player == self.spec_root_player());
        }

        let game_state = GameState {
            board: self.board.clone(),
            captures: self.captures,
            player: root_player,
        };

        let mut heuristic = Heuristic::from_game_state(&game_state);
        let ghost h_fresh = heuristic;
        let _ = heuristic.get_heuristic();
        proof {
            lemma_index_props_congruence(h_fresh, heuristic);
        }

        let depth = self.depth;
        let res = self.minimax(depth, &heuristic, &game_state, Score::NegInf, Score::PosInf);

        Ok(res)
    }
}

} // verus!
