//! The double-free-three rule: a move is illegal when it would create two
//! free threes along two different axes at once.

use vstd::prelude::*;
use crate::heuristic::{Heuristic, Line, axis_delta, spec_find, spec_lp, axis_dx, axis_dy, seg_in, seg_index, spec_pos_at, lemma_mul_small, spec_flip_lines, spec_flip_line, spec_flip_board, spec_flip_piece};
use crate::piece::{Piece, PieceWrap};
use crate::position::Position;

verus! {

/// The free-two probe of one direction (side 0 walks backwards along the
/// axis): `-1` when a wall or any stone blocks the formation, `1` when
/// the next cell (or the cell after an empty one) sits on a fully open
/// two of the mover, `0` otherwise.
pub open spec fn spec_free_two(h: Heuristic, pos: Position, a: int, side: int, player: Piece) -> int {
    let k1: int = if side == 0 { -1 } else { 1 };
    let k2: int = if side == 0 { -2 } else { 2 };
    if !seg_in(pos, a, k1) {
        -1
    } else if spec_open_two_at(h, spec_pos_at(pos, a, k1), a, player) {
        1
    } else if h.board@[seg_index(pos, a, k1)].is_piece_spec() {
        -1
    } else if !seg_in(pos, a, k2) {
        0
    } else if spec_open_two_at(h, spec_pos_at(pos, a, k2), a, player) {
        1
    } else {
        0
    }
}

/// The cell sits on a fully open line of exactly two stones of `player`.
pub open spec fn spec_open_two_at(h: Heuristic, q: Position, a: int, player: Piece) -> bool {
    let l = h.spec_line_at(q, a);
    l is Some && l.unwrap().block_pos == 0 && l.unwrap().player == player
        && l.unwrap().length == 2
}

/// The move at `pos` forms a free three along axis `a`: both direction
/// probes are valid and exactly one of them finds the connected open two.
pub open spec fn spec_free_three_axis(h: Heuristic, pos: Position, player: Piece, a: int) -> bool {
    let l = spec_free_two(h, pos, a, 0, player);
    let r = spec_free_two(h, pos, a, 1, player);
    l != -1 && r != -1 && l + r == 1
}

/// Number of axes below `n` on which the move forms a free three.
pub open spec fn spec_free_three_count(h: Heuristic, pos: Position, player: Piece, n: int) -> int
    decreases n,
{
    if n <= 0 {
        0
    } else {
        spec_free_three_count(h, pos, player, n - 1) + if spec_free_three_axis(h, pos, player, n - 1) {
            1int
        } else {
            0int
        }
    }
}

/// A move is legal only when it forms free threes on fewer than two axes.
pub open spec fn spec_validate(h: Heuristic, pos: Position, player: Piece) -> bool {
    spec_free_three_count(h, pos, player, 4) < 2
}

impl Heuristic {
    /// The free-two probe of one direction of an axis.
    #[verifier::loop_isolation(false)]
    #[verifier::rlimit(60)]
    #[verifier::spinoff_prover]
    fn is_free_two(&self, pos: Position, side: usize, direction_idx: usize, player: Piece) -> (r: i32)
        requires
            self.wf(),
            pos.wf(),
            side < 2,
            direction_idx < 4,
        ensures
            r == spec_free_two(*self, pos, direction_idx as int, side as int, player),
    {
        let ghost ai = direction_idx as int;
        let d = axis_delta(direction_idx, side);
        proof {
            lemma_mul_small(-1, axis_dx(ai));
            lemma_mul_small(-1, axis_dy(ai));
            lemma_mul_small(1, axis_dx(ai));
            lemma_mul_small(1, axis_dy(ai));
            lemma_mul_small(-2, axis_dx(ai));
            lemma_mul_small(-2, axis_dy(ai));
            lemma_mul_small(2, axis_dx(ai));
            lemma_mul_small(2, axis_dy(ai));
        }
        let mut p = pos;
        if p.relocate(d.0, d.1).is_err() {
            return -1;
        }
        if self.open_two_at(&p, direction_idx, player) {
            return 1;
        }
        if self.board.at(&p).is_piece() {
            return -1;
        }
        if p.relocate(d.0, d.1).is_err() {
            return 0;
        }
        if self.open_two_at(&p, direction_idx, player) {
            return 1;
        }
        0
    }

    /// Exec form of `spec_open_two_at`.
    fn open_two_at(&self, q: &Position, direction_idx: usize, player: Piece) -> (r: bool)
        requires
            self.wf(),
            q.wf(),
            direction_idx < 4,
        ensures
            r == spec_open_two_at(*self, *q, direction_idx as int, player),
    {
        match self.get_line(q, direction_idx) {
            Some(l) => l.block_pos == 0 && l.player == player && l.length == 2,
            None => false,
        }
    }

    /// Whether playing `player` at `pos` is allowed under the
    /// double-free-three rule.
    #[verifier::loop_isolation(false)]
    pub fn validate_move(&self, pos: Position, player: Piece) -> (r: bool)
        requires
            self.wf(),
            pos.wf(),
        ensures
            r == spec_validate(*self, pos, player),
    {
        let mut free_three_count: usize = 0;
        let mut a: usize = 0;
        while a < 4
            invariant
                a <= 4,
                free_three_count == spec_free_three_count(*self, pos, player, a as int),
                free_three_count <= a,
            decreases 4 - a,
        {
            let l = self.is_free_two(pos, 0, a, player);
            let r = self.is_free_two(pos, 1, a, player);
            if !(l == -1 || r == -1 || l + r != 1) {
                free_three_count = free_three_count + 1;
            }
            a = a + 1;
        }
        free_three_count < 2
    }

    /// Every empty cell where `player` may not move.
    #[verifier::loop_isolation(false)]
    pub fn get_invalid_moves(&self, player: Piece) -> (r: Vec<Position>)
        requires
            self.wf(),
        ensures
            forall|i: int, j: int| 0 <= i < j < r@.len() ==> r@[i].index() < r@[j].index(),
            forall|i: int| 0 <= i < r@.len() ==> (#[trigger] r@[i]).wf()
                && self.board@[r@[i].index()] is Empty
                && !spec_validate(*self, r@[i], player),
            forall|p: Position| p.wf() && self.board@[p.index()] is Empty
                && !spec_validate(*self, p, player) ==> r@.contains(p),
    {
        let mut positions: Vec<Position> = Vec::new();
        let mut c: usize = 0;
        while c < 361
            invariant
                c <= 361,
                forall|i: int, j: int| 0 <= i < j < positions@.len()
                    ==> positions@[i].index() < positions@[j].index(),
                forall|i: int| 0 <= i < positions@.len() ==> (#[trigger] positions@[i]).wf()
                    && positions@[i].index() < c
                    && self.board@[positions@[i].index()] is Empty
                    && !spec_validate(*self, positions@[i], player),
                forall|p: Position| p.wf() && p.index() < c && self.board@[p.index()] is Empty
                    && !spec_validate(*self, p, player) ==> positions@.contains(p),
            decreases 361 - c,
        {
            let pos = Position::from_u64(c);
            let ghost prev = positions@;
            if self.board.at(&pos).is_empty() && !self.validate_move(pos, player) {
                positions.push(pos);
                proof {
                    assert(positions@[positions@.len() - 1] == pos);
                }
            }
            proof {
                assert forall|p: Position| prev.contains(p) implies positions@.contains(p) by {
                    let i = choose|i: int| 0 <= i < prev.len() && prev[i] == p;
                    assert(positions@[i] == p);
                }
                assert forall|p: Position| p.wf() && p.index() < c + 1
                    && self.board@[p.index()] is Empty
                    && !spec_validate(*self, p, player) implies positions@.contains(p) by {
                    if p.index() < c {
                        assert(prev.contains(p));
                    } else {
                        assert(p == pos);
                        assert(positions@.contains(pos)) by {
                            assert(positions@[positions@.len() - 1] == pos);
                        }
                    }
                }
            }
            c = c + 1;
        }
        positions
    }
}

/// With an empty line store no free two can be found, so every move
/// passes the double-free-three rule.
pub proof fn lemma_validate_no_lines(h: Heuristic, pos: Position, player: Piece)
    requires
        h.lines@.len() == 0,
    ensures
        spec_validate(h, pos, player),
{
    assert forall|a: int, side: int| 0 <= a < 4 && 0 <= side < 2
        implies #[trigger] spec_free_two(h, pos, a, side, player) != 1 by {
        let k1: int = if side == 0 { -1 } else { 1 };
        let k2: int = if side == 0 { -2 } else { 2 };
        assert(spec_find(h.lines@, spec_lp(h.line_pos@, spec_pos_at(pos, a, k1).index(), a)) is None);
        assert(spec_find(h.lines@, spec_lp(h.line_pos@, spec_pos_at(pos, a, k2).index(), a)) is None);
    }
    assert forall|a: int| 0 <= a < 4 implies !spec_free_three_axis(h, pos, player, a) by {
        assert(spec_free_two(h, pos, a, 0, player) != 1);
        assert(spec_free_two(h, pos, a, 1, player) != 1);
    }
    assert(spec_free_three_count(h, pos, player, 0) == 0);
    assert(spec_free_three_count(h, pos, player, 1) == 0);
    assert(spec_free_three_count(h, pos, player, 2) == 0);
    assert(spec_free_three_count(h, pos, player, 3) == 0);
    assert(spec_free_three_count(h, pos, player, 4) == 0);
}

/// Resolving an id in the color-swapped store finds the color-swapped
/// line.
proof fn lemma_find_flip(lines: Seq<Line>, id: usize)
    ensures
        spec_find(spec_flip_lines(lines), id) == match spec_find(lines, id) {
            Some(l) => Some(spec_flip_line(l)),
            None => None::<Line>,
        },
    decreases lines.len(),
{
    let fl = spec_flip_lines(lines);
    if lines.len() == 0 {
    } else if lines[0].id == id {
        assert(fl[0] == spec_flip_line(lines[0]));
    } else {
        assert(fl[0] == spec_flip_line(lines[0]));
        lemma_find_flip(lines.subrange(1, lines.len() as int), id);
        assert(fl.subrange(1, fl.len() as int)
            =~= spec_flip_lines(lines.subrange(1, lines.len() as int)));
    }
}

/// Legality is color-symmetric: a move is illegal for one side exactly
/// when it is illegal for the other side on the color-swapped position.
/// The two evaluator states are related by swapping every stone and every
/// line owner while keeping the per-cell index.
pub proof fn lemma_legality_symmetry(h1: Heuristic, h2: Heuristic, pos: Position, player: Piece)
    requires
        player.is_piece_spec(),
        h1.board@.len() == 361,
        h2.board@ == spec_flip_board(h1.board@),
        h2.lines@ == spec_flip_lines(h1.lines@),
        h2.line_pos@ == h1.line_pos@,
    ensures
        spec_validate(h2, pos, spec_flip_piece(player)) == spec_validate(h1, pos, player),
{
    assert forall|a: int, side: int| 0 <= a < 4 && 0 <= side < 2
        implies spec_free_two(h2, pos, a, side, spec_flip_piece(player))
            == spec_free_two(h1, pos, a, side, player) by {
        let k1: int = if side == 0 { -1 } else { 1 };
        let k2: int = if side == 0 { -2 } else { 2 };
        lemma_find_flip(h1.lines@, spec_lp(h1.line_pos@, spec_pos_at(pos, a, k1).index(), a));
        lemma_find_flip(h1.lines@, spec_lp(h1.line_pos@, spec_pos_at(pos, a, k2).index(), a));
        if seg_in(pos, a, k1) {
            assert(h2.board@[seg_index(pos, a, k1)]
                == spec_flip_piece(h1.board@[seg_index(pos, a, k1)]));
        }
    }
    assert forall|n: int| 0 <= n <= 4
        implies spec_free_three_count(h2, pos, spec_flip_piece(player), n)
            == spec_free_three_count(h1, pos, player, n) by {
        lemma_count_flip(h1, h2, pos, player, n);
    }
}

proof fn lemma_count_flip(h1: Heuristic, h2: Heuristic, pos: Position, player: Piece, n: int)
    requires
        forall|a: int, side: int| 0 <= a < 4 && 0 <= side < 2
            ==> spec_free_two(h2, pos, a, side, spec_flip_piece(player))
                == spec_free_two(h1, pos, a, side, player),
        n <= 4,
    ensures
        spec_free_three_count(h2, pos, spec_flip_piece(player), n)
            == spec_free_three_count(h1, pos, player, n),
    decreases n,
{
    if n > 0 {
        lemma_count_flip(h1, h2, pos, player, n - 1);
    }
}

} // verus!
