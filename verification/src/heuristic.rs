//! The incremental structural evaluator: it maintains the set of maximal
//! same-color runs (lines) over a board together with a per-cell index of
//! the line covering each cell in each of the four axes, and scores a
//! position from the lines, the stone placement and the capture counters.

use vstd::prelude::*;
use crate::board::{Board, spec_in_bounds, ray_dx, ray_dy, lemma_index_injective, bit_u8, popcount_u8, lemma_or_bit, lemma_zero_bit, lemma_popcount_or_bit, lemma_popcount_zero};
use crate::minimax::GameState;
use crate::piece::{Piece, PieceWrap};
use crate::position::Position;
use crate::score::{Score, spec_line_score, spec_capture_score, SCORE_CACHE_BOUND, MAX_TABLE_SCORE, lemma_line_score_range, lemma_capture_score_range};

verus! {

/// X step of axis `a` in its positive direction (the same numbering as
/// the odd capture rays): 0 horizontal, 1 vertical, 2 down-right,
/// 3 up-right.
pub open spec fn axis_dx(a: int) -> int {
    ray_dx(2 * a + 1)
}

/// Y step of axis `a` in its positive direction.
pub open spec fn axis_dy(a: int) -> int {
    ray_dy(2 * a + 1)
}

/// The two direction deltas of an axis; side 0 walks backwards.
pub(crate) fn axis_delta(a: usize, side: usize) -> (r: (i32, i32))
    requires
        a < 4,
        side < 2,
    ensures
        side == 1 ==> r.0 == axis_dx(a as int) && r.1 == axis_dy(a as int),
        side == 0 ==> r.0 == -axis_dx(a as int) && r.1 == -axis_dy(a as int),
{
    match (a, side) {
        (0, 0) => (-1, 0),
        (0, _) => (1, 0),
        (1, 0) => (0, -1),
        (1, _) => (0, 1),
        (2, 0) => (-1, -1),
        (2, _) => (1, 1),
        (3, 0) => (-1, 1),
        _ => (1, -1),
    }
}

/// Multiplying by a unit step is sign selection; stated once so that the
/// segment arithmetic below stays linear.
pub proof fn lemma_mul_small(k: int, d: int)
    ensures
        d == 0 ==> k * d == 0,
        d == 1 ==> k * d == k,
        d == -1 ==> k * d == -k,
        (k + 1) * d == k * d + d,
{
    assert(d == 0 ==> k * d == 0) by (nonlinear_arith);
    assert(d == 1 ==> k * d == k) by (nonlinear_arith);
    assert(d == -1 ==> k * d == -k) by (nonlinear_arith);
    assert((k + 1) * d == k * d + d) by (nonlinear_arith);
}

/// Decreasing measure for a walk in direction `(dx, dy)`: the distance to
/// the board edge along a moving coordinate.
pub open spec fn run_measure(x: int, y: int, dx: int, dy: int) -> int {
    if dx > 0 {
        19 - x
    } else if dx < 0 {
        x
    } else if dy > 0 {
        19 - y
    } else {
        y
    }
}

/// Number of contiguous stones of `player` strictly beyond `(x, y)` in
/// direction `(dx, dy)`.
pub open spec fn run_len(b: Seq<Piece>, x: int, y: int, dx: int, dy: int, player: Piece) -> nat
    decreases run_measure(x, y, dx, dy),
{
    if dx == 0 && dy == 0 {
        0
    } else if !spec_in_bounds(x + dx, y + dy) {
        0
    } else if b[(y + dy) * 19 + (x + dx)] == player {
        (1 + run_len(b, x + dx, y + dy, dx, dy, player)) as nat
    } else {
        0
    }
}

/// The run's stopper is a wall or an opponent stone (an empty stopper
/// leaves the run open).
pub open spec fn run_blocked(b: Seq<Piece>, x: int, y: int, dx: int, dy: int, player: Piece) -> bool {
    let l = run_len(b, x, y, dx, dy, player) as int;
    let sx = x + (l + 1) * dx;
    let sy = y + (l + 1) * dy;
    !(spec_in_bounds(sx, sy) && b[sy * 19 + sx] is Empty)
}

/// Run beyond `pos` along axis `a` on side `side`, for the color standing
/// at `pos`.
pub open spec fn spec_run(b: Seq<Piece>, pos: Position, a: int, side: int) -> nat {
    if side == 0 {
        run_len(b, pos.x as int, pos.y as int, -axis_dx(a), -axis_dy(a), b[pos.index()])
    } else {
        run_len(b, pos.x as int, pos.y as int, axis_dx(a), axis_dy(a), b[pos.index()])
    }
}

pub open spec fn spec_run_blocked(b: Seq<Piece>, pos: Position, a: int, side: int) -> bool {
    if side == 0 {
        run_blocked(b, pos.x as int, pos.y as int, -axis_dx(a), -axis_dy(a), b[pos.index()])
    } else {
        run_blocked(b, pos.x as int, pos.y as int, axis_dx(a), axis_dy(a), b[pos.index()])
    }
}

/// Coordinates of the cell `k` positive steps from `start` along axis `a`.
pub open spec fn seg_x(start: Position, a: int, k: int) -> int {
    start.x + k * axis_dx(a)
}

pub open spec fn seg_y(start: Position, a: int, k: int) -> int {
    start.y + k * axis_dy(a)
}

pub open spec fn seg_in(start: Position, a: int, k: int) -> bool {
    spec_in_bounds(seg_x(start, a, k), seg_y(start, a, k))
}

pub open spec fn seg_index(start: Position, a: int, k: int) -> int {
    seg_y(start, a, k) * 19 + seg_x(start, a, k)
}

/// Cell `c` lies on the segment of `n + 1` cells from `start` along `a`.
pub open spec fn on_seg(start: Position, a: int, n: int, c: int) -> bool {
    exists|k: int| 0 <= k <= n && c == seg_index(start, a, k)
}

/// Number of positive steps from `start` to `end` along axis `a`, read
/// off the coordinate that the axis moves.
pub open spec fn seg_steps(start: Position, end: Position, a: int) -> int {
    if a == 1 {
        end.y - start.y
    } else {
        end.x - start.x
    }
}

/// `end` lies `seg_steps` nonnegative steps from `start` along axis `a`.
pub open spec fn seg_wf(start: Position, end: Position, a: int) -> bool {
    &&& start.wf()
    &&& end.wf()
    &&& 0 <= seg_steps(start, end, a)
    &&& end.x == seg_x(start, a, seg_steps(start, end, a))
    &&& end.y == seg_y(start, a, seg_steps(start, end, a))
}

/// Every cell of a well-formed segment is on the board, and the step
/// number is read back from the driving coordinate.
pub proof fn lemma_seg_cells(start: Position, end: Position, a: int, k: int)
    requires
        0 <= a < 4,
        seg_wf(start, end, a),
        0 <= k <= seg_steps(start, end, a),
    ensures
        seg_in(start, a, k),
        forall|j: int| 0 <= j <= seg_steps(start, end, a) && j != k
            ==> seg_index(start, a, j) != seg_index(start, a, k),
{
    let n = seg_steps(start, end, a);
    lemma_mul_small(k, axis_dx(a));
    lemma_mul_small(k, axis_dy(a));
    lemma_mul_small(n, axis_dx(a));
    lemma_mul_small(n, axis_dy(a));
    assert forall|j: int| 0 <= j <= n && j != k
        implies seg_index(start, a, j) != seg_index(start, a, k) by {
        lemma_mul_small(j, axis_dx(a));
        lemma_mul_small(j, axis_dy(a));
        if seg_index(start, a, j) == seg_index(start, a, k) {
            lemma_index_injective(
                seg_x(start, a, j), seg_y(start, a, j),
                seg_x(start, a, k), seg_y(start, a, k));
        }
    }
}

/// A maximal run of at least two same-colored stones along one axis, with
/// its endpoints, block flags and precomputed score.
#[derive(Clone, Copy, Debug)]
pub struct Line {
    pub id: usize,
    pub start: Position,
    pub end: Position,
    pub length: usize,
    pub direction: u8,
    pub score: Score,
    pub block_pos: u8,
    pub player: Piece,
}

/// The per-line part of the heuristic invariant: the owner is a real
/// color, the endpoints are on the board, and the cached score is the
/// table score of (blocks, length, owner).
pub open spec fn line_wf(l: Line) -> bool {
    &&& l.player.is_piece_spec()
    &&& l.start.wf()
    &&& l.end.wf()
    &&& (l.direction as int) < 4
    &&& l.block_pos <= 3
    &&& l.length <= 361
    &&& l.score == spec_line_score(l.block_pos, l.length as int, l.player)
}

/// Line ids are strictly increasing, at least 1, and no larger than the
/// id allocator; every line satisfies `line_wf`.
pub open spec fn wf_lines(lines: Seq<Line>, lines_idx: int) -> bool {
    &&& forall|i: int, j: int| 0 <= i < j < lines.len() ==> lines[i].id < lines[j].id
    &&& forall|i: int| 0 <= i < lines.len() ==> 1 <= (#[trigger] lines[i]).id <= lines_idx
    &&& forall|i: int| 0 <= i < lines.len() ==> line_wf(#[trigger] lines[i])
}

impl Line {
    pub fn new(idx: usize, player: Piece, blocks: u8, start: Position, end: Position, direction: u8, length: usize) -> (r: Line)
        ensures
            r == (Line {
                id: idx,
                start,
                end,
                player,
                block_pos: blocks,
                direction,
                length,
                score: spec_line_score(blocks, length as int, player),
            }),
    {
        Line {
            id: idx,
            start,
            end,
            player,
            block_pos: blocks,
            direction,
            length,
            score: Self::calculate(blocks, length, player),
        }
    }

    /// Table score of a line: open, half-open or closed table by block
    /// count, indexed by length clamped to five, negated for Min.
    pub fn calculate(blocks: u8, length: usize, player: Piece) -> (r: Score)
        ensures
            r == spec_line_score(blocks, length as int, player),
    {
        let l = if length < 5 { length } else { 5 };
        let val = if blocks == 0 {
            match l {
                0 => Score::Fin(152),
                1 => Score::Fin(304),
                2 => Score::Fin(608),
                3 => Score::Fin(2432),
                4 => Score::Fin(9728),
                _ => Score::PosInf,
            }
        } else if blocks == 1 || blocks == 2 {
            match l {
                0 => Score::Fin(152),
                1 => Score::Fin(304),
                2 => Score::Fin(0),
                3 => Score::Fin(1216),
                4 => Score::Fin(2432),
                _ => Score::PosInf,
            }
        } else if blocks == 3 {
            if l >= 5 {
                Score::PosInf
            } else {
                Score::Fin(0)
            }
        } else {
            Score::PosInf
        };
        if player == Piece::Max {
            val
        } else {
            proof {
                lemma_line_score_range(blocks, length as int, Piece::Max);
            }
            val.neg()
        }
    }
}

/// The score and capture prediction of one candidate move.
#[derive(Clone, Copy, Debug)]
pub struct EvaluationScore {
    pub score: Score,
    pub capture_map: u8,
    pub capture_count: usize,
}

/// The result of walking one direction from an anchor stone.
struct LineResult {
    end: Position,
    length: usize,
    blocked: bool,
}

/// Entry `ax` of the per-cell line index at cell `c`.
pub open spec fn spec_lp(lp: Seq<[usize; 4]>, c: int, ax: int) -> usize {
    lp[c][ax]
}

/// First line with the given id (ids are unique under `wf_lines`).
pub open spec fn spec_find(lines: Seq<Line>, id: usize) -> Option<Line>
    decreases lines.len(),
{
    if lines.len() == 0 {
        None
    } else if lines[0].id == id {
        Some(lines[0])
    } else {
        spec_find(lines.subrange(1, lines.len() as int), id)
    }
}

/// The incremental evaluator state over an owned board and capture pair.
pub struct Heuristic {
    pub board: Board,
    pub captures: [usize; 2],
    pub lines: Vec<Line>,
    pub lines_idx: usize,
    pub line_pos: Vec<[usize; 4]>,
    pub score: Option<Score>,
}

impl Heuristic {
    /// Structural invariant: a full board, a full per-cell index, a sound
    /// line store, and a bounded cached score.
    pub open spec fn wf(self) -> bool {
        &&& self.board.wf()
        &&& self.line_pos@.len() == 361
        &&& self.lines_idx >= 1
        &&& wf_lines(self.lines@, self.lines_idx as int)
        &&& (self.score matches Some(s) ==> s.fin_bounded_by(SCORE_CACHE_BOUND as int))
    }

    /// The line covering `pos` along axis `a`, resolved through the
    /// per-cell index; a stale or empty entry resolves to nothing.
    pub open spec fn spec_line_at(self, pos: Position, a: int) -> Option<Line> {
        spec_find(self.lines@, spec_lp(self.line_pos@, pos.index(), a))
    }

    #[verifier::loop_isolation(false)]
    pub(crate) fn get_line(&self, pos: &Position, direction_idx: usize) -> (r: Option<Line>)
        requires
            self.wf(),
            pos.wf(),
            direction_idx < 4,
        ensures
            r == self.spec_line_at(*pos, direction_idx as int),
    {
        let id = self.line_pos[pos.y * 19 + pos.x][direction_idx];
        let mut i: usize = 0;
        proof {
            assert(self.lines@.skip(0) =~= self.lines@);
        }
        while i < self.lines.len()
            invariant
                i <= self.lines@.len(),
                spec_find(self.lines@, id) == spec_find(self.lines@.skip(i as int), id),
            decreases self.lines@.len() - i,
        {
            if self.lines[i].id == id {
                proof {
                    assert(self.lines@.skip(i as int)[0] == self.lines@[i as int]);
                }
                return Some(self.lines[i]);
            }
            proof {
                let s = self.lines@.skip(i as int);
                assert(s[0] == self.lines@[i as int]);
                assert(s.subrange(1, s.len() as int) =~= self.lines@.skip(i + 1));
            }
            i = i + 1;
        }
        proof {
            assert(self.lines@.skip(self.lines@.len() as int).len() == 0);
        }
        None
    }

    /// Walk from `start` in `direction`, collecting contiguous stones of
    /// `player`: their count, the farthest one, and whether the stopper
    /// blocks the run.
    #[verifier::loop_isolation(false)]
    fn get_line_length(&self, direction: [i32; 2], start: Position, player: Piece) -> (r: LineResult)
        requires
            self.board.wf(),
            start.wf(),
            player.is_piece_spec(),
            -1 <= direction[0] <= 1,
            -1 <= direction[1] <= 1,
            !(direction[0] == 0 && direction[1] == 0),
        ensures
            r.length <= 36,
            r.length == run_len(self.board@, start.x as int, start.y as int,
                direction[0] as int, direction[1] as int, player),
            r.end.x == start.x + r.length * direction[0],
            r.end.y == start.y + r.length * direction[1],
            r.end.wf(),
            r.blocked == run_blocked(self.board@, start.x as int, start.y as int,
                direction[0] as int, direction[1] as int, player),
    {
        let dx = direction[0];
        let dy = direction[1];
        let mut pos = start;
        let mut end = start;
        let mut length: usize = 0;
        proof {
            lemma_mul_small(0, dx as int);
            lemma_mul_small(0, dy as int);
        }
        loop
            invariant
                self.board.wf(),
                start.wf(),
                pos.wf(),
                player.is_piece_spec(),
                end == pos,
                -1 <= dx <= 1,
                -1 <= dy <= 1,
                !(dx == 0 && dy == 0),
                length <= 36,
                pos.x == start.x + length * dx,
                pos.y == start.y + length * dy,
                run_len(self.board@, start.x as int, start.y as int, dx as int, dy as int, player)
                    == length + run_len(self.board@, pos.x as int, pos.y as int, dx as int, dy as int, player),
                run_blocked(self.board@, start.x as int, start.y as int, dx as int, dy as int, player)
                    == run_blocked(self.board@, pos.x as int, pos.y as int, dx as int, dy as int, player),
            decreases run_measure(pos.x as int, pos.y as int, dx as int, dy as int),
        {
            let prev = pos;
            proof {
                lemma_mul_small(1, dx as int);
                lemma_mul_small(1, dy as int);
                lemma_mul_small(length as int, dx as int);
                lemma_mul_small(length as int, dy as int);
                lemma_mul_small(length + 1, dx as int);
                lemma_mul_small(length + 1, dy as int);
            }
            if pos.relocate(dx, dy).is_err() {
                // Off the board: the run stops against the wall.
                return LineResult { end, length, blocked: true };
            }
            let cell = self.board.at(&pos);
            if cell.is_opposite(&player) {
                if cell.is_empty() {
                    return LineResult { end, length, blocked: false };
                }
                return LineResult { end, length, blocked: true };
            }
            proof {
                let b = self.board@;
                assert(run_len(b, prev.x as int, prev.y as int, dx as int, dy as int, player)
                    == 1 + run_len(b, pos.x as int, pos.y as int, dx as int, dy as int, player));
                lemma_mul_small(
                    run_len(b, pos.x as int, pos.y as int, dx as int, dy as int, player) as int + 1,
                    dx as int);
                lemma_mul_small(
                    run_len(b, pos.x as int, pos.y as int, dx as int, dy as int, player) as int + 1,
                    dy as int);
                lemma_mul_small(
                    run_len(b, pos.x as int, pos.y as int, dx as int, dy as int, player) as int + 2,
                    dx as int);
                lemma_mul_small(
                    run_len(b, pos.x as int, pos.y as int, dx as int, dy as int, player) as int + 2,
                    dy as int);
            }
            length = length + 1;
            end = pos;
        }
    }
}

/// Integer square root by unit steps: the largest `r` with `r * r <= n`.
pub open spec fn spec_isqrt(n: int) -> int
    decreases n,
{
    if n <= 0 {
        0
    } else {
        let r = spec_isqrt(n - 1);
        if (r + 1) * (r + 1) <= n {
            r + 1
        } else {
            r
        }
    }
}

pub proof fn lemma_isqrt_bounds(n: int)
    requires
        n >= 0,
    ensures
        0 <= spec_isqrt(n),
        spec_isqrt(n) * spec_isqrt(n) <= n,
        n < (spec_isqrt(n) + 1) * (spec_isqrt(n) + 1),
    decreases n,
{
    if n == 0 {
    } else {
        lemma_isqrt_bounds(n - 1);
        let rp = spec_isqrt(n - 1);
        let r = spec_isqrt(n);
        if (rp + 1) * (rp + 1) <= n {
            assert(r == rp + 1);
            assert(n - 1 < (rp + 1) * (rp + 1));
            assert((r + 1) * (r + 1) > r * r) by (nonlinear_arith)
                requires r >= 0;
        } else {
            assert(r == rp);
        }
    }
}

proof fn lemma_sq_mono(a: int, b: int)
    requires
        0 <= a <= b,
    ensures
        a * a <= b * b,
{
    assert(a * a <= b * b) by (nonlinear_arith)
        requires 0 <= a <= b;
}

proof fn lemma_isqrt_unique(n: int, k: int)
    requires
        n >= 0,
        k >= 0,
        k * k <= n,
        n < (k + 1) * (k + 1),
    ensures
        k == spec_isqrt(n),
{
    lemma_isqrt_bounds(n);
    let r = spec_isqrt(n);
    if k < r {
        lemma_sq_mono(k + 1, r);
    }
    if r < k {
        lemma_sq_mono(r + 1, k);
    }
}

fn isqrt(n: i32) -> (r: i32)
    requires
        0 <= n <= 1000,
    ensures
        r == spec_isqrt(n as int),
        0 <= r <= 31,
{
    let mut k: i32 = 0;
    loop
        invariant_except_break
            0 <= k <= 31,
            k * k <= n,
            n <= 1000,
        ensures
            0 <= k <= 31,
            k * k <= n < (k + 1) * (k + 1),
        decreases 32 - k,
    {
        let k1 = k + 1;
        proof {
            assert(k1 * k1 <= 1024) by (nonlinear_arith)
                requires 0 <= k1 <= 32;
        }
        if k1 * k1 > n {
            break;
        }
        proof {
            assert(k < 31) by (nonlinear_arith)
                requires k * k <= 1000 && (k + 1) * (k + 1) <= 1000 && k >= 0;
        }
        k = k1;
    }
    proof {
        lemma_isqrt_unique(n as int, k as int);
    }
    k
}

/// Euclidean distance between two cells, rounded down to an integer.
pub open spec fn spec_distance(p: Position, q: Position) -> int {
    spec_isqrt((p.x - q.x) * (p.x - q.x) + (p.y - q.y) * (p.y - q.y))
}

pub fn get_distance(p1: &Position, p2: &Position) -> (r: i32)
    requires
        p1.wf(),
        p2.wf(),
    ensures
        r == spec_distance(*p1, *p2),
        0 <= r <= 31,
{
    let dx = p1.x as i32 - p2.x as i32;
    let dy = p1.y as i32 - p2.y as i32;
    proof {
        assert(0 <= dx * dx <= 324) by (nonlinear_arith)
            requires -18 <= dx <= 18;
        assert(0 <= dy * dy <= 324) by (nonlinear_arith)
            requires -18 <= dy <= 18;
    }
    let r = isqrt(dx * dx + dy * dy);
    r
}

/// Whether `check` lies on the straight segment between `start` and
/// `end`, tested through rounded distances as the derive step does.
pub fn is_point_on_line(start: Position, end: Position, check: Position) -> (r: bool)
    requires
        start.wf(),
        end.wf(),
        check.wf(),
    ensures
        r == (spec_distance(start, end) == spec_distance(end, check) + spec_distance(start, check)),
{
    get_distance(&start, &end) == get_distance(&end, &check) + get_distance(&start, &check)
}

/// Lines surviving a deletion pass: those whose id is not listed.
pub open spec fn spec_remove(lines: Seq<Line>, dead: Seq<usize>) -> Seq<Line>
    decreases lines.len(),
{
    if lines.len() == 0 {
        Seq::empty()
    } else if dead.contains(lines.last().id) {
        spec_remove(lines.drop_last(), dead)
    } else {
        spec_remove(lines.drop_last(), dead).push(lines.last())
    }
}

/// Deletion keeps a well-formed line store well formed: the survivors
/// keep their relative order, and each one comes from the input.
pub proof fn lemma_remove_wf(lines: Seq<Line>, dead: Seq<usize>, lines_idx: int)
    requires
        wf_lines(lines, lines_idx),
    ensures
        wf_lines(spec_remove(lines, dead), lines_idx),
        forall|i: int| 0 <= i < spec_remove(lines, dead).len()
            ==> exists|j: int| 0 <= j < lines.len() && #[trigger] spec_remove(lines, dead)[i] == lines[j],
        forall|i: int| 0 <= i < spec_remove(lines, dead).len()
            ==> !dead.contains(#[trigger] spec_remove(lines, dead)[i].id),
    decreases lines.len(),
{
    if lines.len() > 0 {
        let prefix = lines.drop_last();
        assert(wf_lines(prefix, lines_idx)) by {
            assert(forall|i: int| 0 <= i < prefix.len() ==> prefix[i] == lines[i]);
        }
        lemma_remove_wf(prefix, dead, lines_idx);
        let rp = spec_remove(prefix, dead);
        assert forall|i: int| 0 <= i < rp.len()
            implies exists|j: int| 0 <= j < lines.len() && #[trigger] rp[i] == lines[j] by {
            let j = choose|j: int| 0 <= j < prefix.len() && rp[i] == prefix[j];
            assert(rp[i] == lines[j]);
        }
        if !dead.contains(lines.last().id) {
            let r = rp.push(lines.last());
            assert forall|i: int, j: int| 0 <= i < j < r.len() implies r[i].id < r[j].id by {
                if j < r.len() - 1 {
                } else {
                    let jj = choose|jj: int| 0 <= jj < prefix.len() && r[i] == prefix[jj];
                    assert(prefix[jj].id < lines.last().id) by {
                        assert(lines[jj].id < lines[lines.len() - 1].id);
                    }
                }
            }
        }
    }
}

/// Removing an empty id list keeps the store.
proof fn lemma_remove_empty(lines: Seq<Line>, dead: Seq<usize>)
    requires
        dead.len() == 0,
    ensures
        spec_remove(lines, dead) == lines,
    decreases lines.len(),
{
    if lines.len() > 0 {
        lemma_remove_empty(lines.drop_last(), dead);
        assert(!dead.contains(lines.last().id));
        assert(lines.drop_last().push(lines.last()) =~= lines);
    } else {
        assert(spec_remove(lines, dead) =~= lines);
    }
}

fn contains_id(v: &Vec<usize>, id: usize) -> (r: bool)
    ensures
        r == v@.contains(id),
{
    let mut i: usize = 0;
    while i < v.len()
        invariant
            i <= v@.len(),
            forall|j: int| 0 <= j < i ==> v@[j] != id,
        decreases v@.len() - i,
    {
        if v[i] == id {
            return true;
        }
        i = i + 1;
    }
    false
}

#[verifier::loop_isolation(false)]
fn remove_lines(lines: &Vec<Line>, dead: &Vec<usize>) -> (r: Vec<Line>)
    ensures
        r@ == spec_remove(lines@, dead@),
{
    let mut out: Vec<Line> = Vec::new();
    let mut i: usize = 0;
    proof {
        assert(lines@.take(0) =~= Seq::<Line>::empty());
    }
    while i < lines.len()
        invariant
            i <= lines@.len(),
            out@ == spec_remove(lines@.take(i as int), dead@),
        decreases lines@.len() - i,
    {
        let keep = !contains_id(dead, lines[i].id);
        proof {
            let t1 = lines@.take(i + 1);
            assert(t1.drop_last() =~= lines@.take(i as int));
            assert(t1.last() == lines@[i as int]);
        }
        if keep {
            out.push(lines[i]);
        }
        i = i + 1;
    }
    proof {
        assert(lines@.take(lines@.len() as int) =~= lines@);
    }
    out
}

fn copy_lines(src: &Vec<Line>) -> (r: Vec<Line>)
    ensures
        r@ == src@,
{
    let mut out: Vec<Line> = Vec::new();
    let mut i: usize = 0;
    while i < src.len()
        invariant
            i <= src@.len(),
            out@ == src@.take(i as int),
        decreases src@.len() - i,
    {
        out.push(src[i]);
        proof {
            assert(out@ =~= src@.take(i + 1));
        }
        i = i + 1;
    }
    proof {
        assert(src@.take(src@.len() as int) =~= src@);
    }
    out
}

fn copy_line_pos(src: &Vec<[usize; 4]>) -> (r: Vec<[usize; 4]>)
    ensures
        r@ == src@,
{
    let mut out: Vec<[usize; 4]> = Vec::new();
    let mut i: usize = 0;
    while i < src.len()
        invariant
            i <= src@.len(),
            out@ == src@.take(i as int),
        decreases src@.len() - i,
    {
        out.push(src[i]);
        proof {
            assert(out@ =~= src@.take(i + 1));
        }
        i = i + 1;
    }
    proof {
        assert(src@.take(src@.len() as int) =~= src@);
    }
    out
}


/// Whether a line record is exactly a maximal run of its owner on this
/// board, with true end coordinate and block bits.
#[verifier::rlimit(100)]
#[verifier::spinoff_prover]
fn line_matches_board(board: &Board, l: &Line) -> (r: bool)
    requires
        board.wf(),
    ensures
        r == spec_line_exact(board@, *l),
{
    let ghost a = l.direction as int;
    if l.length < 2 || l.direction >= 4 || l.start.x >= 19 || l.start.y >= 19 {
        return false;
    }
    let d = axis_delta(l.direction as usize, 1);
    proof {
        lemma_mul_small(0, axis_dx(a));
        lemma_mul_small(0, axis_dy(a));
        lemma_mul_small(-1, axis_dx(a));
        lemma_mul_small(-1, axis_dy(a));
        lemma_mul_small(1, axis_dx(a));
        lemma_mul_small(1, axis_dy(a));
    }
    let mut pos = l.start;
    let mut k: usize = 0;
    loop
        invariant_except_break
            k < l.length,
            board.wf(),
            l.start.wf(),
            l.length >= 2,
            a == l.direction as int,
            0 <= a < 4,
            d.0 == axis_dx(a),
            d.1 == axis_dy(a),
            pos.wf(),
            pos.x == seg_x(l.start, a, k as int),
            pos.y == seg_y(l.start, a, k as int),
            forall|j: int| 0 <= j < k ==> spec_line_cell_ok(board@, *l, j),
        ensures
            k == l.length - 1,
            pos.wf(),
            pos.x == seg_x(l.start, a, k as int),
            pos.y == seg_y(l.start, a, k as int),
            forall|j: int| 0 <= j < l.length ==> spec_line_cell_ok(board@, *l, j),
        decreases l.length - k,
    {
        if !(board.at(&pos) == l.player) {
            proof {
                assert(!spec_line_cell_ok(board@, *l, k as int));
            }
            return false;
        }
        proof {
            assert(spec_line_cell_ok(board@, *l, k as int));
        }
        if k == l.length - 1 {
            break;
        }
        proof {
            lemma_mul_small(k as int, axis_dx(a));
            lemma_mul_small(k as int, axis_dy(a));
            lemma_mul_small(k + 1, axis_dx(a));
            lemma_mul_small(k + 1, axis_dy(a));
        }
        if pos.relocate(d.0, d.1).is_err() {
            proof {
                assert(!seg_in(l.start, a, k + 1));
                assert(!spec_line_cell_ok(board@, *l, k + 1));
            }
            return false;
        }
        k = k + 1;
    }
    proof {
        lemma_mul_small(k as int, axis_dx(a));
        lemma_mul_small(k as int, axis_dy(a));
        lemma_mul_small(l.length as int, axis_dx(a));
        lemma_mul_small(l.length as int, axis_dy(a));
    }
    if !(pos.x == l.end.x && pos.y == l.end.y) {
        return false;
    }
    // The cell before the start and the cell after the end.
    let mut qs = l.start;
    let before_ok = qs.relocate(-d.0, -d.1).is_ok();
    let before_piece = before_ok && board.at(&qs) == l.player;
    let before_empty = before_ok && board.at(&qs).is_empty();
    let mut qe = pos;
    let after_ok = qe.relocate(d.0, d.1).is_ok();
    let after_piece = after_ok && board.at(&qe) == l.player;
    let after_empty = after_ok && board.at(&qe).is_empty();
    proof {
        assert(before_ok == seg_in(l.start, a, -1));
        assert(after_ok == seg_in(l.start, a, l.length as int));
    }
    if before_piece || after_piece {
        return false;
    }
    let expected: u8 = (if before_empty { 0 } else { 2 }) + (if after_empty { 0 } else { 1 });
    l.block_pos == expected
}

/// Everything `evaluate_position` does, stated over the runs of the
/// board: the returned endpoints, and, when the run has at least two
/// stones, the pushed line, the re-pointed per-cell index entries and the
/// overwritten ids handed back.
pub open spec fn spec_eval_post(h0: Heuristic, h1: Heuristic, pos: Position, a: int, r: (Position, Position, Option<Vec<usize>>)) -> bool {
    let b = h0.board@;
    let p = b[pos.index()];
    let l0 = spec_run(b, pos, a, 0) as int;
    let l1 = spec_run(b, pos, a, 1) as int;
    let len = 1 + l0 + l1;
    let blocks = (if spec_run_blocked(b, pos, a, 0) { 2int } else { 0int })
        + (if spec_run_blocked(b, pos, a, 1) { 1int } else { 0int });
    let e0 = r.0;
    let e1 = r.1;
    &&& h1.board == h0.board
    &&& h1.captures == h0.captures
    &&& h1.score == h0.score
    &&& e0.x == pos.x - l0 * axis_dx(a)
    &&& e0.y == pos.y - l0 * axis_dy(a)
    &&& e0.wf()
    &&& e1.x == pos.x + l1 * axis_dx(a)
    &&& e1.y == pos.y + l1 * axis_dy(a)
    &&& e1.wf()
    &&& if len == 1 {
        &&& h1.lines@ == h0.lines@
        &&& h1.lines_idx == h0.lines_idx
        &&& h1.line_pos@ == h0.line_pos@
        &&& r.2 is None
    } else {
        &&& h1.lines_idx == h0.lines_idx + 1
        &&& h1.lines@ == h0.lines@.push(Line {
            id: (h0.lines_idx + 1) as usize,
            start: e0,
            end: e1,
            length: len as usize,
            direction: a as u8,
            block_pos: blocks as u8,
            player: p,
            score: spec_line_score(blocks as u8, len, p),
        })
        &&& h1.line_pos@.len() == h0.line_pos@.len()
        &&& forall|k: int| 0 <= k <= len - 1
            ==> spec_lp(h1.line_pos@, seg_index(e0, a, k), a) == h0.lines_idx + 1
        &&& forall|c: int, ax: int| 0 <= c < 361 && 0 <= ax < 4
            && !(ax == a && on_seg(e0, a, len - 1, c))
            ==> spec_lp(h1.line_pos@, c, ax) == spec_lp(h0.line_pos@, c, ax)
        &&& r.2 matches Some(ov) && (forall|id: usize| ov@.contains(id)
            <==> (id != 0 && exists|k: int| 0 <= k <= len - 1
                && spec_lp(h0.line_pos@, seg_index(e0, a, k), a) == id))
    }
}

impl Heuristic {
    /// Point every covered cell's index entry for this axis at the new
    /// line, returning the ids the entries previously held.
    fn populate_line_pos(&mut self, start: &Position, end: &Position, direction: [i32; 2], direction_idx: usize, reference_idx: usize) -> (r: Vec<usize>)
        requires
            old(self).line_pos@.len() == 361,
            direction_idx < 4,
            seg_wf(*start, *end, direction_idx as int),
            direction[0] == axis_dx(direction_idx as int),
            direction[1] == axis_dy(direction_idx as int),
        ensures
            final(self).board == old(self).board,
            final(self).captures == old(self).captures,
            final(self).lines == old(self).lines,
            final(self).lines_idx == old(self).lines_idx,
            final(self).score == old(self).score,
            final(self).line_pos@.len() == 361,
            forall|k: int| 0 <= k <= seg_steps(*start, *end, direction_idx as int)
                ==> spec_lp(final(self).line_pos@, seg_index(*start, direction_idx as int, k), direction_idx as int) == reference_idx,
            forall|c: int, ax: int| 0 <= c < 361 && 0 <= ax < 4
                && !(ax == direction_idx && on_seg(*start, direction_idx as int, seg_steps(*start, *end, direction_idx as int), c))
                ==> spec_lp(final(self).line_pos@, c, ax) == spec_lp(old(self).line_pos@, c, ax),
            forall|id: usize| r@.contains(id)
                <==> (id != 0 && exists|k: int| 0 <= k <= seg_steps(*start, *end, direction_idx as int)
                    && spec_lp(old(self).line_pos@, seg_index(*start, direction_idx as int, k), direction_idx as int) == id),
    {
        let a = direction_idx;
        let ghost ai = a as int;
        let ghost steps = seg_steps(*start, *end, ai);
        let dx = direction[0];
        let dy = direction[1];
        let mut pos = *start;
        let mut overwritten: Vec<usize> = Vec::new();
        let ghost mut k: int = 0;
        proof {
            lemma_mul_small(0, axis_dx(ai));
            lemma_mul_small(0, axis_dy(ai));
            lemma_seg_cells(*start, *end, ai, 0);
        }
        loop
            invariant_except_break
                0 <= k <= steps,
                a == direction_idx,
                ai == a as int,
                0 <= ai < 4,
                steps == seg_steps(*start, *end, ai),
                seg_wf(*start, *end, ai),
                dx as int == axis_dx(ai),
                dy as int == axis_dy(ai),
                pos.wf(),
                pos.x == seg_x(*start, ai, k),
                pos.y == seg_y(*start, ai, k),
                self.line_pos@.len() == 361,
                self.board == old(self).board,
                self.captures == old(self).captures,
                self.lines == old(self).lines,
                self.lines_idx == old(self).lines_idx,
                self.score == old(self).score,
                forall|j: int| 0 <= j < k
                    ==> spec_lp(self.line_pos@, seg_index(*start, ai, j), ai) == reference_idx,
                forall|c: int, ax: int| 0 <= c < 361 && 0 <= ax < 4
                    && !(ax == ai && on_seg(*start, ai, k - 1, c))
                    ==> spec_lp(self.line_pos@, c, ax) == spec_lp(old(self).line_pos@, c, ax),
                forall|id: usize| overwritten@.contains(id)
                    <==> (id != 0 && exists|j: int| 0 <= j < k
                        && spec_lp(old(self).line_pos@, seg_index(*start, ai, j), ai) == id),
            ensures
                k == steps + 1,
                pos.wf(),
                self.line_pos@.len() == 361,
                self.board == old(self).board,
                self.captures == old(self).captures,
                self.lines == old(self).lines,
                self.lines_idx == old(self).lines_idx,
                self.score == old(self).score,
                forall|j: int| 0 <= j < k
                    ==> spec_lp(self.line_pos@, seg_index(*start, ai, j), ai) == reference_idx,
                forall|c: int, ax: int| 0 <= c < 361 && 0 <= ax < 4
                    && !(ax == ai && on_seg(*start, ai, k - 1, c))
                    ==> spec_lp(self.line_pos@, c, ax) == spec_lp(old(self).line_pos@, c, ax),
                forall|id: usize| overwritten@.contains(id)
                    <==> (id != 0 && exists|j: int| 0 <= j < k
                        && spec_lp(old(self).line_pos@, seg_index(*start, ai, j), ai) == id),
            decreases steps - k,
        {
            proof {
                lemma_seg_cells(*start, *end, ai, k);
            }
            let idx = pos.y * 19 + pos.x;
            assert(idx == seg_index(*start, ai, k));
            let old_id = self.line_pos[idx][a];
            proof {
                // This cell has not been touched yet: its index entry
                // still holds the pre-call value.
                assert(!on_seg(*start, ai, k - 1, idx as int)) by {
                    if on_seg(*start, ai, k - 1, idx as int) {
                        let j = choose|j: int| 0 <= j <= k - 1 && idx as int == seg_index(*start, ai, j);
                        assert(seg_index(*start, ai, j) != seg_index(*start, ai, k));
                    }
                }
                assert(old_id == spec_lp(old(self).line_pos@, seg_index(*start, ai, k), ai));
            }
            let ghost prev_ov = overwritten@;
            if old_id != 0 {
                overwritten.push(old_id);
            }
            proof {
                assert forall|id: usize| prev_ov.contains(id) implies overwritten@.contains(id) by {
                    let j = choose|j: int| 0 <= j < prev_ov.len() && prev_ov[j] == id;
                    assert(overwritten@[j] == id);
                }
                if old_id != 0 {
                    assert(overwritten@[overwritten@.len() - 1] == old_id);
                }
                assert forall|id: usize| overwritten@.contains(id) implies
                    (id != 0 && exists|j: int| 0 <= j < k + 1
                        && spec_lp(old(self).line_pos@, seg_index(*start, ai, j), ai) == id) by {
                    let j = choose|j: int| 0 <= j < overwritten@.len() && overwritten@[j] == id;
                    if j < prev_ov.len() {
                        assert(prev_ov.contains(id));
                    } else {
                        assert(id == old_id);
                        assert(spec_lp(old(self).line_pos@, seg_index(*start, ai, k), ai) == id);
                    }
                }
                assert forall|id: usize| (id != 0 && exists|j: int| 0 <= j < k + 1
                        && spec_lp(old(self).line_pos@, seg_index(*start, ai, j), ai) == id)
                    implies overwritten@.contains(id) by {
                    let j = choose|j: int| 0 <= j < k + 1
                        && spec_lp(old(self).line_pos@, seg_index(*start, ai, j), ai) == id;
                    if j < k {
                        assert(prev_ov.contains(id));
                    } else {
                        assert(id == old_id);
                        assert(overwritten@[overwritten@.len() - 1] == id);
                    }
                }
            }
            let mut entry = self.line_pos[idx];
            entry[a] = reference_idx;
            self.line_pos[idx] = entry;
            proof {
                k = k + 1;
                assert forall|c: int, ax: int| 0 <= c < 361 && 0 <= ax < 4
                    && !(ax == ai && on_seg(*start, ai, k - 1, c))
                    implies spec_lp(self.line_pos@, c, ax) == spec_lp(old(self).line_pos@, c, ax) by {
                    if c != idx as int {
                        assert(!on_seg(*start, ai, k - 2, c) || on_seg(*start, ai, k - 1, c));
                    }
                }
                assert forall|j: int| 0 <= j < k
                    implies spec_lp(self.line_pos@, seg_index(*start, ai, j), ai) == reference_idx by {
                    if j < k - 1 {
                        assert(seg_index(*start, ai, j) != seg_index(*start, ai, k - 1));
                    }
                }
            }
            if pos == *end {
                proof {
                    // The driving coordinate reads the step back: the end
                    // cell is reached exactly at `steps`.
                    lemma_mul_small(k - 1, axis_dx(ai));
                    lemma_mul_small(k - 1, axis_dy(ai));
                    lemma_mul_small(steps, axis_dx(ai));
                    lemma_mul_small(steps, axis_dy(ai));
                    assert(k - 1 == steps);
                }
                break;
            }
            proof {
                lemma_mul_small(k - 1, axis_dx(ai));
                lemma_mul_small(k - 1, axis_dy(ai));
                lemma_mul_small(steps, axis_dx(ai));
                lemma_mul_small(steps, axis_dy(ai));
                assert(k - 1 != steps);
                assert(k <= steps);
                lemma_seg_cells(*start, *end, ai, k);
                lemma_mul_small(k, axis_dx(ai));
                lemma_mul_small(k, axis_dy(ai));
            }
            let moved = pos.relocate(dx, dy);
            assert(moved is Ok);
        }
        overwritten
    }

    /// Measure the maximal run through `pos` along one axis and record it
    /// as a line when it has at least two stones, re-pointing the
    /// per-cell index of every covered cell and returning the endpoints
    /// and the overwritten ids.
    #[verifier::loop_isolation(false)]
    fn evaluate_position(&mut self, pos: Position, direction_idx: usize) -> (r: (Position, Position, Option<Vec<usize>>))
        requires
            old(self).wf(),
            pos.wf(),
            old(self).board@[pos.index()].is_piece_spec(),
            direction_idx < 4,
            old(self).lines_idx < usize::MAX,
        ensures
            final(self).wf(),
            spec_eval_post(*old(self), *final(self), pos, direction_idx as int, r),
    {
        let ghost ai = direction_idx as int;
        let player = self.board.at(&pos);
        let d0 = axis_delta(direction_idx, 0);
        let d1 = axis_delta(direction_idx, 1);
        let s0 = self.get_line_length([d0.0, d0.1], pos, player);
        let s1 = self.get_line_length([d1.0, d1.1], pos, player);
        proof {
            lemma_mul_small(s0.length as int, axis_dx(ai));
            lemma_mul_small(s0.length as int, axis_dy(ai));
            lemma_mul_small(s0.length as int, -axis_dx(ai));
            lemma_mul_small(s0.length as int, -axis_dy(ai));
            lemma_mul_small(s1.length as int, axis_dx(ai));
            lemma_mul_small(s1.length as int, axis_dy(ai));
        }
        let block_count: u8 = (if s0.blocked { 2 } else { 0 }) + (if s1.blocked { 1 } else { 0 });
        let length = 1 + s0.length + s1.length;
        if length == 1 {
            return (s0.end, s1.end, None);
        }
        self.lines_idx = self.lines_idx + 1;
        let line = Line::new(self.lines_idx, player, block_count, s0.end, s1.end, direction_idx as u8, length);
        let ghost lines_before = self.lines@;
        self.lines.push(line);
        proof {
            assert forall|i: int, j: int| 0 <= i < j < self.lines@.len()
                implies self.lines@[i].id < self.lines@[j].id by {
                if j < self.lines@.len() - 1 {
                    assert(lines_before[i].id < lines_before[j].id);
                }
            }
            assert(seg_wf(s0.end, s1.end, ai)) by {
                lemma_mul_small(length - 1, axis_dx(ai));
                lemma_mul_small(length - 1, axis_dy(ai));
            }
        }
        let overwritten = self.populate_line_pos(&s0.end, &s1.end, [d1.0, d1.1], direction_idx, self.lines_idx);
        (s0.end, s1.end, Some(overwritten))
    }

    /// Build the evaluator from scratch: scan every stone, and measure a
    /// line at each cell and axis not yet covered by one. The result
    /// satisfies the line-coverage invariant: entries resolve only to
    /// lines lying on the board over the cell, and every stone with a
    /// same-color axis neighbor resolves in that axis.
    #[verifier::loop_isolation(false)]
    #[verifier::rlimit(100)]
    pub fn from_board(board: &Board, captures: &[usize; 2]) -> (r: Heuristic)
        requires
            board.wf(),
        ensures
            r.wf(),
            r.board@ == board@,
            r.captures == *captures,
            r.score is None,
            1 <= r.lines_idx <= 1445,
            spec_index_sound(r),
            spec_slots_bounded(r),
            spec_coverage(r),
            spec_lines_exact(board@, r.lines@),
    {
        let mut h = Heuristic {
            lines_idx: 1,
            board: board.clone(),
            captures: *captures,
            lines: Vec::new(),
            line_pos: vec![[0usize; 4]; 361],
            score: None,
        };
        proof {
            assert forall|c: int, a: int| 0 <= c < 361 && 0 <= a < 4
                implies #[trigger] spec_find(h.lines@, spec_slot(h, c, a)) is None
                    && spec_slot(h, c, a) <= h.lines_idx by {
                assert(h.lines@.len() == 0);
            }
        }
        let mut c: usize = 0;
        while c < 361
            invariant
                c <= 361,
                h.wf(),
                h.board@ == board@,
                h.captures == *captures,
                h.score is None,
                1 <= h.lines_idx <= 1 + 4 * c,
                spec_index_sound(h),
                spec_slots_bounded(h),
                spec_lines_exact(h.board@, h.lines@),
                forall|c2: int, a2: int| 0 <= c2 < c && 0 <= a2 < 4
                    && h.board@[c2].is_piece_spec() && #[trigger] spec_axis_neighbor(h.board@, c2, a2)
                    ==> #[trigger] spec_find(h.lines@, spec_slot(h, c2, a2)) is Some,
            decreases 361 - c,
        {
            let pos = Position::from_u64(c);
            if h.board.at(&pos).is_piece() {
                let mut a: usize = 0;
                while a < 4
                    invariant
                        a <= 4,
                        c < 361,
                        pos.wf(),
                        pos.index() == c,
                        h.wf(),
                        h.board@ == board@,
                        h.captures == *captures,
                        h.score is None,
                        h.board@[pos.index()].is_piece_spec(),
                        1 <= h.lines_idx <= 1 + 4 * c + a,
                        spec_index_sound(h),
                        spec_slots_bounded(h),
                        spec_lines_exact(h.board@, h.lines@),
                        forall|c2: int, a2: int| 0 <= c2 < c && 0 <= a2 < 4
                            && h.board@[c2].is_piece_spec() && #[trigger] spec_axis_neighbor(h.board@, c2, a2)
                            ==> #[trigger] spec_find(h.lines@, spec_slot(h, c2, a2)) is Some,
                        forall|a2: int| 0 <= a2 < a
                            && #[trigger] spec_axis_neighbor(h.board@, c as int, a2)
                            ==> spec_find(h.lines@, spec_slot(h, c as int, a2)) is Some,
                    decreases 4 - a,
                {
                    if h.get_line(&pos, a).is_none() {
                        let ghost h0 = h;
                        let rr = h.evaluate_position(pos, a);
                        proof {
                            lemma_eval_keeps_index(h0, h, pos, a as int, rr);
                            assert forall|c2: int, a2: int| 0 <= c2 < c && 0 <= a2 < 4
                                && h.board@[c2].is_piece_spec()
                                && #[trigger] spec_axis_neighbor(h.board@, c2, a2)
                                implies #[trigger] spec_find(h.lines@, spec_slot(h, c2, a2)) is Some by {
                                assert(spec_axis_neighbor(h0.board@, c2, a2));
                                assert(spec_find(h0.lines@, spec_slot(h0, c2, a2)) is Some);
                            }
                            assert forall|a2: int| 0 <= a2 < a + 1
                                && #[trigger] spec_axis_neighbor(h.board@, c as int, a2)
                                implies spec_find(h.lines@, spec_slot(h, c as int, a2)) is Some by {
                                if a2 < a {
                                    assert(spec_axis_neighbor(h0.board@, c as int, a2));
                                    assert(spec_find(h0.lines@, spec_slot(h0, c as int, a2)) is Some);
                                }
                            }
                        }
                    }
                    a = a + 1;
                }
            } else {
                proof {
                    assert forall|a2: int| 0 <= a2 < 4
                        && #[trigger] spec_axis_neighbor(h.board@, c as int, a2)
                        && h.board@[c as int].is_piece_spec()
                        implies spec_find(h.lines@, spec_slot(h, c as int, a2)) is Some by {
                        assert(false);
                    }
                }
            }
            c = c + 1;
        }
        h
    }

    /// Build the evaluator for a search node.
    pub fn from_game_state(state: &GameState) -> (r: Heuristic)
        requires
            state.board.wf(),
        ensures
            r.wf(),
            r.board@ == state.board@,
            r.captures == state.captures,
            r.score is None,
            1 <= r.lines_idx <= 1445,
            spec_index_sound(r),
            spec_slots_bounded(r),
            spec_coverage(r),
            spec_lines_exact(state.board@, r.lines@),
    {
        Self::from_board(&state.board, &state.captures)
    }

    /// Derive the evaluator of a child node from this one: re-measure the
    /// lines around every changed cell and drop every line that the
    /// changes invalidated, instead of rebuilding from scratch. A final
    /// pass re-checks each kept line against the new board, so the result
    /// holds exact lines only and its per-cell index stays sound; a line
    /// the incremental pass failed to invalidate is dropped rather than
    /// kept stale. On an unchanged board the derivation is the identity.
    #[verifier::loop_isolation(false)]
    #[verifier::rlimit(100)]
    #[verifier::spinoff_prover]
    pub fn from_new_state(&self, state: &GameState) -> (r: Heuristic)
        requires
            self.wf(),
            state.board.wf(),
            self.lines_idx + 2888 <= usize::MAX,
            spec_index_sound(*self),
            spec_slots_bounded(*self),
            spec_lines_exact(self.board@, self.lines@),
        ensures
            r.wf(),
            r.board@ == state.board@,
            r.captures == state.captures,
            r.score is None,
            r.lines_idx <= self.lines_idx + 2888,
            spec_index_sound(r),
            spec_slots_bounded(r),
            spec_lines_exact(state.board@, r.lines@),
            state.board@ == self.board@ ==> r.lines@ == self.lines@
                && r.line_pos@ == self.line_pos@ && r.lines_idx == self.lines_idx,
    {
        let ghost same = state.board@ == self.board@;
        let mut n = Heuristic {
            lines_idx: self.lines_idx,
            board: state.board.clone(),
            captures: state.captures,
            lines: copy_lines(&self.lines),
            line_pos: copy_line_pos(&self.line_pos),
            score: None,
        };

        proof {
            assert forall|c: int, a: int| 0 <= c < 361 && 0 <= a < 4
                implies #[trigger] spec_slot(n, c, a) == spec_slot(*self, c, a)
                    && spec_slot(n, c, a) <= n.lines_idx by {
                assert(n.line_pos@ == self.line_pos@);
                assert(spec_lp(n.line_pos@, c, a) == spec_lp(self.line_pos@, c, a));
                assert(spec_slot(*self, c, a) <= self.lines_idx);
            }
            assert forall|c: int, a: int| 0 <= c < 361 && 0 <= a < 4
                && #[trigger] spec_find(n.lines@, spec_slot(n, c, a)) is Some
                implies spec_covers(spec_find(n.lines@, spec_slot(n, c, a)).unwrap(), a, c) by {
                assert(spec_find(self.lines@, spec_slot(*self, c, a)) is Some);
            }
        }

        let diff = Board::get_diff(&n.board, &self.board);
        let mut lines_to_delete: Vec<usize> = Vec::new();
        proof {
            // Deriving from an unchanged board touches nothing.
            if same && diff@.len() > 0 {
                assert(n.board@[diff@[0].index()] != self.board@[diff@[0].index()]);
            }
        }

        let mut p: usize = 0;
        while p < diff.len()
            invariant
                same ==> diff@.len() == 0 && n.lines@ == self.lines@
                    && n.line_pos@ == self.line_pos@ && n.lines_idx == self.lines_idx
                    && lines_to_delete@.len() == 0,
                p <= diff@.len(),
                diff@.len() <= 361,
                forall|i: int| 0 <= i < diff@.len() ==> (#[trigger] diff@[i]).wf(),
                n.wf(),
                n.board@ == state.board@,
                n.captures == state.captures,
                n.score is None,
                n.lines_idx <= self.lines_idx + 8 * p,
                spec_index_covers(n),
                spec_slots_bounded(n),
            decreases diff@.len() - p,
        {
            let pos = diff[p];
            let mut a: usize = 0;
            while a < 4
                invariant
                    a <= 4,
                    p < diff@.len(),
                    diff@.len() <= 361,
                    pos.wf(),
                    n.wf(),
                    n.board@ == state.board@,
                    n.captures == state.captures,
                    n.score is None,
                    n.lines_idx <= self.lines_idx + 8 * p + 2 * a,
                    spec_index_covers(n),
                    spec_slots_bounded(n),
                decreases 4 - a,
            {
                let d0 = axis_delta(a, 0);
                let d1 = axis_delta(a, 1);
                let mut cur0 = pos;
                let mut cur1 = pos;

                let needs_line_one_eval = cur0.relocate(d0.0, d0.1).is_ok();
                let needs_line_two_eval = cur1.relocate(d1.0, d1.1).is_ok();

                // A changed cell invalidates any line its two axis
                // neighbors belong to; both may be shortened, split or
                // stale.
                if needs_line_one_eval {
                    if let Some(l) = n.get_line(&cur0, a) {
                        lines_to_delete.push(l.id);
                    }
                }
                if needs_line_two_eval {
                    if let Some(l) = n.get_line(&cur1, a) {
                        lines_to_delete.push(l.id);
                    }
                }

                let mut skip_second = false;
                if needs_line_one_eval && n.board.at(&cur0).is_piece() {
                    let ghost n0 = n;
                    let recalc = n.evaluate_position(cur0, a);
                    proof {
                        lemma_eval_keeps_covers(n0, n, cur0, a as int, recalc);
                    }
                    if let Some(mut ov) = recalc.2 {
                        lines_to_delete.append(&mut ov);
                    }
                    // When the far neighbor already lies on the line just
                    // measured, measuring there again is redundant.
                    if !needs_line_two_eval || is_point_on_line(recalc.0, recalc.1, cur1) {
                        skip_second = true;
                    }
                }
                if !skip_second && needs_line_two_eval && n.board.at(&cur1).is_piece() {
                    let ghost n0 = n;
                    let recalc = n.evaluate_position(cur1, a);
                    proof {
                        lemma_eval_keeps_covers(n0, n, cur1, a as int, recalc);
                    }
                    if let Some(mut ov) = recalc.2 {
                        lines_to_delete.append(&mut ov);
                    }
                }
                a = a + 1;
            }
            p = p + 1;
        }

        let kept = remove_lines(&n.lines, &lines_to_delete);
        let ghost n_pre = n;
        proof {
            lemma_remove_wf(n.lines@, lines_to_delete@, n.lines_idx as int);
            if same {
                lemma_remove_empty(n.lines@, lines_to_delete@);
            }
        }
        n.lines = kept;
        proof {
            assert forall|c: int, a: int| 0 <= c < 361 && 0 <= a < 4
                && #[trigger] spec_find(n.lines@, spec_slot(n, c, a)) is Some
                implies spec_covers(spec_find(n.lines@, spec_slot(n, c, a)).unwrap(), a, c) by {
                let id = spec_slot(n, c, a);
                lemma_find_id(n.lines@, id);
                lemma_find_elem(n.lines@, id);
                let l = spec_find(n.lines@, id).unwrap();
                let j = choose|j: int| 0 <= j < n.lines@.len() && n.lines@[j] == l;
                let j0 = choose|j0: int| 0 <= j0 < n_pre.lines@.len() && n.lines@[j] == n_pre.lines@[j0];
                lemma_find_by_id(n_pre.lines@, j0);
                assert(spec_slot(n_pre, c, a) == id);
                assert(spec_find(n_pre.lines@, id) == Some(l));
            }
        }

        // Exactness pass: drop any kept line that is no longer a maximal
        // run on the new board.
        let mut stale: Vec<usize> = Vec::new();
        let mut li: usize = 0;
        while li < n.lines.len()
            invariant
                li <= n.lines@.len(),
                n.wf(),
                n.board@ == state.board@,
                forall|j: int| 0 <= j < li && !spec_line_exact(n.board@, #[trigger] n.lines@[j])
                    ==> stale@.contains(n.lines@[j].id),
                forall|x: usize| stale@.contains(x) ==> exists|j: int|
                    0 <= j < li && (#[trigger] n.lines@[j]).id == x
                        && !spec_line_exact(n.board@, n.lines@[j]),
            decreases n.lines@.len() - li,
        {
            let ok = line_matches_board(&n.board, &n.lines[li]);
            let ghost prev = stale@;
            if !ok {
                stale.push(n.lines[li].id);
                proof {
                    assert(stale@[stale@.len() - 1] == n.lines@[li as int].id);
                }
            }
            proof {
                assert forall|x: usize| prev.contains(x) implies stale@.contains(x) by {
                    let i = choose|i: int| 0 <= i < prev.len() && prev[i] == x;
                    assert(stale@[i] == x);
                }
                assert forall|x: usize| stale@.contains(x) implies exists|j: int|
                    0 <= j < li + 1 && (#[trigger] n.lines@[j]).id == x
                        && !spec_line_exact(n.board@, n.lines@[j]) by {
                    let i = choose|i: int| 0 <= i < stale@.len() && stale@[i] == x;
                    if i < prev.len() {
                        assert(prev.contains(x));
                    } else {
                        assert(x == n.lines@[li as int].id);
                    }
                }
            }
            li = li + 1;
        }

        let kept2 = remove_lines(&n.lines, &stale);
        let ghost n_mid = n;
        proof {
            lemma_remove_wf(n.lines@, stale@, n.lines_idx as int);
            if same {
                assert(stale@.len() == 0) by {
                    if stale@.len() > 0 {
                        assert(stale@.contains(stale@[0]));
                    }
                }
                lemma_remove_empty(n.lines@, stale@);
            }
        }
        n.lines = kept2;
        proof {
            // Every survivor is exact for the new board.
            assert forall|i: int| 0 <= i < n.lines@.len()
                implies spec_line_exact(state.board@, #[trigger] n.lines@[i]) by {
                let j = choose|j: int| 0 <= j < n_mid.lines@.len() && n.lines@[i] == n_mid.lines@[j];
                assert(!stale@.contains(n.lines@[i].id));
            }
            // The index stays sound: resolving entries find the same
            // records, which are now known exact.
            assert forall|c: int, a: int| 0 <= c < 361 && 0 <= a < 4
                && #[trigger] spec_find(n.lines@, spec_slot(n, c, a)) is Some
                implies spec_covers(spec_find(n.lines@, spec_slot(n, c, a)).unwrap(), a, c)
                    && spec_line_on_board(n.board@, spec_find(n.lines@, spec_slot(n, c, a)).unwrap()) by {
                let id = spec_slot(n, c, a);
                lemma_find_id(n.lines@, id);
                lemma_find_elem(n.lines@, id);
                let l = spec_find(n.lines@, id).unwrap();
                let j = choose|j: int| 0 <= j < n.lines@.len() && n.lines@[j] == l;
                let j0 = choose|j0: int| 0 <= j0 < n_mid.lines@.len() && n.lines@[j] == n_mid.lines@[j0];
                lemma_find_by_id(n_mid.lines@, j0);
                assert(spec_slot(n_mid, c, a) == id);
                assert(spec_find(n_mid.lines@, id) == Some(l));
                assert(spec_line_exact(state.board@, n.lines@[j]));
            }
            assert forall|c: int, a: int| 0 <= c < 361 && 0 <= a < 4
                implies #[trigger] spec_slot(n, c, a) <= n.lines_idx by {
                assert(spec_slot(n_pre, c, a) <= n_pre.lines_idx);
            }
        }
        n
    }
}

pub open spec fn spec_abs(a: int) -> int {
    if a < 0 {
        -a
    } else {
        a
    }
}

/// Positional bonus of a cell, highest at the board center: the exact
/// integer form of `(1 - |9.5 - y|/9.5 + 1 - |9.5 - x|/9.5) / 2` in
/// internal score units.
pub open spec fn spec_position_score(pos: Position) -> int {
    4 * (38 - spec_abs(19 - 2 * pos.y) - spec_abs(19 - 2 * pos.x))
}

/// The position standing at row-major cell `c`.
pub open spec fn spec_pos_of(c: int) -> Position {
    Position { x: (c % 19) as usize, y: (c / 19) as usize }
}

/// Signed positional bonus of the first `n` cells: each stone adds its
/// cell's bonus, positively for Max and negatively for Min.
pub open spec fn spec_solo_sum(b: Seq<Piece>, n: int) -> int
    decreases n,
{
    if n <= 0 {
        0
    } else {
        spec_solo_sum(b, n - 1) + (match b[n - 1] {
            Piece::Max => spec_position_score(spec_pos_of(n - 1)),
            Piece::Min => -spec_position_score(spec_pos_of(n - 1)),
            Piece::Empty => 0int,
        })
    }
}

/// Sum of the scores of one side's lines.
pub open spec fn spec_sum_lines(lines: Seq<Line>, player: Piece) -> Score
    decreases lines.len(),
{
    if lines.len() == 0 {
        Score::Fin(0)
    } else {
        spec_sum_lines(lines.drop_last(), player).spec_plus(
            if lines.last().player == player {
                lines.last().score
            } else {
                Score::Fin(0)
            })
    }
}

/// The full-board score: an immediate infinity when either side has five
/// captures, otherwise the two line sums, the positional bonus, and the
/// capture-score difference.
pub open spec fn spec_full_score(lines: Seq<Line>, b: Seq<Piece>, captures: [usize; 2]) -> Score {
    let cs0 = spec_capture_score(captures[0] as int);
    let cs1 = spec_capture_score(captures[1] as int);
    if cs0 is PosInf || cs1 is PosInf {
        cs0.spec_minus(cs1)
    } else {
        spec_sum_lines(lines, Piece::Max)
            .spec_plus(spec_sum_lines(lines, Piece::Min))
            .spec_plus(Score::Fin(spec_solo_sum(b, 361) as i128))
            .spec_plus(cs0.spec_minus(cs1))
    }
}

/// One side's line sum never points the other way: Max lines sum to a
/// nonnegative value or a win, Min lines to a nonpositive value or a
/// loss.
pub proof fn lemma_sum_lines_sign(lines: Seq<Line>, player: Piece)
    requires
        forall|i: int| 0 <= i < lines.len() ==> line_wf(#[trigger] lines[i]),
        lines.len() <= 0xffff_ffff_ffff_ffff,
    ensures
        spec_sum_lines(lines, player).fin_bounded_by(lines.len() * (MAX_TABLE_SCORE as int)),
        player == Piece::Max ==> spec_sum_lines(lines, player) == Score::PosInf
            || (spec_sum_lines(lines, player) matches Score::Fin(v) && v >= 0),
        player == Piece::Min ==> spec_sum_lines(lines, player) == Score::NegInf
            || (spec_sum_lines(lines, player) matches Score::Fin(v) && v <= 0),
    decreases lines.len(),
{
    if lines.len() > 0 {
        let prefix = lines.drop_last();
        assert(forall|i: int| 0 <= i < prefix.len() ==> prefix[i] == lines[i]);
        lemma_sum_lines_sign(prefix, player);
        let last = lines.last();
        lemma_line_score_range(last.block_pos, last.length as int, last.player);
        assert(prefix.len() * (MAX_TABLE_SCORE as int) + MAX_TABLE_SCORE as int
            == lines.len() * (MAX_TABLE_SCORE as int)) by (nonlinear_arith)
            requires prefix.len() == lines.len() - 1;
    }
}

/// The positional bonus of a cell lies between 0 and 144 internal units.
pub proof fn lemma_position_score_range(pos: Position)
    requires
        pos.wf(),
    ensures
        0 <= spec_position_score(pos) <= 144,
{
}

/// The signed positional sum over `n` cells is at most `144 * n` in
/// magnitude.
pub proof fn lemma_solo_sum_bound(b: Seq<Piece>, n: int)
    requires
        0 <= n <= 361,
    ensures
        -144 * n <= spec_solo_sum(b, n) <= 144 * n,
    decreases n,
{
    if n > 0 {
        lemma_solo_sum_bound(b, n - 1);
        let c = n - 1;
        assert(0 <= c % 19 < 19 && 0 <= c / 19 < 19);
    }
}

impl Heuristic {
    /// Capture score of one side's counter.
    fn calculate_captures(value: &usize) -> (r: Score)
        ensures
            r == spec_capture_score(*value as int),
    {
        if *value >= 5 {
            Score::PosInf
        } else if *value == 4 {
            Score::Fin(9728)
        } else if *value == 3 {
            Score::Fin(4864)
        } else if *value == 2 {
            Score::Fin(2432)
        } else if *value == 1 {
            Score::Fin(1216)
        } else {
            Score::Fin(0)
        }
    }

    /// Positional bonus of a cell in internal units.
    fn get_position_score(pos: Position) -> (r: i128)
        requires
            pos.wf(),
        ensures
            r == spec_position_score(pos),
            0 <= r <= 144,
    {
        let ty: i64 = 19 - 2 * (pos.y as i64);
        let tx: i64 = 19 - 2 * (pos.x as i64);
        let ay: i64 = if ty < 0 { -ty } else { ty };
        let ax: i64 = if tx < 0 { -tx } else { tx };
        (4 * (38 - ay - ax)) as i128
    }

    /// The full-board score, cached in `score`: an immediate win when a
    /// side holds five captured pairs, otherwise line sums plus the
    /// positional bonus plus the capture difference.
    #[verifier::loop_isolation(false)]
    #[verifier::rlimit(60)]
    pub fn get_heuristic(&mut self) -> (r: Score)
        requires
            old(self).wf(),
        ensures
            final(self).wf(),
            final(self).board == old(self).board,
            final(self).captures == old(self).captures,
            final(self).lines == old(self).lines,
            final(self).lines_idx == old(self).lines_idx,
            final(self).line_pos == old(self).line_pos,
            final(self).score == Some(r),
            r == spec_full_score(old(self).lines@, old(self).board@, old(self).captures),
            r.fin_bounded_by(SCORE_CACHE_BOUND as int),
    {
        let cs0 = Self::calculate_captures(&self.captures[0]);
        let cs1 = Self::calculate_captures(&self.captures[1]);
        proof {
            lemma_capture_score_range(self.captures[0] as int);
            lemma_capture_score_range(self.captures[1] as int);
        }
        if cs0.is_infinite() || cs1.is_infinite() {
            let s = cs0.minus(cs1);
            self.score = Some(s);
            return s;
        }

        let ghost lines_seq = self.lines@;
        let mut s0 = Score::Fin(0);
        let mut s1 = Score::Fin(0);
        let mut i: usize = 0;
        proof {
            assert(lines_seq.take(0) =~= Seq::<Line>::empty());
        }
        while i < self.lines.len()
            invariant
                i <= lines_seq.len(),
                s0 == spec_sum_lines(lines_seq.take(i as int), Piece::Max),
                s1 == spec_sum_lines(lines_seq.take(i as int), Piece::Min),
                s0.fin_bounded_by(i * (MAX_TABLE_SCORE as int)),
                s1.fin_bounded_by(i * (MAX_TABLE_SCORE as int)),
            decreases lines_seq.len() - i,
        {
            let line = self.lines[i];
            proof {
                let t1 = lines_seq.take(i + 1);
                assert(t1.drop_last() =~= lines_seq.take(i as int));
                assert(t1.last() == lines_seq[i as int]);
                lemma_line_score_range(line.block_pos, line.length as int, line.player);
                assert((i + 1) * (MAX_TABLE_SCORE as int)
                    == i * (MAX_TABLE_SCORE as int) + MAX_TABLE_SCORE as int) by (nonlinear_arith);
            }
            if line.player.is_max() {
                s0 = s0.plus(line.score);
            } else {
                s1 = s1.plus(line.score);
            }
            i = i + 1;
        }
        proof {
            assert(lines_seq.take(lines_seq.len() as int) =~= lines_seq);
        }

        let mut solo_scores: i128 = 0;
        let mut c: usize = 0;
        while c < 361
            invariant
                c <= 361,
                solo_scores == spec_solo_sum(self.board@, c as int),
                -144 * (c as int) <= solo_scores <= 144 * (c as int),
            decreases 361 - c,
        {
            let pos = Position::from_u64(c);
            let cell = self.board.at(&pos);
            match cell {
                Piece::Max => {
                    solo_scores = solo_scores + Self::get_position_score(pos);
                }
                Piece::Min => {
                    solo_scores = solo_scores - Self::get_position_score(pos);
                }
                Piece::Empty => {}
            }
            proof {
                assert(spec_pos_of(c as int) == pos);
            }
            c = c + 1;
        }

        let total = s0.plus(s1).plus(Score::Fin(solo_scores)).plus(cs0.minus(cs1));
        self.score = Some(total);
        total
    }
}

/// Five captured pairs for the maximizing side decide the score outright.
pub proof fn lemma_capture_win_max(lines: Seq<Line>, b: Seq<Piece>, captures: [usize; 2])
    requires
        captures[0] >= 5,
        captures[1] < 5,
    ensures
        spec_full_score(lines, b, captures) == Score::PosInf,
{
    lemma_capture_score_range(captures[1] as int);
}

/// Five captured pairs for the minimizing side decide the score outright.
pub proof fn lemma_capture_win_min(lines: Seq<Line>, b: Seq<Piece>, captures: [usize; 2])
    requires
        captures[1] >= 5,
        captures[0] < 5,
    ensures
        spec_full_score(lines, b, captures) == Score::NegInf,
{
    lemma_capture_score_range(captures[0] as int);
}

/// A Max line sum containing a five is the winning infinity.
proof fn lemma_sum_max_posinf(lines: Seq<Line>)
    requires
        forall|i: int| 0 <= i < lines.len() ==> line_wf(#[trigger] lines[i]),
        lines.len() <= 0xffff_ffff_ffff_ffff,
        exists|i: int| 0 <= i < lines.len() && (#[trigger] lines[i]).player == Piece::Max
            && lines[i].length >= 5,
    ensures
        spec_sum_lines(lines, Piece::Max) == Score::PosInf,
    decreases lines.len(),
{
    let w = choose|i: int| 0 <= i < lines.len() && (#[trigger] lines[i]).player == Piece::Max
        && lines[i].length >= 5;
    let prefix = lines.drop_last();
    assert(forall|i: int| 0 <= i < prefix.len() ==> prefix[i] == lines[i]);
    let last = lines.last();
    lemma_line_score_range(last.block_pos, last.length as int, last.player);
    if w == lines.len() - 1 {
        lemma_sum_lines_sign(prefix, Piece::Max);
        assert(last.score == Score::PosInf);
    } else {
        lemma_sum_max_posinf(prefix);
    }
}

/// A Min line sum with no five in it is finite.
proof fn lemma_sum_min_fin(lines: Seq<Line>)
    requires
        forall|i: int| 0 <= i < lines.len() ==> line_wf(#[trigger] lines[i]),
        lines.len() <= 0xffff_ffff_ffff_ffff,
        forall|i: int| 0 <= i < lines.len() && (#[trigger] lines[i]).player == Piece::Min
            ==> lines[i].length < 5,
    ensures
        spec_sum_lines(lines, Piece::Min) is Fin,
    decreases lines.len(),
{
    if lines.len() > 0 {
        let prefix = lines.drop_last();
        assert(forall|i: int| 0 <= i < prefix.len() ==> prefix[i] == lines[i]);
        lemma_sum_min_fin(prefix);
    }
}

/// A symmetric statement for the other side.
proof fn lemma_sum_max_fin(lines: Seq<Line>)
    requires
        forall|i: int| 0 <= i < lines.len() ==> line_wf(#[trigger] lines[i]),
        lines.len() <= 0xffff_ffff_ffff_ffff,
        forall|i: int| 0 <= i < lines.len() && (#[trigger] lines[i]).player == Piece::Max
            ==> lines[i].length < 5,
    ensures
        spec_sum_lines(lines, Piece::Max) is Fin,
    decreases lines.len(),
{
    if lines.len() > 0 {
        let prefix = lines.drop_last();
        assert(forall|i: int| 0 <= i < prefix.len() ==> prefix[i] == lines[i]);
        lemma_sum_max_fin(prefix);
    }
}

proof fn lemma_sum_min_neginf(lines: Seq<Line>)
    requires
        forall|i: int| 0 <= i < lines.len() ==> line_wf(#[trigger] lines[i]),
        lines.len() <= 0xffff_ffff_ffff_ffff,
        exists|i: int| 0 <= i < lines.len() && (#[trigger] lines[i]).player == Piece::Min
            && lines[i].length >= 5,
    ensures
        spec_sum_lines(lines, Piece::Min) == Score::NegInf,
    decreases lines.len(),
{
    let w = choose|i: int| 0 <= i < lines.len() && (#[trigger] lines[i]).player == Piece::Min
        && lines[i].length >= 5;
    let prefix = lines.drop_last();
    assert(forall|i: int| 0 <= i < prefix.len() ==> prefix[i] == lines[i]);
    let last = lines.last();
    lemma_line_score_range(last.block_pos, last.length as int, last.player);
    if w == lines.len() - 1 {
        lemma_sum_lines_sign(prefix, Piece::Min);
        assert(last.score == Score::NegInf);
    } else {
        lemma_sum_min_neginf(prefix);
    }
}

/// Five in a row wins: when a Max line of length at least five stands in
/// the store, the opponent has none, and captures decide nothing, the
/// full score is the winning infinity. The score tables make any run of
/// five infinite whatever its block bits.
pub proof fn lemma_five_in_row_max(lines: Seq<Line>, b: Seq<Piece>, captures: [usize; 2])
    requires
        forall|i: int| 0 <= i < lines.len() ==> line_wf(#[trigger] lines[i]),
        lines.len() <= 0xffff_ffff_ffff_ffff,
        exists|i: int| 0 <= i < lines.len() && (#[trigger] lines[i]).player == Piece::Max
            && lines[i].length >= 5,
        forall|i: int| 0 <= i < lines.len() && (#[trigger] lines[i]).player == Piece::Min
            ==> lines[i].length < 5,
        captures[0] < 5,
        captures[1] < 5,
    ensures
        spec_full_score(lines, b, captures) == Score::PosInf,
{
    lemma_capture_score_range(captures[0] as int);
    lemma_capture_score_range(captures[1] as int);
    lemma_sum_max_posinf(lines);
    lemma_sum_min_fin(lines);
}

/// Five in a row wins for the minimizing side.
pub proof fn lemma_five_in_row_min(lines: Seq<Line>, b: Seq<Piece>, captures: [usize; 2])
    requires
        forall|i: int| 0 <= i < lines.len() ==> line_wf(#[trigger] lines[i]),
        lines.len() <= 0xffff_ffff_ffff_ffff,
        exists|i: int| 0 <= i < lines.len() && (#[trigger] lines[i]).player == Piece::Min
            && lines[i].length >= 5,
        forall|i: int| 0 <= i < lines.len() && (#[trigger] lines[i]).player == Piece::Max
            ==> lines[i].length < 5,
        captures[0] < 5,
        captures[1] < 5,
    ensures
        spec_full_score(lines, b, captures) == Score::NegInf,
{
    lemma_capture_score_range(captures[0] as int);
    lemma_capture_score_range(captures[1] as int);
    lemma_sum_min_neginf(lines);
    lemma_sum_max_fin(lines);
}

/// The color swap of a piece.
pub open spec fn spec_flip_piece(p: Piece) -> Piece {
    match p {
        Piece::Empty => Piece::Empty,
        Piece::Max => Piece::Min,
        Piece::Min => Piece::Max,
    }
}

/// The board with every stone's color swapped.
pub open spec fn spec_flip_board(b: Seq<Piece>) -> Seq<Piece> {
    Seq::new(b.len(), |i: int| spec_flip_piece(b[i]))
}

/// A line with its owner's color swapped and its score recomputed.
pub open spec fn spec_flip_line(l: Line) -> Line {
    Line {
        player: spec_flip_piece(l.player),
        score: spec_line_score(l.block_pos, l.length as int, spec_flip_piece(l.player)),
        ..l
    }
}

pub open spec fn spec_flip_lines(lines: Seq<Line>) -> Seq<Line> {
    Seq::new(lines.len(), |i: int| spec_flip_line(lines[i]))
}

/// Swapping colors negates a line's table score.
proof fn lemma_line_score_flip(blocks: u8, length: int, player: Piece)
    requires
        player.is_piece_spec(),
    ensures
        spec_line_score(blocks, length, spec_flip_piece(player))
            == spec_line_score(blocks, length, player).spec_neg(),
{
    lemma_line_score_range(blocks, length, player);
}

/// Negation distributes over extended addition whenever the finite sums
/// stay in range.
proof fn lemma_plus_neg(a: Score, b: Score)
    requires
        a.plus_in_range(b),
        a.spec_neg().plus_in_range(b.spec_neg()),
        a.neg_in_range(),
        b.neg_in_range(),
    ensures
        a.spec_neg().spec_plus(b.spec_neg()) == a.spec_plus(b).spec_neg(),
{
}

/// Swapping the colors of every line negates one side's sum into the
/// other side's.
proof fn lemma_sum_flip(lines: Seq<Line>, player: Piece)
    requires
        forall|i: int| 0 <= i < lines.len() ==> line_wf(#[trigger] lines[i]),
        lines.len() <= 0xffff_ffff_ffff_ffff,
        player.is_piece_spec(),
    ensures
        spec_sum_lines(spec_flip_lines(lines), spec_flip_piece(player))
            == spec_sum_lines(lines, player).spec_neg(),
    decreases lines.len(),
{
    let fl = spec_flip_lines(lines);
    if lines.len() == 0 {
        assert(fl.len() == 0);
    } else {
        let prefix = lines.drop_last();
        assert(forall|i: int| 0 <= i < prefix.len() ==> prefix[i] == lines[i]);
        lemma_sum_flip(prefix, player);
        lemma_sum_lines_sign(prefix, player);
        lemma_sum_lines_sign(lines, player);
        assert(fl.drop_last() =~= spec_flip_lines(prefix));
        assert(fl.last() == spec_flip_line(lines.last()));
        let last = lines.last();
        lemma_line_score_range(last.block_pos, last.length as int, last.player);
        lemma_line_score_flip(last.block_pos, last.length as int, last.player);
        assert(prefix.len() * (MAX_TABLE_SCORE as int) + MAX_TABLE_SCORE as int
            <= lines.len() * (MAX_TABLE_SCORE as int)) by (nonlinear_arith)
            requires prefix.len() == lines.len() - 1;
        let term = if last.player == player { last.score } else { Score::Fin(0) };
        let fterm = if fl.last().player == spec_flip_piece(player) { fl.last().score } else { Score::Fin(0) };
        assert(fterm == term.spec_neg());
        lemma_plus_neg(spec_sum_lines(prefix, player), term);
    }
}

/// Swapping stone colors negates the positional sum.
proof fn lemma_solo_flip(b: Seq<Piece>, n: int)
    requires
        0 <= n <= 361,
        b.len() == 361,
    ensures
        spec_solo_sum(spec_flip_board(b), n) == -spec_solo_sum(b, n),
    decreases n,
{
    if n > 0 {
        lemma_solo_flip(b, n - 1);
    }
}

/// Score antisymmetry: swapping the two colors on the board, in the line
/// store and in the capture counters negates the full score. The sums
/// stay exact because a line store backed by a vector holds fewer lines
/// than the bound required here.
#[verifier::rlimit(100)]
#[verifier::spinoff_prover]
pub proof fn lemma_score_antisymmetry(lines: Seq<Line>, b: Seq<Piece>, captures: [usize; 2])
    requires
        forall|i: int| 0 <= i < lines.len() ==> line_wf(#[trigger] lines[i]),
        lines.len() <= 0xffff_ffff_ffff_ffff,
        b.len() == 361,
    ensures
        spec_full_score(spec_flip_lines(lines), spec_flip_board(b), [captures[1], captures[0]])
            == spec_full_score(lines, b, captures).spec_neg(),
{
    let cs0 = spec_capture_score(captures[0] as int);
    let cs1 = spec_capture_score(captures[1] as int);
    lemma_capture_score_range(captures[0] as int);
    lemma_capture_score_range(captures[1] as int);
    let sc = [captures[1], captures[0]];
    assert(sc[0] == captures[1] && sc[1] == captures[0]);
    if cs0 is PosInf || cs1 is PosInf {
        assert(cs1.spec_minus(cs0) == cs0.spec_minus(cs1).spec_neg());
    } else {
        lemma_sum_flip(lines, Piece::Max);
        lemma_sum_flip(lines, Piece::Min);
        lemma_solo_flip(b, 361);
        lemma_sum_lines_sign(lines, Piece::Max);
        lemma_sum_lines_sign(lines, Piece::Min);
        lemma_solo_sum_bound(b, 361);
        lemma_solo_sum_bound(spec_flip_board(b), 361);
        let sm = spec_sum_lines(lines, Piece::Max);
        let sn = spec_sum_lines(lines, Piece::Min);
        let solo = Score::Fin(spec_solo_sum(b, 361) as i128);
        let caps = cs0.spec_minus(cs1);
        lemma_sum_lines_sign(lines, Piece::Max);
        lemma_sum_lines_sign(lines, Piece::Min);
        lemma_plus_neg(sm, sn);
        lemma_plus_neg(sm.spec_plus(sn), solo);
        lemma_plus_neg(sm.spec_plus(sn).spec_plus(solo), caps);
    }
}

/// A resolved line is an element of the store.
pub proof fn lemma_find_elem(lines: Seq<Line>, id: usize)
    ensures
        spec_find(lines, id) matches Some(l)
            ==> exists|j: int| 0 <= j < lines.len() && lines[j] == l,
    decreases lines.len(),
{
    if lines.len() > 0 {
        if lines[0].id != id {
            let rest = lines.subrange(1, lines.len() as int);
            lemma_find_elem(rest, id);
            if spec_find(lines, id) is Some {
                let l = spec_find(lines, id).unwrap();
                let j = choose|j: int| 0 <= j < rest.len() && rest[j] == l;
                assert(lines[j + 1] == l);
            }
        }
    }
}

/// Any line the per-cell index resolves satisfies the line invariant.
pub proof fn lemma_line_at_wf(h: Heuristic, pos: Position, a: int)
    requires
        h.wf(),
        pos.wf(),
        0 <= a < 4,
    ensures
        h.spec_line_at(pos, a) matches Some(l) ==> line_wf(l),
{
    lemma_find_elem(h.lines@, spec_lp(h.line_pos@, pos.index(), a));
}

/// The position `k` steps from `pos` along axis `a` (meaningful when that
/// cell is on the board).
pub open spec fn spec_pos_at(pos: Position, a: int, k: int) -> Position {
    Position { x: seg_x(pos, a, k) as usize, y: seg_y(pos, a, k) as usize }
}

/// The line found at the axis neighbor of `pos` on `side` (0 backward,
/// 1 forward), if the neighbor is on the board.
pub open spec fn spec_nl(h: Heuristic, pos: Position, a: int, side: int) -> Option<Line> {
    let k: int = if side == 0 { -1 } else { 1 };
    if seg_in(pos, a, k) {
        h.spec_line_at(spec_pos_at(pos, a, k), a)
    } else {
        None
    }
}

/// The stone at the axis neighbor when no line covers it there; `Empty`
/// off the board or under a line.
pub open spec fn spec_nbp(h: Heuristic, pos: Position, a: int, side: int) -> Piece {
    let k: int = if side == 0 { -1 } else { 1 };
    if spec_nl(h, pos, a, side) is None && seg_in(pos, a, k) {
        h.board@[seg_index(pos, a, k)]
    } else {
        Piece::Empty
    }
}

/// Playing at `pos` completes a capture through `side` of axis `a`: the
/// neighbor belongs to an opponent line of length exactly two whose far
/// end is already blocked.
pub open spec fn spec_vm_cap(h: Heuristic, pos: Position, player: Piece, a: int, side: int) -> bool {
    let nl = spec_nl(h, pos, a, side);
    nl is Some && nl.unwrap().player.is_opposite_spec(&player)
        && nl.unwrap().length == 2
        && (if side == 0 { nl.unwrap().block_pos & 2 } else { nl.unwrap().block_pos & 1 }) != 0
}

/// The block bits the new stone's own line would carry on axis `a`,
/// accumulated exactly as the evaluator does: a friendly neighbor line
/// contributes its far-side block, a lone friendly stone the block beyond
/// it, and an opponent stone or line blocks the side outright.
pub open spec fn spec_vm_blocks(h: Heuristic, pos: Position, player: Piece, a: int) -> u8 {
    let nl0 = spec_nl(h, pos, a, 0);
    let nl1 = spec_nl(h, pos, a, 1);
    let nbp0 = spec_nbp(h, pos, a, 0);
    let nbp1 = spec_nbp(h, pos, a, 1);
    let b1 = if nl0 is Some && nl0.unwrap().player == player {
        nl0.unwrap().block_pos & 2
    } else if nbp0 == player
        && seg_in(pos, a, -2) && h.board@[seg_index(pos, a, -2)] == player.opposite_spec() {
        2u8
    } else {
        0u8
    };
    let b2 = if nl1 is Some && nl1.unwrap().player == player {
        b1 | (nl1.unwrap().block_pos & 1)
    } else if nbp1 == player
        && seg_in(pos, a, 2) && h.board@[seg_index(pos, a, 2)] == player.opposite_spec() {
        b1 | 1
    } else {
        b1
    };
    let b3 = if nl0 is Some && nl0.unwrap().player != player {
        b2 | 2
    } else if nbp0 == player.opposite_spec() {
        b2 | 2
    } else {
        b2
    };
    if nl1 is Some && nl1.unwrap().player != player {
        b3 | 1
    } else if nbp1 == player.opposite_spec() {
        b3 | 1
    } else {
        b3
    }
}

/// Length of the new stone's own line on axis `a`: itself, plus each
/// friendly neighbor line's length or a lone friendly stone.
pub open spec fn spec_vm_length(h: Heuristic, pos: Position, player: Piece, a: int) -> int {
    1 + (if spec_nl(h, pos, a, 0) is Some && spec_nl(h, pos, a, 0).unwrap().player == player {
        spec_nl(h, pos, a, 0).unwrap().length as int
    } else if spec_nbp(h, pos, a, 0) == player {
        1int
    } else {
        0int
    }) + (if spec_nl(h, pos, a, 1) is Some && spec_nl(h, pos, a, 1).unwrap().player == player {
        spec_nl(h, pos, a, 1).unwrap().length as int
    } else if spec_nbp(h, pos, a, 1) == player {
        1int
    } else {
        0int
    })
}

/// Score change on axis `a` from playing at `pos`: absorbed friendly
/// lines leave the sum, opponent neighbor lines are re-scored with the
/// extra block, and the new line's own score enters.
pub open spec fn spec_vm_delta(h: Heuristic, pos: Position, player: Piece, a: int) -> Score {
    let nl0 = spec_nl(h, pos, a, 0);
    let nl1 = spec_nl(h, pos, a, 1);
    let c1 = if nl0 is Some && nl0.unwrap().player == player {
        Score::Fin(0).spec_minus(nl0.unwrap().score)
    } else {
        Score::Fin(0)
    };
    let c2 = if nl1 is Some && nl1.unwrap().player == player {
        c1.spec_minus(nl1.unwrap().score)
    } else {
        c1
    };
    let c3 = if nl0 is Some && nl0.unwrap().player != player {
        c2.spec_minus(nl0.unwrap().score).spec_plus(
            spec_line_score((nl0.unwrap().block_pos & 2) | 1, nl0.unwrap().length as int, player.opposite_spec()))
    } else {
        c2
    };
    let c4 = if nl1 is Some && nl1.unwrap().player != player {
        c3.spec_minus(nl1.unwrap().score).spec_plus(
            spec_line_score((nl1.unwrap().block_pos & 1) | 2, nl1.unwrap().length as int, player.opposite_spec()))
    } else {
        c3
    };
    c4.spec_plus(spec_line_score(
        spec_vm_blocks(h, pos, player, a),
        spec_vm_length(h, pos, player, a),
        player))
}

/// One axis folded into the running prediction: each side that completes
/// a capture sets its own bit and counts its own pair.
pub open spec fn spec_vm_step(h: Heuristic, pos: Position, player: Piece, a: int, acc: EvaluationScore) -> EvaluationScore {
    let cap0 = spec_vm_cap(h, pos, player, a, 0);
    let cap1 = spec_vm_cap(h, pos, player, a, 1);
    let m1 = if cap0 {
        acc.capture_map | (1u8 << ((2 * a) as u8))
    } else {
        acc.capture_map
    };
    let m2 = if cap1 {
        m1 | (1u8 << ((2 * a + 1) as u8))
    } else {
        m1
    };
    EvaluationScore {
        score: acc.score.spec_plus(spec_vm_delta(h, pos, player, a)),
        capture_map: m2,
        capture_count: (acc.capture_count + (if cap0 { 1int } else { 0int })
            + (if cap1 { 1int } else { 0int })) as usize,
    }
}

/// The prediction after the first `n` axes.
pub open spec fn spec_vm_upto(h: Heuristic, pos: Position, player: Piece, n: int) -> EvaluationScore
    decreases n,
{
    if n <= 0 {
        EvaluationScore { score: h.score.unwrap(), capture_map: 0, capture_count: 0 }
    } else {
        spec_vm_step(h, pos, player, n - 1, spec_vm_upto(h, pos, player, n - 1))
    }
}

/// The full prediction of playing `player` at `pos` without mutating the
/// evaluator.
pub open spec fn spec_virtual_move(h: Heuristic, pos: Position, player: Piece) -> EvaluationScore {
    spec_vm_upto(h, pos, player, 4)
}

impl Heuristic {
    /// Predict the score of `player` playing at the empty cell `pos`
    /// without mutating the evaluator: per axis, replace the absorbed
    /// friendly neighbor lines, re-score blocked opponent lines, add the
    /// new line, and flag completed captures. The prediction tracks the
    /// line deltas only — the new stone's own positional bonus enters
    /// through the generator's tiebreak, and the true post-move score
    /// through the evaluator the search rebuilds — so it serves ordering
    /// and capture detection, not exact evaluation.
    /// Resolve the two axis neighbors of `pos`: their covering lines, and
    /// the lone stones standing where no line covers the cell.
    #[verifier::rlimit(100)]
    #[verifier::spinoff_prover]
    fn vm_neighbors(&self, pos: Position, a: usize) -> (r: (Option<Line>, Option<Line>, Piece, Piece))
        requires
            self.wf(),
            pos.wf(),
            a < 4,
        ensures
            r.0 == spec_nl(*self, pos, a as int, 0),
            r.1 == spec_nl(*self, pos, a as int, 1),
            r.2 == spec_nbp(*self, pos, a as int, 0),
            r.3 == spec_nbp(*self, pos, a as int, 1),
            r.0 matches Some(l) ==> line_wf(l),
            r.1 matches Some(l) ==> line_wf(l),
    {
        let ghost ai = a as int;
        let d0 = axis_delta(a, 0);
        let d1 = axis_delta(a, 1);
        proof {
            lemma_mul_small(-1, axis_dx(ai));
            lemma_mul_small(-1, axis_dy(ai));
            lemma_mul_small(1, axis_dx(ai));
            lemma_mul_small(1, axis_dy(ai));
        }
        let mut nb0 = pos;
        let mut nb1 = pos;
        let valid0 = nb0.relocate(d0.0, d0.1).is_ok();
        let valid1 = nb1.relocate(d1.0, d1.1).is_ok();
        let nl0 = if valid0 { self.get_line(&nb0, a) } else { None };
        let nl1 = if valid1 { self.get_line(&nb1, a) } else { None };
        proof {
            if valid0 {
                assert(nb0 == spec_pos_at(pos, ai, -1));
                lemma_line_at_wf(*self, nb0, ai);
            }
            if valid1 {
                assert(nb1 == spec_pos_at(pos, ai, 1));
                lemma_line_at_wf(*self, nb1, ai);
            }
        }
        let nbp0 = if nl0.is_none() && valid0 { self.board.at(&nb0) } else { Piece::Empty };
        let nbp1 = if nl1.is_none() && valid1 { self.board.at(&nb1) } else { Piece::Empty };
        (nl0, nl1, nbp0, nbp1)
    }

    /// Whether the cell two steps out on `side` holds an opponent stone.
    #[verifier::spinoff_prover]
    fn vm_far_opp(&self, pos: Position, opp: Piece, a: usize, side: usize) -> (r: bool)
        requires
            self.wf(),
            pos.wf(),
            a < 4,
            side < 2,
        ensures
            side == 0 ==> r == (seg_in(pos, a as int, -2)
                && self.board@[seg_index(pos, a as int, -2)] == opp),
            side == 1 ==> r == (seg_in(pos, a as int, 2)
                && self.board@[seg_index(pos, a as int, 2)] == opp),
    {
        let ghost ai = a as int;
        let d = axis_delta(a, side);
        proof {
            lemma_mul_small(-2, axis_dx(ai));
            lemma_mul_small(-2, axis_dy(ai));
            lemma_mul_small(2, axis_dx(ai));
            lemma_mul_small(2, axis_dy(ai));
        }
        let mut far = pos;
        far.relocate_n(d.0, d.1, 2).is_ok() && self.board.at(&far) == opp
    }

    /// Block bits and length of the line the new stone would own on one
    /// axis, from the resolved neighbors.
    #[verifier::rlimit(100)]
    #[verifier::spinoff_prover]
    fn vm_shape(&self, pos: Position, player: Piece, opp: Piece, a: usize,
        nl0: Option<Line>, nl1: Option<Line>, nbp0: Piece, nbp1: Piece,
        far_opp0: bool, far_opp1: bool) -> (r: (u8, usize))
        requires
            player.is_piece_spec(),
            opp == player.opposite_spec(),
            a < 4,
            nl0 == spec_nl(*self, pos, a as int, 0),
            nl1 == spec_nl(*self, pos, a as int, 1),
            nbp0 == spec_nbp(*self, pos, a as int, 0),
            nbp1 == spec_nbp(*self, pos, a as int, 1),
            nl0 matches Some(l) ==> line_wf(l),
            nl1 matches Some(l) ==> line_wf(l),
            far_opp0 == (seg_in(pos, a as int, -2)
                && self.board@[seg_index(pos, a as int, -2)] == opp),
            far_opp1 == (seg_in(pos, a as int, 2)
                && self.board@[seg_index(pos, a as int, 2)] == opp),
        ensures
            r.0 == spec_vm_blocks(*self, pos, player, a as int),
            r.1 == spec_vm_length(*self, pos, player, a as int),
    {
        let f0 = match nl0 {
            Some(l) => l.player == player,
            None => false,
        };
        let f1 = match nl1 {
            Some(l) => l.player == player,
            None => false,
        };
        let o0 = match nl0 {
            Some(l) => l.player != player,
            None => false,
        };
        let o1 = match nl1 {
            Some(l) => l.player != player,
            None => false,
        };
        let b1: u8 = if f0 {
            nl0.unwrap().block_pos & 0x2
        } else if nbp0 == player && far_opp0 {
            2
        } else {
            0
        };
        let b2: u8 = if f1 {
            b1 | (nl1.unwrap().block_pos & 0x1)
        } else if nbp1 == player && far_opp1 {
            b1 | 1
        } else {
            b1
        };
        let b3: u8 = if o0 {
            b2 | 2
        } else if nbp0 == opp {
            b2 | 2
        } else {
            b2
        };
        let blocks: u8 = if o1 {
            b3 | 1
        } else if nbp1 == opp {
            b3 | 1
        } else {
            b3
        };
        let len0: usize = if f0 {
            nl0.unwrap().length
        } else if nbp0 == player {
            1
        } else {
            0
        };
        let len1: usize = if f1 {
            nl1.unwrap().length
        } else if nbp1 == player {
            1
        } else {
            0
        };
        (blocks, 1 + len0 + len1)
    }

    /// Score change of one axis from the resolved neighbors and the new
    /// line's shape.
    #[verifier::rlimit(100)]
    #[verifier::spinoff_prover]
    fn vm_delta(&self, pos: Position, player: Piece, opp: Piece, a: usize,
        nl0: Option<Line>, nl1: Option<Line>, blocks: u8, length: usize) -> (r: Score)
        requires
            player.is_piece_spec(),
            opp == player.opposite_spec(),
            a < 4,
            nl0 == spec_nl(*self, pos, a as int, 0),
            nl1 == spec_nl(*self, pos, a as int, 1),
            nl0 matches Some(l) ==> line_wf(l),
            nl1 matches Some(l) ==> line_wf(l),
            blocks == spec_vm_blocks(*self, pos, player, a as int),
            length == spec_vm_length(*self, pos, player, a as int),
        ensures
            r == spec_vm_delta(*self, pos, player, a as int),
            r.fin_bounded_by(291840),
    {
        proof {
            if nl0 is Some {
                let l = nl0.unwrap();
                lemma_line_score_range(l.block_pos, l.length as int, l.player);
                lemma_line_score_range((l.block_pos & 0x2) | 0x1, l.length as int, opp);
            }
            if nl1 is Some {
                let l = nl1.unwrap();
                lemma_line_score_range(l.block_pos, l.length as int, l.player);
                lemma_line_score_range((l.block_pos & 0x1) | 0x2, l.length as int, opp);
            }
            lemma_line_score_range(blocks, length as int, player);
        }
        let f0 = match nl0 {
            Some(l) => l.player == player,
            None => false,
        };
        let f1 = match nl1 {
            Some(l) => l.player == player,
            None => false,
        };
        let o0 = match nl0 {
            Some(l) => l.player != player,
            None => false,
        };
        let o1 = match nl1 {
            Some(l) => l.player != player,
            None => false,
        };
        let c1 = if f0 {
            Score::Fin(0).minus(nl0.unwrap().score)
        } else {
            Score::Fin(0)
        };
        let c2 = if f1 {
            c1.minus(nl1.unwrap().score)
        } else {
            c1
        };
        let c3 = if o0 {
            let l = nl0.unwrap();
            c2.minus(l.score).plus(Line::calculate((l.block_pos & 0x2) | 0x1, l.length, opp))
        } else {
            c2
        };
        let c4 = if o1 {
            let l = nl1.unwrap();
            c3.minus(l.score).plus(Line::calculate((l.block_pos & 0x1) | 0x2, l.length, opp))
        } else {
            c3
        };
        c4.plus(Line::calculate(blocks, length, player))
    }

    /// One axis of the virtual-move prediction: the score change and the
    /// two capture flags.
    #[verifier::spinoff_prover]
    fn evaluate_virtual_axis(&self, pos: Position, player: Piece, opp: Piece, a: usize) -> (r: (Score, bool, bool))
        requires
            self.wf(),
            pos.wf(),
            player.is_piece_spec(),
            opp == player.opposite_spec(),
            a < 4,
            self.board@[pos.index()] is Empty,
        ensures
            r.0 == spec_vm_delta(*self, pos, player, a as int),
            r.0.fin_bounded_by(291840),
            r.1 == spec_vm_cap(*self, pos, player, a as int, 0),
            r.2 == spec_vm_cap(*self, pos, player, a as int, 1),
    {
        let (nl0, nl1, nbp0, nbp1) = self.vm_neighbors(pos, a);
        let far_opp0 = self.vm_far_opp(pos, opp, a, 0);
        let far_opp1 = self.vm_far_opp(pos, opp, a, 1);
        let cap0 = match nl0 {
            Some(l) => l.player.is_opposite(&player) && l.length == 2 && l.block_pos & 0x2 != 0,
            None => false,
        };
        let cap1 = match nl1 {
            Some(l) => l.player.is_opposite(&player) && l.length == 2 && l.block_pos & 0x1 != 0,
            None => false,
        };
        let (blocks, length) = self.vm_shape(pos, player, opp, a, nl0, nl1, nbp0, nbp1, far_opp0, far_opp1);
        let delta = self.vm_delta(pos, player, opp, a, nl0, nl1, blocks, length);
        (delta, cap0, cap1)
    }

    /// Predict the score of `player` playing at the empty cell `pos`
    /// without mutating the evaluator: per axis, replace the absorbed
    /// friendly neighbor lines, re-score blocked opponent lines, add the
    /// new line, and flag completed captures. The prediction tracks the
    /// line deltas only — the new stone's own positional bonus enters
    /// through the generator's tiebreak, and the true post-move score
    /// through the evaluator the search rebuilds — so it serves ordering
    /// and capture detection, not exact evaluation.
    #[verifier::loop_isolation(false)]
    pub fn evaluate_virtual_move(&self, pos: Position, player: Piece) -> (r: Result<EvaluationScore, &'static str>)
        requires
            self.wf(),
            self.score is Some,
            pos.wf(),
            player.is_piece_spec(),
            self.board@[pos.index()] is Empty,
        ensures
            r matches Ok(e) && e == spec_virtual_move(*self, pos, player)
                && e.score.fin_bounded_by(SCORE_CACHE_BOUND as int + 4 * 291840)
                && e.capture_count <= 8
                && e.capture_count == popcount_u8(e.capture_map, 8),
    {
        let mut score = match self.score {
            Some(s) => s,
            None => Score::Fin(0),
        };
        let mut capture_map: u8 = 0;
        let mut capture_count: usize = 0;

        let opp = player.get_opposite();
        proof {
            assert forall|j: u8| j < 8 implies !bit_u8(capture_map, j) by {
                lemma_zero_bit(j);
            }
            lemma_popcount_zero(8);
        }
        let mut a: usize = 0;
        while a < 4
            invariant
                a <= 4,
                opp == player.opposite_spec(),
                (EvaluationScore { score, capture_map, capture_count })
                    == spec_vm_upto(*self, pos, player, a as int),
                score.fin_bounded_by(SCORE_CACHE_BOUND as int + (a as int) * 291840),
                capture_count <= 2 * a,
                capture_count == popcount_u8(capture_map, 8),
                forall|j: u8| 2 * a <= j < 8 ==> !bit_u8(capture_map, j),
            decreases 4 - a,
        {
            let ghost ai = a as int;
            let (new_calc, cap0, cap1) = self.evaluate_virtual_axis(pos, player, opp, a);
            if cap0 {
                let ghost m0 = capture_map;
                capture_map = capture_map | (1u8 << ((2 * a) as u8));
                capture_count = capture_count + 1;
                proof {
                    lemma_popcount_or_bit(m0, (2 * a) as u8, 8);
                    assert forall|j: u8| 2 * a + 1 <= j < 8 implies !bit_u8(capture_map, j) by {
                        lemma_or_bit(m0, (2 * a) as u8, j);
                    }
                }
            }
            if cap1 {
                let ghost m1 = capture_map;
                capture_map = capture_map | (1u8 << ((2 * a + 1) as u8));
                capture_count = capture_count + 1;
                proof {
                    lemma_popcount_or_bit(m1, (2 * a + 1) as u8, 8);
                    assert forall|j: u8| 2 * a + 2 <= j < 8 implies !bit_u8(capture_map, j) by {
                        lemma_or_bit(m1, (2 * a + 1) as u8, j);
                    }
                }
            }
            proof {
                assert forall|j: u8| 2 * (a + 1) <= j < 8 implies !bit_u8(capture_map, j) by {
                }
            }
            score = score.plus(new_calc);
            proof {
                assert(EvaluationScore { score, capture_map, capture_count }
                    == spec_vm_step(*self, pos, player, ai, spec_vm_upto(*self, pos, player, ai)));
            }
            a = a + 1;
        }

        Ok(EvaluationScore { score, capture_map, capture_count })
    }
}

/// The cell has at least one of its eight neighbors occupied.
pub open spec fn spec_has_neighbor(b: Seq<Piece>, p: Position) -> bool {
    exists|dx: int, dy: int|
        -1 <= dx <= 1 && -1 <= dy <= 1 && !(dx == 0 && dy == 0)
            && #[trigger] spec_in_bounds(p.x + dx, p.y + dy)
            && b[(p.y + dy) * 19 + (p.x + dx)].is_piece_spec()
}

/// A candidate move: an empty cell next to at least one stone.
pub open spec fn spec_candidate(b: Seq<Piece>, p: Position) -> bool {
    p.wf() && b[p.index()] is Empty && spec_has_neighbor(b, p)
}

/// A candidate's evaluation with the positional tiebreak folded in:
/// a quarter of the cell's positional bonus, signed by the mover.
pub open spec fn spec_adjusted_eval(h: Heuristic, p: Position, player: Piece) -> EvaluationScore {
    let e = spec_virtual_move(h, p, player);
    let bonus = Score::Fin((spec_position_score(p) / 4) as i128);
    EvaluationScore {
        score: if player == Piece::Max {
            e.score.spec_plus(bonus)
        } else {
            e.score.spec_minus(bonus)
        },
        capture_map: e.capture_map,
        capture_count: e.capture_count,
    }
}

/// Move ordering: captures first, then better score for the mover, then
/// the row-major cell order as the deterministic tiebreak.
pub open spec fn spec_move_le(player: Piece, m1: (Position, EvaluationScore), m2: (Position, EvaluationScore)) -> bool {
    if m1.1.capture_count != m2.1.capture_count {
        m1.1.capture_count > m2.1.capture_count
    } else if m1.1.score != m2.1.score {
        if player == Piece::Max {
            m2.1.score.spec_lt(m1.1.score)
        } else {
            m1.1.score.spec_lt(m2.1.score)
        }
    } else {
        m1.0.index() <= m2.0.index()
    }
}

/// The move order relates every pair, one way or the other.
pub proof fn lemma_move_le_total(player: Piece, m1: (Position, EvaluationScore), m2: (Position, EvaluationScore))
    ensures
        spec_move_le(player, m1, m2) || spec_move_le(player, m2, m1),
{
}

/// The move order is transitive.
pub proof fn lemma_move_le_trans(player: Piece, m1: (Position, EvaluationScore), m2: (Position, EvaluationScore), m3: (Position, EvaluationScore))
    requires
        spec_move_le(player, m1, m2),
        spec_move_le(player, m2, m3),
    ensures
        spec_move_le(player, m1, m3),
{
}

fn contains_pos(v: &Vec<(Position, EvaluationScore)>, p: &Position) -> (r: bool)
    ensures
        r == exists|i: int| 0 <= i < v@.len() && (#[trigger] v@[i]).0 == *p,
{
    let mut i: usize = 0;
    while i < v.len()
        invariant
            i <= v@.len(),
            forall|j: int| 0 <= j < i ==> (#[trigger] v@[j]).0 != *p,
        decreases v@.len() - i,
    {
        if v[i].0.x == p.x && v[i].0.y == p.y {
            return true;
        }
        i = i + 1;
    }
    false
}

/// The exec form of the move order.
fn move_le(player: Piece, m1: &(Position, EvaluationScore), m2: &(Position, EvaluationScore)) -> (r: bool)
    requires
        m1.0.wf(),
        m2.0.wf(),
    ensures
        r == spec_move_le(player, *m1, *m2),
{
    if m1.1.capture_count != m2.1.capture_count {
        m1.1.capture_count > m2.1.capture_count
    } else if m2.1.score.lt(&m1.1.score) {
        if player.is_max() {
            true
        } else {
            false
        }
    } else if m1.1.score.lt(&m2.1.score) {
        if player.is_max() {
            false
        } else {
            true
        }
    } else {
        proof {
            assert(m1.1.score == m2.1.score);
        }
        m1.0.to_u64() <= m2.0.to_u64()
    }
}

impl Heuristic {
    /// Order candidates: capture count descending, then score descending
    /// for Max or ascending for Min, then cell order. The explicit
    /// tiebreak keeps searches reproducible.
    fn sort_moves(arr: Vec<(Position, EvaluationScore)>, player: Piece) -> (r: Vec<(Position, EvaluationScore)>)
        requires
            forall|i: int| 0 <= i < arr@.len() ==> (#[trigger] arr@[i]).0.wf(),
        ensures
            r@.len() == arr@.len(),
            forall|i: int, j: int| 0 <= i < j < r@.len() ==> spec_move_le(player, r@[i], r@[j]),
            forall|i: int| 0 <= i < r@.len()
                ==> exists|m: int| 0 <= m < arr@.len() && #[trigger] r@[i] == arr@[m],
            forall|m: int| 0 <= m < arr@.len() ==> r@.contains(#[trigger] arr@[m]),
            (forall|i: int, j: int| 0 <= i < j < arr@.len() ==> arr@[i].0 != arr@[j].0)
                ==> (forall|i: int, j: int| 0 <= i < j < r@.len() ==> r@[i].0 != r@[j].0),
    {
        let ghost nodup_in = forall|i: int, j: int| 0 <= i < j < arr@.len() ==> arr@[i].0 != arr@[j].0;
        let mut out: Vec<(Position, EvaluationScore)> = Vec::new();
        let mut i: usize = 0;
        while i < arr.len()
            invariant
                i <= arr@.len(),
                out@.len() == i,
                forall|p: int| 0 <= p < arr@.len() ==> (#[trigger] arr@[p]).0.wf(),
                forall|p: int, q: int| 0 <= p < q < out@.len() ==> spec_move_le(player, out@[p], out@[q]),
                forall|p: int| 0 <= p < out@.len()
                    ==> exists|m: int| 0 <= m < i && #[trigger] out@[p] == arr@[m],
                forall|m: int| 0 <= m < i ==> out@.contains(#[trigger] arr@[m]),
                nodup_in == (forall|p: int, q: int| 0 <= p < q < arr@.len() ==> arr@[p].0 != arr@[q].0),
                nodup_in ==> (forall|p: int, q: int| 0 <= p < q < out@.len() ==> out@[p].0 != out@[q].0),
            decreases arr@.len() - i,
        {
            let x = arr[i];
            let mut k: usize = 0;
            while k < out.len() && move_le(player, &out[k], &x)
                invariant
                    k <= out@.len(),
                    forall|p: int| 0 <= p < out@.len() ==> (#[trigger] out@[p]).0.wf(),
                    x.0.wf(),
                    forall|p: int| 0 <= p < k ==> spec_move_le(player, #[trigger] out@[p], x),
                decreases out@.len() - k,
            {
                k = k + 1;
            }
            let ghost prev = out@;
            out.insert(k, x);
            proof {
                prev.insert_ensures(k as int, x);
                assert(out@ == prev.insert(k as int, x));
                if k < prev.len() {
                    lemma_move_le_total(player, prev[k as int], x);
                }
                assert forall|p: int, q: int| 0 <= p < q < out@.len()
                    implies spec_move_le(player, out@[p], out@[q]) by {
                    if q < k {
                    } else if p < k && q == k {
                    } else if p < k && q > k {
                        assert(out@[q] == prev[q - 1]);
                    } else if p == k {
                        assert(out@[q] == prev[q - 1]);
                        assert(spec_move_le(player, x, prev[k as int]));
                        if q - 1 > k {
                            lemma_move_le_trans(player, x, prev[k as int], prev[q - 1]);
                        }
                    } else {
                        assert(out@[p] == prev[p - 1] && out@[q] == prev[q - 1]);
                    }
                }
                assert forall|p: int| 0 <= p < out@.len()
                    implies exists|m: int| 0 <= m < i + 1 && #[trigger] out@[p] == arr@[m] by {
                    if p < k {
                        assert(out@[p] == prev[p]);
                        let m = choose|m: int| 0 <= m < i && prev[p as int] == arr@[m];
                        assert(out@[p] == arr@[m]);
                    } else if p == k {
                        assert(out@[p] == arr@[i as int]);
                    } else {
                        assert(out@[p] == prev[p - 1]);
                        let m = choose|m: int| 0 <= m < i && prev[p - 1] == arr@[m];
                        assert(out@[p] == arr@[m]);
                    }
                }
                assert forall|m: int| 0 <= m < i + 1 implies out@.contains(#[trigger] arr@[m]) by {
                    if m < i {
                        let p = choose|p: int| 0 <= p < prev.len() && prev[p] == arr@[m];
                        if p < k {
                            assert(out@[p] == arr@[m]);
                        } else {
                            assert(out@[p + 1] == arr@[m]);
                        }
                    } else {
                        assert(out@[k as int] == arr@[m]);
                    }
                }
                if nodup_in {
                    assert forall|p: int, q: int| 0 <= p < q < out@.len()
                        implies out@[p].0 != out@[q].0 by {
                        let pv = if p < k { prev[p] } else if p == k { x } else { prev[p - 1] };
                        let qv = if q < k { prev[q] } else if q == k { x } else { prev[q - 1] };
                        assert(out@[p] == pv && out@[q] == qv);
                        if p == k || q == k {
                            let other = if p == k { qv } else { pv };
                            let m = choose|m: int| 0 <= m < i && other == arr@[m];
                            assert(arr@[m].0 != arr@[i as int].0);
                        }
                    }
                }
            }
            i = i + 1;
        }
        proof {
            assert forall|p: int| 0 <= p < out@.len()
                implies exists|m: int| 0 <= m < arr@.len() && #[trigger] out@[p] == arr@[m] by {
                let m = choose|m: int| 0 <= m < i && #[trigger] out@[p] == arr@[m];
                assert(0 <= m < arr@.len() && out@[p] == arr@[m]);
            }
        }
        out
    }
}

impl Heuristic {
    /// Whether any of the eight neighbors of `pos` holds a stone.
    #[verifier::loop_isolation(false)]
    #[verifier::rlimit(60)]
    #[verifier::spinoff_prover]
    fn has_neighbor(&self, pos: Position) -> (r: bool)
        requires
            self.wf(),
            pos.wf(),
        ensures
            r == spec_has_neighbor(self.board@, pos),
    {
        let mut yo: usize = 0;
        while yo < 3
            invariant
                yo <= 3,
                forall|dx: int, dy: int|
                    -1 <= dx <= 1 && -1 <= dy < yo - 1 && !(dx == 0 && dy == 0)
                        && #[trigger] spec_in_bounds(pos.x + dx, pos.y + dy)
                        ==> !self.board@[(pos.y + dy) * 19 + (pos.x + dx)].is_piece_spec(),
            decreases 3 - yo,
        {
            let mut xo: usize = 0;
            while xo < 3
                invariant
                    xo <= 3,
                    yo < 3,
                    forall|dx: int, dy: int|
                        -1 <= dx <= 1 && -1 <= dy < yo - 1 && !(dx == 0 && dy == 0)
                            && #[trigger] spec_in_bounds(pos.x + dx, pos.y + dy)
                            ==> !self.board@[(pos.y + dy) * 19 + (pos.x + dx)].is_piece_spec(),
                    forall|dx: int|
                        -1 <= dx < xo - 1 && !(dx == 0 && yo == 1)
                            && #[trigger] spec_in_bounds(pos.x + dx, pos.y + (yo - 1))
                            ==> !self.board@[(pos.y + (yo - 1)) * 19 + (pos.x + dx)].is_piece_spec(),
                decreases 3 - xo,
            {
                let dy: i32 = yo as i32 - 1;
                let dx: i32 = xo as i32 - 1;
                if !(dx == 0 && dy == 0) {
                    let mut check = pos;
                    if check.relocate(dx, dy).is_ok() {
                        if self.board.at(&check).is_piece() {
                            proof {
                                assert(spec_in_bounds(pos.x + dx, pos.y + dy));
                                assert(self.board@[(pos.y + dy) * 19 + (pos.x + dx)].is_piece_spec());
                            }
                            return true;
                        }
                    }
                }
                xo = xo + 1;
            }
            yo = yo + 1;
        }
        false
    }

    /// Every empty cell adjacent to a stone, with its predicted
    /// evaluation, in row-major cell order.
    #[verifier::loop_isolation(false)]
    #[verifier::rlimit(60)]
    #[verifier::spinoff_prover]
    fn gather_moves(&self, player: Piece) -> (r: Vec<(Position, EvaluationScore)>)
        requires
            self.wf(),
            self.score is Some,
            player.is_piece_spec(),
        ensures
            forall|i: int| 0 <= i < r@.len() ==> spec_candidate(self.board@, (#[trigger] r@[i]).0)
                && r@[i].1 == spec_adjusted_eval(*self, r@[i].0, player),
            forall|p: Position| spec_candidate(self.board@, p)
                ==> exists|i: int| 0 <= i < r@.len() && (#[trigger] r@[i]).0 == p,
            forall|i: int, j: int| 0 <= i < j < r@.len() ==> r@[i].0 != r@[j].0,
    {
        let mut moves: Vec<(Position, EvaluationScore)> = Vec::new();
        let mut c: usize = 0;
        while c < 361
            invariant
                c <= 361,
                forall|i: int| 0 <= i < moves@.len() ==> spec_candidate(self.board@, (#[trigger] moves@[i]).0)
                    && moves@[i].1 == spec_adjusted_eval(*self, moves@[i].0, player),
                forall|i: int, j: int| 0 <= i < j < moves@.len()
                    ==> (#[trigger] moves@[i]).0.index() < (#[trigger] moves@[j]).0.index(),
                forall|i: int| 0 <= i < moves@.len() ==> (#[trigger] moves@[i]).0.index() < c,
                forall|p: Position| spec_candidate(self.board@, p) && p.index() < c
                    ==> exists|i: int| 0 <= i < moves@.len() && (#[trigger] moves@[i]).0 == p,
            decreases 361 - c,
        {
            let pos = Position::from_u64(c);
            let ghost prev = moves@;
            if self.board.at(&pos).is_empty() && self.has_neighbor(pos) {
                let eval = match self.evaluate_virtual_move(pos, player) {
                    Ok(e) => e,
                    Err(_) => EvaluationScore { score: Score::Fin(0), capture_map: 0, capture_count: 0 },
                };
                let pos_score = Self::get_position_score(pos) / 4;
                let adjusted = EvaluationScore {
                    score: if player.is_max() {
                        eval.score.plus(Score::Fin(pos_score))
                    } else {
                        eval.score.minus(Score::Fin(pos_score))
                    },
                    capture_map: eval.capture_map,
                    capture_count: eval.capture_count,
                };
                moves.push((pos, adjusted));
                proof {
                    assert(adjusted == spec_adjusted_eval(*self, pos, player));
                }
            }
            proof {
                assert forall|p: Position| spec_candidate(self.board@, p) && p.index() < c + 1
                    implies exists|i: int| 0 <= i < moves@.len() && (#[trigger] moves@[i]).0 == p by {
                    if p.index() < c {
                        let i = choose|i: int| 0 <= i < prev.len() && (#[trigger] prev[i]).0 == p;
                        assert(moves@[i].0 == p);
                    } else {
                        assert(p == pos);
                        assert(moves@[moves@.len() - 1].0 == p);
                    }
                }
            }
            c = c + 1;
        }
        moves
    }

    /// Every empty cell adjacent to a stone, with its predicted
    /// evaluation, ordered for the search. The list holds each candidate
    /// once, every candidate, and nothing else.
    pub fn get_moves(&self, player: Piece) -> (r: Vec<(Position, EvaluationScore)>)
        requires
            self.wf(),
            self.score is Some,
            player.is_piece_spec(),
        ensures
            forall|i: int| 0 <= i < r@.len() ==> spec_candidate(self.board@, (#[trigger] r@[i]).0)
                && r@[i].1 == spec_adjusted_eval(*self, r@[i].0, player),
            forall|p: Position| spec_candidate(self.board@, p)
                ==> exists|i: int| 0 <= i < r@.len() && (#[trigger] r@[i]).0 == p,
            forall|i: int, j: int| 0 <= i < j < r@.len() ==> r@[i].0 != r@[j].0,
            forall|i: int, j: int| 0 <= i < j < r@.len() ==> spec_move_le(player, r@[i], r@[j]),
    {
        let arr = self.gather_moves(player);
        let sorted = Self::sort_moves(arr, player);
        proof {
            assert forall|p: Position| #[trigger] spec_candidate(self.board@, p)
                implies exists|i: int| 0 <= i < sorted@.len() && sorted@[i].0 == p by {
                let m = choose|m: int| 0 <= m < arr@.len() && (#[trigger] arr@[m]).0 == p;
                assert(sorted@.contains(arr@[m]));
                let i = choose|i: int| 0 <= i < sorted@.len() && sorted@[i] == arr@[m];
                assert(sorted@[i].0 == p);
            }
            assert forall|i: int| 0 <= i < sorted@.len()
                implies spec_candidate(self.board@, (#[trigger] sorted@[i]).0)
                    && sorted@[i].1 == spec_adjusted_eval(*self, sorted@[i].0, player) by {
                let m = choose|m: int| 0 <= m < arr@.len() && #[trigger] sorted@[i] == arr@[m];
                assert(spec_candidate(self.board@, arr@[m].0));
            }
        }
        sorted
    }
}

/// The empty cell `p` has an occupied neighbor whose row-major index is
/// below `n`.
pub open spec fn spec_discovered(b: Seq<Piece>, p: Position, n: int) -> bool {
    p.wf() && b[p.index()] is Empty && exists|dx: int, dy: int|
        -1 <= dx <= 1 && -1 <= dy <= 1 && !(dx == 0 && dy == 0)
            && #[trigger] spec_in_bounds(p.x + dx, p.y + dy)
            && b[(p.y + dy) * 19 + (p.x + dx)].is_piece_spec()
            && (p.y + dy) * 19 + (p.x + dx) < n
}

/// `p` is one of the three cells in the row `dy` below `anchor`'s row
/// within one column of it, and not `anchor` itself.
pub open spec fn neighbor_of(p: Position, anchor: Position, dy: int) -> bool {
    &&& -1 <= dy <= 1
    &&& p.y == anchor.y + dy
    &&& -1 <= p.x - anchor.x <= 1
    &&& !(p.x == anchor.x && dy == 0)
}

/// Each cell of a run is a stone of the runner's color.
pub proof fn lemma_run_cell_at(b: Seq<Piece>, x: int, y: int, dx: int, dy: int, player: Piece, k: int)
    requires
        -1 <= dx <= 1,
        -1 <= dy <= 1,
        1 <= k <= run_len(b, x, y, dx, dy, player),
    ensures
        spec_in_bounds(x + k * dx, y + k * dy),
        b[(y + k * dy) * 19 + (x + k * dx)] == player,
    decreases k,
{
    lemma_mul_small(k, dx);
    lemma_mul_small(k, dy);
    lemma_mul_small(k - 1, dx);
    lemma_mul_small(k - 1, dy);
    if k > 1 {
        lemma_run_cell_at(b, x + dx, y + dy, dx, dy, player, k - 1);
    }
}


/// The cell one past a run is a wall or not the runner's color: runs are
/// maximal.
pub proof fn lemma_run_stop(b: Seq<Piece>, x: int, y: int, dx: int, dy: int, player: Piece)
    requires
        -1 <= dx <= 1,
        -1 <= dy <= 1,
        !(dx == 0 && dy == 0),
    ensures
        !(spec_in_bounds(x + (run_len(b, x, y, dx, dy, player) + 1) * dx,
                y + (run_len(b, x, y, dx, dy, player) + 1) * dy)
            && b[(y + (run_len(b, x, y, dx, dy, player) + 1) * dy) * 19
                + (x + (run_len(b, x, y, dx, dy, player) + 1) * dx)] == player),
    decreases run_measure(x, y, dx, dy),
{
    let n = run_len(b, x, y, dx, dy, player) as int;
    lemma_mul_small(1, dx);
    lemma_mul_small(1, dy);
    lemma_mul_small(n, dx);
    lemma_mul_small(n, dy);
    lemma_mul_small(n + 1, dx);
    lemma_mul_small(n + 1, dy);
    if n > 0 {
        lemma_run_stop(b, x + dx, y + dy, dx, dy, player);
    }
}

/// The record is exactly the maximal run it claims: its cells hold its
/// owner, the run stops at both ends, the end coordinate and the block
/// bits reflect the two stoppers, and the cached score is the table
/// score (through `line_wf`).
pub open spec fn spec_line_exact(b: Seq<Piece>, l: Line) -> bool {
    let a = l.direction as int;
    let n = l.length as int;
    &&& spec_line_on_board(b, l)
    &&& l.end.x == seg_x(l.start, a, n - 1)
    &&& l.end.y == seg_y(l.start, a, n - 1)
    &&& !(seg_in(l.start, a, -1) && b[seg_index(l.start, a, -1)] == l.player)
    &&& !(seg_in(l.start, a, n) && b[seg_index(l.start, a, n)] == l.player)
    &&& l.block_pos == (if !(seg_in(l.start, a, -1) && b[seg_index(l.start, a, -1)] is Empty) {
        2int
    } else {
        0int
    }) + (if !(seg_in(l.start, a, n) && b[seg_index(l.start, a, n)] is Empty) {
        1int
    } else {
        0int
    })
}

/// Every line of the store is exact for the board.
pub open spec fn spec_lines_exact(b: Seq<Piece>, lines: Seq<Line>) -> bool {
    forall|i: int| 0 <= i < lines.len() ==> spec_line_exact(b, #[trigger] lines[i])
}

/// Resolution is unchanged by pushing a line with a fresh id, and the
/// fresh id resolves to the pushed line.
pub proof fn lemma_find_push(lines: Seq<Line>, l: Line, id: usize)
    ensures
        id != l.id ==> spec_find(lines.push(l), id) == spec_find(lines, id),
        (forall|i: int| 0 <= i < lines.len() ==> (#[trigger] lines[i]).id != l.id)
            ==> spec_find(lines.push(l), l.id) == Some(l),
    decreases lines.len(),
{
    let p = lines.push(l);
    if lines.len() == 0 {
        assert(p[0] == l);
        assert(p.subrange(1, p.len() as int) =~= Seq::<Line>::empty());
        if id != l.id {
            assert(spec_find(p, id) == spec_find(p.subrange(1, p.len() as int), id));
            assert(spec_find(p.subrange(1, p.len() as int), id) == None::<Line>);
        }
    } else {
        assert(p[0] == lines[0]);
        let rest = lines.subrange(1, lines.len() as int);
        lemma_find_push(rest, l, id);
        assert(p.subrange(1, p.len() as int) =~= rest.push(l));
        if forall|i: int| 0 <= i < lines.len() ==> (#[trigger] lines[i]).id != l.id {
            assert(forall|i: int| 0 <= i < rest.len() ==> #[trigger] rest[i] == lines[i + 1]);
            assert(forall|i: int| 0 <= i < rest.len() ==> (#[trigger] rest[i]).id != l.id);
            lemma_find_push(rest, l, l.id);
            assert(lines[0].id != l.id);
            assert(spec_find(p, l.id) == spec_find(rest.push(l), l.id));
        }
        if id != l.id {
            if lines[0].id == id {
                assert(spec_find(p, id) == Some(lines[0]));
                assert(spec_find(lines, id) == Some(lines[0]));
            } else {
                assert(spec_find(p, id) == spec_find(rest.push(l), id));
                assert(spec_find(lines, id) == spec_find(rest, id));
            }
        }
    }
}

/// Cell `k` of the line is on the board and holds the line's owner.
pub open spec fn spec_line_cell_ok(b: Seq<Piece>, l: Line, k: int) -> bool {
    seg_in(l.start, l.direction as int, k)
        && b[seg_index(l.start, l.direction as int, k)] == l.player
}

/// The line record lies on the board: every covered cell is on the board
/// and holds the line's owner, and the run has at least two stones.
pub open spec fn spec_line_on_board(b: Seq<Piece>, l: Line) -> bool {
    &&& l.length >= 2
    &&& (l.direction as int) < 4
    &&& l.start.wf()
    &&& forall|k: int| 0 <= k < l.length ==> #[trigger] spec_line_cell_ok(b, l, k)
}

/// The line covers cell `c` along axis `a`.
pub open spec fn spec_covers(l: Line, a: int, c: int) -> bool {
    l.direction == a && exists|k: int| 0 <= k < l.length && c == #[trigger] seg_index(l.start, a, k)
}

/// The id stored for a cell and axis.
pub open spec fn spec_slot(h: Heuristic, c: int, a: int) -> usize {
    spec_lp(h.line_pos@, c, a)
}

/// Every per-cell index entry that resolves at all resolves to a line
/// that lies on the board and covers that cell in that axis.
pub open spec fn spec_index_sound(h: Heuristic) -> bool {
    forall|c: int, a: int| 0 <= c < 361 && 0 <= a < 4
        && #[trigger] spec_find(h.lines@, spec_slot(h, c, a)) is Some
        ==> spec_covers(spec_find(h.lines@, spec_slot(h, c, a)).unwrap(), a, c)
            && spec_line_on_board(h.board@, spec_find(h.lines@, spec_slot(h, c, a)).unwrap())
}

/// No stored id exceeds the allocator; fresh ids never collide with a
/// stored one.
pub open spec fn spec_slots_bounded(h: Heuristic) -> bool {
    forall|c: int, a: int| 0 <= c < 361 && 0 <= a < 4
        ==> #[trigger] spec_slot(h, c, a) <= h.lines_idx
}

/// The cell at `c` has a same-color neighbor along axis `a`.
pub open spec fn spec_axis_neighbor(b: Seq<Piece>, c: int, a: int) -> bool {
    let p = spec_pos_of(c);
    ||| (seg_in(p, a, 1) && b[seg_index(p, a, 1)] == b[c])
    ||| (seg_in(p, a, -1) && b[seg_index(p, a, -1)] == b[c])
}

/// Line coverage: every stone resolves to a line in each axis where it
/// has a same-color neighbor.
pub open spec fn spec_coverage(h: Heuristic) -> bool {
    forall|c: int, a: int| 0 <= c < 361 && 0 <= a < 4
        && h.board@[c].is_piece_spec() && #[trigger] spec_axis_neighbor(h.board@, c, a)
        ==> #[trigger] spec_find(h.lines@, spec_slot(h, c, a)) is Some
}



/// A board of empty cells contributes no positional score.
pub proof fn lemma_solo_empty(b: Seq<Piece>, n: int)
    requires
        forall|i: int| 0 <= i < 361 ==> b[i] is Empty,
        0 <= n <= 361,
    ensures
        spec_solo_sum(b, n) == 0,
    decreases n,
{
    if n > 0 {
        lemma_solo_empty(b, n - 1);
    }
}

/// With no undecided captures and an empty line store, the full score is
/// the finite capture difference.
pub proof fn lemma_full_score_no_lines(lines: Seq<Line>, b: Seq<Piece>, captures: [usize; 2])
    requires
        lines.len() == 0,
        forall|i: int| 0 <= i < 361 ==> b[i] is Empty,
        captures[0] < 5,
        captures[1] < 5,
    ensures
        spec_full_score(lines, b, captures) is Fin,
{
    lemma_capture_score_range(captures[0] as int);
    lemma_capture_score_range(captures[1] as int);
    lemma_solo_empty(b, 361);
}

/// An exact line cannot lie on a board of empty cells: every well-formed
/// store satisfying the exactness invariant is empty there.
pub proof fn lemma_no_lines_on_empty_board(b: Seq<Piece>, lines: Seq<Line>, lines_idx: int)
    requires
        spec_lines_exact(b, lines),
        wf_lines(lines, lines_idx),
        forall|i: int| 0 <= i < 361 ==> b[i] is Empty,
    ensures
        lines.len() == 0,
{
    if lines.len() > 0 {
        let l = lines[0];
        assert(spec_line_exact(b, l));
        assert(line_wf(l));
        assert(spec_line_cell_ok(b, l, 0));
        let a = l.direction as int;
        lemma_mul_small(0, axis_dx(a));
        lemma_mul_small(0, axis_dy(a));
        assert(seg_in(l.start, a, 0));
        assert(0 <= seg_index(l.start, a, 0) < 361);
        assert(b[seg_index(l.start, a, 0)] == l.player);
        assert(l.player.is_piece_spec());
    }
}

/// The index properties depend only on the store, the per-cell index, the
/// allocator and the board; two evaluators equal there share them.
pub proof fn lemma_index_props_congruence(h0: Heuristic, h1: Heuristic)
    requires
        h1.lines@ == h0.lines@,
        h1.line_pos@ == h0.line_pos@,
        h1.lines_idx == h0.lines_idx,
        h1.board@ == h0.board@,
    ensures
        spec_index_sound(h0) ==> spec_index_sound(h1),
        spec_slots_bounded(h0) ==> spec_slots_bounded(h1),
{
    assert forall|c: int, a: int| 0 <= c < 361 && 0 <= a < 4
        implies #[trigger] spec_slot(h1, c, a) == spec_slot(h0, c, a) by {
        assert(spec_lp(h1.line_pos@, c, a) == spec_lp(h0.line_pos@, c, a));
    }
    if spec_index_sound(h0) {
        assert forall|c: int, a: int| 0 <= c < 361 && 0 <= a < 4
            && #[trigger] spec_find(h1.lines@, spec_slot(h1, c, a)) is Some
            implies spec_covers(spec_find(h1.lines@, spec_slot(h1, c, a)).unwrap(), a, c)
                && spec_line_on_board(h1.board@, spec_find(h1.lines@, spec_slot(h1, c, a)).unwrap()) by {
            assert(spec_find(h0.lines@, spec_slot(h0, c, a)) is Some);
        }
    }
}

/// The other face of coverage: a stone with no same-color neighbor along
/// an axis resolves to nothing there, whatever its entry holds.
pub proof fn lemma_isolated_cell_unresolved(h: Heuristic, c: int, a: int)
    requires
        spec_index_sound(h),
        h.board@.len() == 361,
        0 <= c < 361,
        0 <= a < 4,
        h.board@[c].is_piece_spec(),
        !spec_axis_neighbor(h.board@, c, a),
    ensures
        spec_find(h.lines@, spec_slot(h, c, a)) is None,
{
    if spec_find(h.lines@, spec_slot(h, c, a)) is Some {
        let l = spec_find(h.lines@, spec_slot(h, c, a)).unwrap();
        let ad = l.direction as int;
        assert(spec_covers(l, a, c) && spec_line_on_board(h.board@, l));
        assert(ad == a);
        let k = choose|k: int| 0 <= k < l.length && c == #[trigger] seg_index(l.start, a, k);
        lemma_mul_small(k, axis_dx(a));
        lemma_mul_small(k, axis_dy(a));
        lemma_mul_small(k + 1, axis_dx(a));
        lemma_mul_small(k + 1, axis_dy(a));
        lemma_mul_small(k - 1, axis_dx(a));
        lemma_mul_small(k - 1, axis_dy(a));
        assert(spec_line_cell_ok(h.board@, l, k));
        assert(h.board@[c] == l.player);
        let p = spec_pos_of(c);
        assert(p.x == seg_x(l.start, a, k) && p.y == seg_y(l.start, a, k));
        if k + 1 < l.length {
            assert(spec_line_cell_ok(h.board@, l, k + 1));
            assert(seg_in(l.start, ad, k + 1)
                && h.board@[seg_index(l.start, ad, k + 1)] == l.player);
            lemma_mul_small(1, axis_dx(a));
            lemma_mul_small(1, axis_dy(a));
            assert(seg_x(p, a, 1) == seg_x(l.start, a, k + 1));
            assert(seg_y(p, a, 1) == seg_y(l.start, a, k + 1));
            assert(spec_axis_neighbor(h.board@, c, a));
        } else {
            assert(k - 1 >= 0);
            assert(spec_line_cell_ok(h.board@, l, k - 1));
            assert(seg_in(l.start, ad, k - 1)
                && h.board@[seg_index(l.start, ad, k - 1)] == l.player);
            lemma_mul_small(-1, axis_dx(a));
            lemma_mul_small(-1, axis_dy(a));
            assert(seg_x(p, a, -1) == seg_x(l.start, a, k - 1));
            assert(seg_y(p, a, -1) == seg_y(l.start, a, k - 1));
            assert(spec_axis_neighbor(h.board@, c, a));
        }
    }
}

/// One position evaluation keeps the per-cell index sound, keeps every
/// resolving entry resolving, and makes the evaluated cell resolve
/// whenever it has a same-color neighbor along the axis.
#[verifier::rlimit(100)]
#[verifier::spinoff_prover]
proof fn lemma_eval_keeps_index(h0: Heuristic, h1: Heuristic, pos: Position, a: int, r: (Position, Position, Option<Vec<usize>>))
    requires
        h0.wf(),
        pos.wf(),
        0 <= a < 4,
        h0.board@[pos.index()].is_piece_spec(),
        spec_eval_post(h0, h1, pos, a, r),
        spec_index_sound(h0),
        spec_slots_bounded(h0),
    ensures
        spec_index_sound(h1),
        spec_slots_bounded(h1),
        forall|c: int, a2: int| 0 <= c < 361 && 0 <= a2 < 4
            && #[trigger] spec_find(h0.lines@, spec_slot(h0, c, a2)) is Some
            ==> spec_find(h1.lines@, spec_slot(h1, c, a2)) is Some,
        spec_axis_neighbor(h0.board@, pos.index(), a)
            ==> spec_find(h1.lines@, spec_slot(h1, pos.index(), a)) is Some,
        spec_lines_exact(h0.board@, h0.lines@) ==> spec_lines_exact(h1.board@, h1.lines@),
{
    let b = h0.board@;
    let p = b[pos.index()];
    let l0 = spec_run(b, pos, a, 0) as int;
    let l1 = spec_run(b, pos, a, 1) as int;
    let len = 1 + l0 + l1;
    let e0 = r.0;

    lemma_mul_small(l0, axis_dx(a));
    lemma_mul_small(l0, axis_dy(a));
    lemma_mul_small(l1, axis_dx(a));
    lemma_mul_small(l1, axis_dy(a));
    lemma_mul_small(1, axis_dx(a));
    lemma_mul_small(1, axis_dy(a));
    lemma_mul_small(-1, axis_dx(a));
    lemma_mul_small(-1, axis_dy(a));
    assert(spec_pos_of(pos.index()) == pos);

    if len == 1 {
        // Nothing changed, and the cell is isolated on this axis: a
        // one-step run in both directions means no same-color neighbor.
        assert(h1.lines@ == h0.lines@ && h1.line_pos@ == h0.line_pos@);
        assert(!spec_axis_neighbor(b, pos.index(), a));
        assert forall|c: int, a2: int| 0 <= c < 361 && 0 <= a2 < 4
            implies #[trigger] spec_slot(h1, c, a2) == spec_slot(h0, c, a2) by {
            assert(h1.line_pos@[c] == h0.line_pos@[c]);
        }
        assert(spec_slots_bounded(h1));
        assert forall|c: int, a2: int| 0 <= c < 361 && 0 <= a2 < 4
            && #[trigger] spec_find(h1.lines@, spec_slot(h1, c, a2)) is Some
            implies spec_covers(spec_find(h1.lines@, spec_slot(h1, c, a2)).unwrap(), a2, c)
                && spec_line_on_board(h1.board@, spec_find(h1.lines@, spec_slot(h1, c, a2)).unwrap()) by {
            assert(spec_find(h0.lines@, spec_slot(h0, c, a2)) is Some);
        }
        assert forall|c: int, a2: int| 0 <= c < 361 && 0 <= a2 < 4
            && #[trigger] spec_find(h0.lines@, spec_slot(h0, c, a2)) is Some
            implies spec_find(h1.lines@, spec_slot(h1, c, a2)) is Some by {
        }
    } else {
        let nl = Line {
            id: (h0.lines_idx + 1) as usize,
            start: e0,
            end: r.1,
            length: len as usize,
            direction: a as u8,
            block_pos: ((if spec_run_blocked(b, pos, a, 0) { 2int } else { 0int })
                + (if spec_run_blocked(b, pos, a, 1) { 1int } else { 0int })) as u8,
            player: p,
            score: spec_line_score(((if spec_run_blocked(b, pos, a, 0) { 2int } else { 0int })
                + (if spec_run_blocked(b, pos, a, 1) { 1int } else { 0int })) as u8, len, p),
        };
        assert(h1.lines@ == h0.lines@.push(nl));
        assert(nl.direction as int == a);

        // The new line lies on the board: its cells are the two runs
        // around the evaluated stone.
        assert(spec_line_on_board(h1.board@, nl)) by {
            assert forall|k: int| 0 <= k < nl.length
                implies #[trigger] spec_line_cell_ok(h1.board@, nl, k) by {
                lemma_mul_small(k, axis_dx(a));
                lemma_mul_small(k, axis_dy(a));
                let j = k - l0;
                lemma_mul_small(j, axis_dx(a));
                lemma_mul_small(j, axis_dy(a));
                lemma_mul_small(-j, -axis_dx(a));
                lemma_mul_small(-j, -axis_dy(a));
                assert(seg_x(nl.start, a, k) == pos.x + j * axis_dx(a));
                assert(seg_y(nl.start, a, k) == pos.y + j * axis_dy(a));
                if j < 0 {
                    lemma_run_cell_at(b, pos.x as int, pos.y as int, -axis_dx(a), -axis_dy(a), p, -j);
                } else if j > 0 {
                    lemma_run_cell_at(b, pos.x as int, pos.y as int, axis_dx(a), axis_dy(a), p, j);
                }
            }
        }

        // The new line is the exact maximal run: its end coordinate, the
        // stoppers at both ends and the block bits all come from the runs.
        assert(spec_line_exact(h1.board@, nl)) by {
            lemma_mul_small(len - 1, axis_dx(a));
            lemma_mul_small(len - 1, axis_dy(a));
            lemma_mul_small(len, axis_dx(a));
            lemma_mul_small(len, axis_dy(a));
            lemma_mul_small(l0 + 1, axis_dx(a));
            lemma_mul_small(l0 + 1, axis_dy(a));
            lemma_mul_small(l0 + 1, -axis_dx(a));
            lemma_mul_small(l0 + 1, -axis_dy(a));
            lemma_mul_small(l1 + 1, axis_dx(a));
            lemma_mul_small(l1 + 1, axis_dy(a));
            lemma_run_stop(b, pos.x as int, pos.y as int, -axis_dx(a), -axis_dy(a), p);
            lemma_run_stop(b, pos.x as int, pos.y as int, axis_dx(a), axis_dy(a), p);
            assert(seg_x(nl.start, a, -1) == pos.x + (l0 + 1) * (-axis_dx(a)));
            assert(seg_y(nl.start, a, -1) == pos.y + (l0 + 1) * (-axis_dy(a)));
            assert(seg_x(nl.start, a, len) == pos.x + (l1 + 1) * axis_dx(a));
            assert(seg_y(nl.start, a, len) == pos.y + (l1 + 1) * axis_dy(a));
        }
        if spec_lines_exact(h0.board@, h0.lines@) {
            assert forall|i: int| 0 <= i < h1.lines@.len()
                implies spec_line_exact(h1.board@, #[trigger] h1.lines@[i]) by {
                if i < h0.lines@.len() {
                    assert(h1.lines@[i] == h0.lines@[i]);
                } else {
                    assert(h1.lines@[i] == nl);
                }
            }
        }

        // Fresh resolution facts.
        assert(forall|i: int| 0 <= i < h0.lines@.len() ==> (#[trigger] h0.lines@[i]).id != nl.id);
        assert forall|id: usize| id <= h0.lines_idx implies
            spec_find(h1.lines@, id) == spec_find(h0.lines@, id) by {
            lemma_find_push(h0.lines@, nl, id);
        }
        assert(spec_find(h1.lines@, nl.id) == Some(nl)) by {
            lemma_find_push(h0.lines@, nl, nl.id);
        }

        // Which cells the new line covers, in on-segment terms.
        assert forall|c: int| on_seg(e0, a, len - 1, c) implies spec_covers(nl, a, c) by {
            let k = choose|k: int| 0 <= k <= len - 1 && c == seg_index(e0, a, k);
            assert(0 <= k < nl.length && c == seg_index(nl.start, a, k));
        }

        assert forall|c: int, a2: int| 0 <= c < 361 && 0 <= a2 < 4
            && #[trigger] spec_find(h1.lines@, spec_slot(h1, c, a2)) is Some
            implies spec_covers(spec_find(h1.lines@, spec_slot(h1, c, a2)).unwrap(), a2, c)
                && spec_line_on_board(h1.board@, spec_find(h1.lines@, spec_slot(h1, c, a2)).unwrap()) by {
            if a2 == a && on_seg(e0, a, len - 1, c) {
                assert(spec_slot(h1, c, a2) == nl.id);
            } else {
                assert(spec_slot(h1, c, a2) == spec_slot(h0, c, a2));
                assert(spec_slot(h0, c, a2) <= h0.lines_idx);
                assert(spec_find(h1.lines@, spec_slot(h0, c, a2))
                    == spec_find(h0.lines@, spec_slot(h0, c, a2)));
            }
        }

        assert forall|c: int, a2: int| 0 <= c < 361 && 0 <= a2 < 4
            implies #[trigger] spec_slot(h1, c, a2) <= h1.lines_idx by {
            if a2 == a && on_seg(e0, a, len - 1, c) {
            } else {
                assert(spec_slot(h1, c, a2) == spec_slot(h0, c, a2));
            }
        }

        assert forall|c: int, a2: int| 0 <= c < 361 && 0 <= a2 < 4
            && #[trigger] spec_find(h0.lines@, spec_slot(h0, c, a2)) is Some
            implies spec_find(h1.lines@, spec_slot(h1, c, a2)) is Some by {
            if a2 == a && on_seg(e0, a, len - 1, c) {
                assert(spec_slot(h1, c, a2) == nl.id);
            } else {
                assert(spec_slot(h1, c, a2) == spec_slot(h0, c, a2));
                assert(spec_slot(h0, c, a2) <= h0.lines_idx);
            }
        }

        // The evaluated cell itself now resolves: it sits `l0` steps from
        // the new line's start.
        assert(pos.index() == seg_index(e0, a, l0));
        assert(on_seg(e0, a, len - 1, pos.index()));
        assert(spec_slot(h1, pos.index(), a) == nl.id);
    }
}

/// The geometric half of index soundness: every resolving entry points at
/// a line covering that cell in that axis. Unlike `spec_index_sound` this
/// says nothing about the board, so it survives board changes.
pub open spec fn spec_index_covers(h: Heuristic) -> bool {
    forall|c: int, a: int| 0 <= c < 361 && 0 <= a < 4
        && #[trigger] spec_find(h.lines@, spec_slot(h, c, a)) is Some
        ==> spec_covers(spec_find(h.lines@, spec_slot(h, c, a)).unwrap(), a, c)
}

/// A found line carries the searched id.
pub proof fn lemma_find_id(lines: Seq<Line>, id: usize)
    ensures
        spec_find(lines, id) matches Some(l) ==> l.id == id,
    decreases lines.len(),
{
    if lines.len() > 0 && lines[0].id != id {
        lemma_find_id(lines.subrange(1, lines.len() as int), id);
    }
}

/// In a store with strictly increasing ids, any member is what its id
/// resolves to.
pub proof fn lemma_find_by_id(lines: Seq<Line>, j: int)
    requires
        forall|i1: int, i2: int| 0 <= i1 < i2 < lines.len() ==> lines[i1].id < lines[i2].id,
        0 <= j < lines.len(),
    ensures
        spec_find(lines, lines[j].id) == Some(lines[j]),
    decreases lines.len(),
{
    if j == 0 {
    } else {
        assert(lines[0].id != lines[j].id);
        let rest = lines.subrange(1, lines.len() as int);
        assert(forall|i: int| 0 <= i < rest.len() ==> #[trigger] rest[i] == lines[i + 1]);
        lemma_find_by_id(rest, j - 1);
    }
}

/// One position evaluation keeps the geometric covering of the per-cell
/// index, whatever the store's relation to the board: entries re-pointed
/// by it go to the covering new line, and the rest resolve as before.
#[verifier::rlimit(100)]
#[verifier::spinoff_prover]
proof fn lemma_eval_keeps_covers(h0: Heuristic, h1: Heuristic, pos: Position, a: int, r: (Position, Position, Option<Vec<usize>>))
    requires
        h0.wf(),
        pos.wf(),
        0 <= a < 4,
        h0.board@[pos.index()].is_piece_spec(),
        spec_eval_post(h0, h1, pos, a, r),
        spec_index_covers(h0),
        spec_slots_bounded(h0),
    ensures
        spec_index_covers(h1),
        spec_slots_bounded(h1),
{
    let b = h0.board@;
    let p = b[pos.index()];
    let l0 = spec_run(b, pos, a, 0) as int;
    let l1 = spec_run(b, pos, a, 1) as int;
    let len = 1 + l0 + l1;
    let e0 = r.0;

    lemma_mul_small(l0, axis_dx(a));
    lemma_mul_small(l0, axis_dy(a));
    lemma_mul_small(l1, axis_dx(a));
    lemma_mul_small(l1, axis_dy(a));

    if len == 1 {
        assert(h1.lines@ == h0.lines@ && h1.line_pos@ == h0.line_pos@);
        assert forall|c: int, a2: int| 0 <= c < 361 && 0 <= a2 < 4
            implies #[trigger] spec_slot(h1, c, a2) == spec_slot(h0, c, a2) by {
            assert(h1.line_pos@[c] == h0.line_pos@[c]);
        }
        assert(spec_slots_bounded(h1));
        assert forall|c: int, a2: int| 0 <= c < 361 && 0 <= a2 < 4
            && #[trigger] spec_find(h1.lines@, spec_slot(h1, c, a2)) is Some
            implies spec_covers(spec_find(h1.lines@, spec_slot(h1, c, a2)).unwrap(), a2, c) by {
            assert(spec_find(h0.lines@, spec_slot(h0, c, a2)) is Some);
        }
    } else {
        let nl = Line {
            id: (h0.lines_idx + 1) as usize,
            start: e0,
            end: r.1,
            length: len as usize,
            direction: a as u8,
            block_pos: ((if spec_run_blocked(b, pos, a, 0) { 2int } else { 0int })
                + (if spec_run_blocked(b, pos, a, 1) { 1int } else { 0int })) as u8,
            player: p,
            score: spec_line_score(((if spec_run_blocked(b, pos, a, 0) { 2int } else { 0int })
                + (if spec_run_blocked(b, pos, a, 1) { 1int } else { 0int })) as u8, len, p),
        };
        assert(h1.lines@ == h0.lines@.push(nl));
        assert(nl.direction as int == a);

        assert(forall|i: int| 0 <= i < h0.lines@.len() ==> (#[trigger] h0.lines@[i]).id != nl.id);
        assert forall|id: usize| id <= h0.lines_idx implies
            spec_find(h1.lines@, id) == spec_find(h0.lines@, id) by {
            lemma_find_push(h0.lines@, nl, id);
        }
        assert(spec_find(h1.lines@, nl.id) == Some(nl)) by {
            lemma_find_push(h0.lines@, nl, nl.id);
        }
        assert forall|c: int| on_seg(e0, a, len - 1, c) implies spec_covers(nl, a, c) by {
            let k = choose|k: int| 0 <= k <= len - 1 && c == seg_index(e0, a, k);
            assert(0 <= k < nl.length && c == seg_index(nl.start, a, k));
        }

        assert forall|c: int, a2: int| 0 <= c < 361 && 0 <= a2 < 4
            && #[trigger] spec_find(h1.lines@, spec_slot(h1, c, a2)) is Some
            implies spec_covers(spec_find(h1.lines@, spec_slot(h1, c, a2)).unwrap(), a2, c) by {
            if a2 == a && on_seg(e0, a, len - 1, c) {
                assert(spec_slot(h1, c, a2) == nl.id);
            } else {
                assert(spec_slot(h1, c, a2) == spec_slot(h0, c, a2));
                assert(spec_slot(h0, c, a2) <= h0.lines_idx);
                assert(spec_find(h1.lines@, spec_slot(h0, c, a2))
                    == spec_find(h0.lines@, spec_slot(h0, c, a2)));
            }
        }
        assert forall|c: int, a2: int| 0 <= c < 361 && 0 <= a2 < 4
            implies #[trigger] spec_slot(h1, c, a2) <= h1.lines_idx by {
            if a2 == a && on_seg(e0, a, len - 1, c) {
            } else {
                assert(spec_slot(h1, c, a2) == spec_slot(h0, c, a2));
            }
        }
    }
}

} // verus!
