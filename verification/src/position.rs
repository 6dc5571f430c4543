//! Bounded 19x19 board coordinates with safe relative translation.
//! Callers rely on translation failure as the board-boundary signal.

use vstd::prelude::*;

verus! {

/// Number of cells along each board edge.
pub const BOARD_SIZE: usize = 19;

/// A coordinate on the 19x19 board. A value is well formed when both
/// components are below `BOARD_SIZE`; operations that move a position
/// keep it well formed and report a move off the board as an error.
#[derive(Clone, Copy, PartialEq, Eq, Structural, Hash, Debug)]
pub struct Position {
    pub x: usize,
    pub y: usize,
}

impl Position {
    /// Both coordinates are on the board.
    pub open spec fn wf(self) -> bool {
        self.x < BOARD_SIZE && self.y < BOARD_SIZE
    }

    /// Row-major cell index, the total order used for hashing and display.
    pub open spec fn index(self) -> int {
        self.y * 19 + self.x
    }

    pub fn new(x: usize, y: usize) -> (r: Position)
        requires
            x < 19,
            y < 19,
        ensures
            r.x == x,
            r.y == y,
            r.wf(),
    {
        Position { x, y }
    }

    pub fn check_pos(&self) -> (r: Result<(), &'static str>)
        ensures
            r is Ok <==> self.wf(),
    {
        if self.x >= 19 || self.y >= 19 {
            return Err("Invalid position");
        }
        Ok(())
    }

    /// Translate by `(d_x, d_y)`. On success the position moved; a move
    /// that would leave the board fails and leaves the position unchanged.
    pub fn relocate(&mut self, d_x: i32, d_y: i32) -> (r: Result<(), &'static str>)
        requires
            old(self).wf(),
        ensures
            r is Ok <==> (0 <= old(self).x + d_x < 19 && 0 <= old(self).y + d_y < 19),
            r is Ok ==> final(self).x == old(self).x + d_x && final(self).y == old(self).y + d_y,
            r is Err ==> *final(self) == *old(self),
            final(self).wf(),
    {
        let nx: i64 = self.x as i64 + d_x as i64;
        let ny: i64 = self.y as i64 + d_y as i64;
        if 0 <= nx && nx < 19 && 0 <= ny && ny < 19 {
            self.x = nx as usize;
            self.y = ny as usize;
            Ok(())
        } else {
            Err("Invalid position")
        }
    }

    /// Translate by `n` steps of `(d_x, d_y)`, failing at the first step
    /// that leaves the board. Coordinates move monotonically, so success
    /// is equivalent to the final cell being on the board.
    pub fn relocate_n(&mut self, d_x: i32, d_y: i32, n: usize) -> (r: Result<(), &'static str>)
        requires
            old(self).wf(),
        ensures
            r is Ok <==> (0 <= old(self).x + n * d_x < 19 && 0 <= old(self).y + n * d_y < 19),
            r is Ok ==> final(self).x == old(self).x + n * d_x && final(self).y == old(self).y + n * d_y,
            r is Err ==> exists|k: int|
                0 <= k < n && final(self).x == old(self).x + #[trigger] (k * d_x)
                    && final(self).y == old(self).y + k * d_y,
            final(self).wf(),
    {
        let mut i: usize = 0;
        while i < n
            invariant
                i <= n,
                self.wf(),
                self.x == old(self).x + i * d_x,
                self.y == old(self).y + i * d_y,
            decreases n - i,
        {
            let prev_i = i;
            if self.relocate(d_x, d_y).is_err() {
                proof {
                    if !(0 <= old(self).x + prev_i * d_x + d_x < 19) {
                        lemma_step_monotone(old(self).x as int, d_x as int, prev_i as int, n as int);
                    } else {
                        lemma_step_monotone(old(self).y as int, d_y as int, prev_i as int, n as int);
                    }
                }
                return Err("Invalid position");
            }
            proof {
                assert((prev_i + 1) * d_x == prev_i * d_x + d_x) by (nonlinear_arith);
                assert((prev_i + 1) * d_y == prev_i * d_y + d_y) by (nonlinear_arith);
            }
            i = prev_i + 1;
        }
        Ok(())
    }

    pub fn to_u64(&self) -> (r: u64)
        requires
            self.wf(),
        ensures
            r == self.index(),
    {
        (self.y * 19 + self.x) as u64
    }

    pub fn from_u64(pos: usize) -> (r: Position)
        requires
            pos < 361,
        ensures
            r.wf(),
            r.x == pos % 19,
            r.y == pos / 19,
            r.index() == pos,
    {
        Position { x: pos % 19, y: pos / 19 }
    }
}

/// If one more uniform step leaves the board, so does every later cell on
/// the same ray: the coordinate moves monotonically with the step count.
proof fn lemma_step_monotone(base: int, d: int, i: int, n: int)
    requires
        0 <= i < n,
        !(0 <= base + i * d + d < 19),
        0 <= base + i * d < 19,
    ensures
        !(0 <= base + n * d < 19),
{
    if d == 0 {
        assert(base + i * d + d == base + i * d) by (nonlinear_arith)
            requires d == 0;
        assert(false);
    } else if d > 0 {
        assert(base + i * d + d >= 19);
        assert(n * d >= (i + 1) * d) by (nonlinear_arith)
            requires n >= i + 1, d > 0;
        assert((i + 1) * d == i * d + d) by (nonlinear_arith);
    } else {
        assert(base + i * d + d < 0);
        assert(n * d <= (i + 1) * d) by (nonlinear_arith)
            requires n >= i + 1, d < 0;
        assert((i + 1) * d == i * d + d) by (nonlinear_arith);
    }
}

} // verus!
