//! Evaluation scores: exact integers extended with two infinities.
//!
//! All finite scores are expressed in a fixed unit of 1/152 of the
//! scoring tables' unit, so that the positional bonus (a rational with
//! denominator 38) and its quarter (denominator 152) are exact integers.
//! `PosInf` marks a position won for the maximizing side, `NegInf` one won
//! for the minimizing side.

use vstd::prelude::*;
use crate::piece::{Piece, PieceWrap};

verus! {

/// One unit of the scoring tables, in internal score units.
pub const SCORE_UNIT: i128 = 152;

/// Bound on the cached full-board score: the line sum is bounded by the
/// number of lines (at most `usize::MAX`) times the largest finite line
/// score, far below this.
pub const SCORE_CACHE_BOUND: i128 = 0x1000_0000_0000_0000_0000_0000;

/// Largest magnitude of a finite line or capture score.
pub const MAX_TABLE_SCORE: i128 = 9728;

#[derive(Clone, Copy, PartialEq, Eq, Structural, Debug)]
pub enum Score {
    NegInf,
    Fin(i128),
    PosInf,
}

impl Score {
    /// Addition over extended scores. Opposite infinities cancel to zero;
    /// this case never arises on a position reachable by legal play, where
    /// at most one side holds a won position.
    pub open spec fn spec_plus(self, other: Score) -> Score {
        match (self, other) {
            (Score::PosInf, Score::NegInf) => Score::Fin(0),
            (Score::NegInf, Score::PosInf) => Score::Fin(0),
            (Score::PosInf, _) => Score::PosInf,
            (_, Score::PosInf) => Score::PosInf,
            (Score::NegInf, _) => Score::NegInf,
            (_, Score::NegInf) => Score::NegInf,
            (Score::Fin(a), Score::Fin(b)) => Score::Fin((a + b) as i128),
        }
    }

    pub open spec fn spec_neg(self) -> Score {
        match self {
            Score::PosInf => Score::NegInf,
            Score::NegInf => Score::PosInf,
            Score::Fin(a) => Score::Fin((-a) as i128),
        }
    }

    pub open spec fn spec_minus(self, other: Score) -> Score {
        self.spec_plus(other.spec_neg())
    }

    /// Strict order: `NegInf` below every finite score, `PosInf` above.
    pub open spec fn spec_lt(self, other: Score) -> bool {
        match (self, other) {
            (Score::NegInf, Score::NegInf) => false,
            (Score::NegInf, _) => true,
            (_, Score::NegInf) => false,
            (Score::PosInf, _) => false,
            (_, Score::PosInf) => true,
            (Score::Fin(a), Score::Fin(b)) => a < b,
        }
    }

    pub open spec fn spec_le(self, other: Score) -> bool {
        self.spec_lt(other) || self == other
    }

    /// The addition stays within `i128`.
    pub open spec fn plus_in_range(self, other: Score) -> bool {
        match (self, other) {
            (Score::Fin(a), Score::Fin(b)) => i128::MIN <= a + b <= i128::MAX,
            _ => true,
        }
    }

    pub open spec fn neg_in_range(self) -> bool {
        match self {
            Score::Fin(a) => a != i128::MIN,
            _ => true,
        }
    }

    pub fn plus(self, other: Score) -> (r: Score)
        requires
            self.plus_in_range(other),
        ensures
            r == self.spec_plus(other),
    {
        match (self, other) {
            (Score::PosInf, Score::NegInf) => Score::Fin(0),
            (Score::NegInf, Score::PosInf) => Score::Fin(0),
            (Score::PosInf, _) => Score::PosInf,
            (_, Score::PosInf) => Score::PosInf,
            (Score::NegInf, _) => Score::NegInf,
            (_, Score::NegInf) => Score::NegInf,
            (Score::Fin(a), Score::Fin(b)) => Score::Fin(a + b),
        }
    }

    pub fn neg(self) -> (r: Score)
        requires
            self.neg_in_range(),
        ensures
            r == self.spec_neg(),
    {
        match self {
            Score::PosInf => Score::NegInf,
            Score::NegInf => Score::PosInf,
            Score::Fin(a) => Score::Fin(-a),
        }
    }

    pub fn minus(self, other: Score) -> (r: Score)
        requires
            other.neg_in_range(),
            self.plus_in_range(other.spec_neg()),
        ensures
            r == self.spec_minus(other),
    {
        self.plus(other.neg())
    }

    pub fn lt(&self, other: &Score) -> (r: bool)
        ensures
            r == self.spec_lt(*other),
    {
        match (self, other) {
            (Score::NegInf, Score::NegInf) => false,
            (Score::NegInf, _) => true,
            (_, Score::NegInf) => false,
            (Score::PosInf, _) => false,
            (_, Score::PosInf) => true,
            (Score::Fin(a), Score::Fin(b)) => a < b,
        }
    }

    pub fn gt(&self, other: &Score) -> (r: bool)
        ensures
            r == other.spec_lt(*self),
    {
        other.lt(self)
    }

    pub fn maxs(self, other: Score) -> (r: Score)
        ensures
            r == (if self.spec_lt(other) { other } else { self }),
    {
        if self.lt(&other) {
            other
        } else {
            self
        }
    }

    pub fn mins(self, other: Score) -> (r: Score)
        ensures
            r == (if other.spec_lt(self) { other } else { self }),
    {
        if other.lt(&self) {
            other
        } else {
            self
        }
    }

    pub fn is_infinite(&self) -> (r: bool)
        ensures
            r == !(*self is Fin),
    {
        match self {
            Score::Fin(_) => false,
            _ => true,
        }
    }

    /// Finite magnitude bound.
    pub open spec fn fin_bounded_by(self, bound: int) -> bool {
        self matches Score::Fin(v) ==> -bound <= v <= bound
    }
}

/// Score of a run of `length` stones open on both sides, in internal units.
pub open spec fn spec_b0_score(length: int) -> Score {
    if length >= 5 {
        Score::PosInf
    } else if length == 4 {
        Score::Fin((64 * SCORE_UNIT) as i128)
    } else if length == 3 {
        Score::Fin((16 * SCORE_UNIT) as i128)
    } else if length == 2 {
        Score::Fin((4 * SCORE_UNIT) as i128)
    } else if length == 1 {
        Score::Fin((2 * SCORE_UNIT) as i128)
    } else {
        Score::Fin((1 * SCORE_UNIT) as i128)
    }
}

/// Score of a run blocked on one side. A half-open pair scores zero: a
/// single capture always removes it.
pub open spec fn spec_b1_score(length: int) -> Score {
    if length >= 5 {
        Score::PosInf
    } else if length == 4 {
        Score::Fin((16 * SCORE_UNIT) as i128)
    } else if length == 3 {
        Score::Fin((8 * SCORE_UNIT) as i128)
    } else if length == 2 {
        Score::Fin(0)
    } else if length == 1 {
        Score::Fin((2 * SCORE_UNIT) as i128)
    } else {
        Score::Fin((1 * SCORE_UNIT) as i128)
    }
}

/// Score of a run blocked on both sides: only a five wins.
pub open spec fn spec_b2_score(length: int) -> Score {
    if length >= 5 {
        Score::PosInf
    } else {
        Score::Fin(0)
    }
}

/// Capture-pair score for one side, indexed by the capture count clamped
/// to five. Five captured pairs win outright.
pub open spec fn spec_capture_score(count: int) -> Score {
    if count >= 5 {
        Score::PosInf
    } else if count == 4 {
        Score::Fin((64 * SCORE_UNIT) as i128)
    } else if count == 3 {
        Score::Fin((32 * SCORE_UNIT) as i128)
    } else if count == 2 {
        Score::Fin((16 * SCORE_UNIT) as i128)
    } else if count == 1 {
        Score::Fin((8 * SCORE_UNIT) as i128)
    } else {
        Score::Fin(0)
    }
}

/// Signed score of a line with the given block bits, length and owner:
/// the block-table value, negated for the minimizing side.
pub open spec fn spec_line_score(blocks: u8, length: int, player: Piece) -> Score {
    let base = if blocks == 0 {
        spec_b0_score(if length < 5 { length } else { 5 })
    } else if blocks == 1 || blocks == 2 {
        spec_b1_score(if length < 5 { length } else { 5 })
    } else if blocks == 3 {
        spec_b2_score(if length < 5 { length } else { 5 })
    } else {
        Score::PosInf
    };
    if player == Piece::Max {
        base
    } else {
        base.spec_neg()
    }
}

/// Every line score is an infinity or at most `MAX_TABLE_SCORE` in
/// magnitude, and its sign follows its owner.
pub proof fn lemma_line_score_range(blocks: u8, length: int, player: Piece)
    ensures
        spec_line_score(blocks, length, player).fin_bounded_by(MAX_TABLE_SCORE as int),
        player == Piece::Max ==> spec_line_score(blocks, length, player) == Score::PosInf
            || (spec_line_score(blocks, length, player) matches Score::Fin(v) && 0 <= v),
        player != Piece::Max ==> spec_line_score(blocks, length, player) == Score::NegInf
            || (spec_line_score(blocks, length, player) matches Score::Fin(v) && v <= 0),
{
}

/// Capture scores are nonnegative and bounded when finite.
pub proof fn lemma_capture_score_range(count: int)
    ensures
        spec_capture_score(count).fin_bounded_by(MAX_TABLE_SCORE as int),
        spec_capture_score(count) == Score::PosInf
            || (spec_capture_score(count) matches Score::Fin(v) && 0 <= v),
{
}

} // verus!
