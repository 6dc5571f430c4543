//! Cell contents: empty, or a stone of the maximizing or minimizing side.

use vstd::prelude::*;

verus! {

#[derive(Clone, Copy, PartialEq, Eq, Structural, Hash, Debug)]
pub enum Piece {
    Empty,
    Max,
    Min,
}

/// Color predicates and the color swap. `is_opposite` counts `Empty` as
/// opposite to both colors, which the line-stopper checks rely on.
pub trait PieceWrap {
    spec fn is_max_spec(&self) -> bool;

    spec fn is_min_spec(&self) -> bool;

    spec fn is_piece_spec(&self) -> bool;

    spec fn is_opposite_spec(&self, p: &Piece) -> bool;

    spec fn is_equal_spec(&self, p: &Piece) -> bool;

    spec fn opposite_spec(&self) -> Piece;

    fn is_max(&self) -> (r: bool)
        ensures
            r == self.is_max_spec(),
    ;

    fn is_min(&self) -> (r: bool)
        ensures
            r == self.is_min_spec(),
    ;

    fn is_piece(&self) -> (r: bool)
        ensures
            r == self.is_piece_spec(),
    ;

    fn is_empty(&self) -> (r: bool)
        ensures
            r == !self.is_piece_spec(),
    ;

    fn is_opposite(&self, p: &Piece) -> (r: bool)
        ensures
            r == self.is_opposite_spec(p),
    ;

    fn is_equal(&self, p: &Piece) -> (r: bool)
        ensures
            r == self.is_equal_spec(p),
    ;

    fn get_opposite(&self) -> (r: Piece)
        requires
            self.is_piece_spec(),
        ensures
            r == self.opposite_spec(),
    ;
}

impl PieceWrap for Piece {
    open spec fn is_max_spec(&self) -> bool {
        *self is Max
    }

    open spec fn is_min_spec(&self) -> bool {
        *self is Min
    }

    open spec fn is_piece_spec(&self) -> bool {
        !(*self is Empty)
    }

    open spec fn is_opposite_spec(&self, p: &Piece) -> bool {
        match *self {
            Piece::Empty => true,
            Piece::Max => *p != Piece::Max,
            Piece::Min => *p != Piece::Min,
        }
    }

    open spec fn is_equal_spec(&self, p: &Piece) -> bool {
        match *self {
            Piece::Empty => false,
            Piece::Max => *p == Piece::Max,
            Piece::Min => *p == Piece::Min,
        }
    }

    open spec fn opposite_spec(&self) -> Piece {
        if *self is Max {
            Piece::Min
        } else {
            Piece::Max
        }
    }

    fn is_max(&self) -> bool {
        match self {
            Piece::Max => true,
            _ => false,
        }
    }

    fn is_min(&self) -> bool {
        match self {
            Piece::Min => true,
            _ => false,
        }
    }

    fn is_piece(&self) -> bool {
        match self {
            Piece::Empty => false,
            _ => true,
        }
    }

    fn is_empty(&self) -> bool {
        match self {
            Piece::Empty => true,
            _ => false,
        }
    }

    fn is_opposite(&self, p: &Piece) -> bool {
        match self {
            Piece::Empty => true,
            Piece::Max => *p != Piece::Max,
            Piece::Min => *p != Piece::Min,
        }
    }

    fn is_equal(&self, p: &Piece) -> bool {
        match self {
            Piece::Empty => false,
            Piece::Max => *p == Piece::Max,
            Piece::Min => *p == Piece::Min,
        }
    }

    fn get_opposite(&self) -> Piece {
        match self {
            Piece::Empty => Piece::Max,
            Piece::Max => Piece::Min,
            Piece::Min => Piece::Max,
        }
    }
}

impl Piece {
    /// The wire code of a piece: `0` is `Max`, `1` is `Min`; any other
    /// value decodes to `Empty`.
    pub open spec fn spec_from_code(code: u64) -> Piece {
        if code == 0 {
            Piece::Max
        } else if code == 1 {
            Piece::Min
        } else {
            Piece::Empty
        }
    }

    pub fn try_from(value: u64) -> (r: Result<Piece, ()>)
        ensures
            r is Ok <==> value < 2,
            r matches Ok(p) ==> p == Piece::spec_from_code(value),
    {
        match value {
            0 => Ok(Piece::Max),
            1 => Ok(Piece::Min),
            _ => Err(()),
        }
    }

    pub fn from_code(value: u64) -> (r: Piece)
        ensures
            r == Piece::spec_from_code(value),
    {
        if value == 0 {
            Piece::Max
        } else if value == 1 {
            Piece::Min
        } else {
            Piece::Empty
        }
    }

    /// Index of a side in the `[max, min]` capture counters.
    pub open spec fn spec_capture_index(self) -> int {
        if self is Max {
            0
        } else {
            1
        }
    }

    pub fn capture_index(&self) -> (r: usize)
        requires
            self.is_piece_spec(),
        ensures
            r == self.spec_capture_index(),
    {
        match self {
            Piece::Max => 0,
            _ => 1,
        }
    }
}

impl Default for Piece {
    fn default() -> (r: Self)
        ensures
            r == Piece::Empty,
    {
        Piece::Empty
    }
}

} // verus!
